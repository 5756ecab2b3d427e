//! Small tables of names: owned copies of string literals and membership.

use vstd::prelude::*;

verus! {

/// The names as owned strings, in order.
pub fn owned_names(names: &[&str]) -> (v: Vec<String>)
    ensures
        v@.len() == names@.len(),
        forall|i: int| 0 <= i < names@.len() ==> (#[trigger] v@[i])@ == names@[i]@,
{
    let mut v: Vec<String> = Vec::with_capacity(names.len());
    let mut i: usize = 0;
    while i < names.len()
        invariant
            i <= names@.len(),
            v@.len() == i,
            forall|k: int| 0 <= k < i ==> (#[trigger] v@[k])@ == names@[k]@,
        decreases names@.len() - i,
    {
        v.push(names[i].to_owned());
        i += 1;
    }
    v
}

/// Whether `name` is among `names`.
pub fn contains_name(names: &Vec<String>, name: &String) -> (b: bool)
    ensures
        b == names@.map_values(|s: String| s@).contains(name@),
{
    let ghost views = names@.map_values(|s: String| s@);
    let mut i: usize = 0;
    while i < names.len()
        invariant
            i <= names@.len(),
            views == names@.map_values(|s: String| s@),
            forall|k: int| 0 <= k < i ==> views[k] != name@,
        decreases names@.len() - i,
    {
        if names[i] == *name {
            proof {
                assert(views[i as int] == name@);
            }
            return true;
        }
        i += 1;
    }
    proof {
        if views.contains(name@) {
            let k = choose|k: int| 0 <= k < views.len() && views[k] == name@;
            assert(views[k] != name@);
        }
    }
    false
}

/// Whether the name sequence given as `names` is `spec`.
pub proof fn lemma_names(names: Vec<String>, lits: Seq<&str>, spec: Seq<Seq<char>>)
    requires
        names@.len() == lits.len(),
        forall|i: int| 0 <= i < lits.len() ==> (#[trigger] names@[i])@ == lits[i]@,
        spec.len() == lits.len(),
        forall|i: int| 0 <= i < lits.len() ==> (#[trigger] spec[i]) == lits[i]@,
    ensures
        names@.map_values(|s: String| s@) == spec,
{
    assert(names@.map_values(|s: String| s@) =~= spec);
}

} // verus!
