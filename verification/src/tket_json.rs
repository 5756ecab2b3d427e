//! Reading a tket1 JSON circuit: the parse into plain values, the
//! classification of operation types by name, and the resolution of each
//! command's arguments to qubit indices.

use vstd::prelude::*;

use crate::adapter_error::TketJsonError;
use crate::circuit::OpKind;
use crate::circuit::QubitId;
use crate::names::contains_name;
use crate::names::lemma_names;
use crate::names::owned_names;
use crate::tket::TketCommand;
use crate::tket::TketCommandClass;
use crate::tket::TketKindError;

verus! {

/// A register element: its register name and its index.
pub struct TketElement {
    pub reg: String,
    pub index: Vec<i64>,
}

/// A command as the JSON gives it: the name of its operation type, its
/// arguments and its parameter expressions.
pub struct TketRawCommand {
    pub op_type: String,
    pub args: Vec<TketElement>,
    pub params: Option<Vec<String>>,
}

/// A tket1 circuit as the JSON gives it: its name, its input qubits and its
/// commands.
pub struct TketSerial {
    pub name: Option<String>,
    pub qubits: Vec<TketElement>,
    pub commands: Vec<TketRawCommand>,
}

/// What `serde_json` reads as a `tket_json_rs::SerialCircuit` from the text
/// `json`, in plain values, or the message of its error.
pub uninterp spec fn tket_serial_of(json: Seq<char>) -> Result<TketSerial, String>;

/// Parse `json` with `serde_json::from_str` into a
/// `tket_json_rs::SerialCircuit` and convert it field by field: the circuit's
/// name, its qubits, and for each command the display name of its
/// `OpType`, its arguments and its parameters. On failure, the error's
/// message. The contract claims only that the result is a function of the
/// text.
#[verifier::external_body]
pub fn parse_tket_json(json: &str) -> (r: Result<TketSerial, String>)
    ensures
        r == tket_serial_of(json@),
{
    let c: tket_json_rs::SerialCircuit = serde_json::from_str(json).map_err(|e| e.to_string())?;
    let el = |e: &tket_json_rs::register::ElementId| TketElement { reg: e.0.clone(), index: e.1.clone() };
    let commands = c.commands.iter().map(|m| TketRawCommand {
        op_type: m.op.op_type.to_string(),
        args: m.args.iter().map(el).collect(),
        params: m.op.params.clone(),
    }).collect();
    Ok(TketSerial { name: c.name, qubits: c.qubits.iter().map(|q| el(&q.id)).collect(), commands })
}

/// The message for a circuit with `n` qubits, more than a `u32` holds.
pub uninterp spec fn too_many_qubits_text(n: usize) -> Seq<char>;

/// `format!` of the message for a circuit with `n` qubits: the text
/// "qubit count {n} exceeds u32 maximum". The contract claims only that it
/// is a function of `n`.
#[verifier::external_body]
fn too_many_qubits(n: usize) -> (s: String)
    ensures
        s@ == too_many_qubits_text(n),
{
    format!("qubit count {n} exceeds u32 maximum")
}

/// Operation types that are skipped: inputs, outputs, barriers and control
/// flow markers.
pub open spec fn structural_op_types() -> Seq<Seq<char>> {
    seq![
        "Input"@,
        "Output"@,
        "Create"@,
        "Discard"@,
        "ClInput"@,
        "ClOutput"@,
        "Barrier"@,
        "Label"@,
        "Branch"@,
        "Goto"@,
        "Stop"@,
        "noop"@,
    ]
}

/// Operation types that are refused: boxes, conditionals and classical
/// operations.
pub open spec fn unsupported_op_types() -> Seq<Seq<char>> {
    seq![
        "CircBox"@,
        "Unitary1qBox"@,
        "Unitary2qBox"@,
        "Unitary3qBox"@,
        "ExpBox"@,
        "PauliExpBox"@,
        "PauliExpPairBox"@,
        "PauliExpCommutingSetBox"@,
        "TermSequenceBox"@,
        "CliffBox"@,
        "PhasePolyBox"@,
        "StabiliserAssertionBox"@,
        "ProjectorAssertionBox"@,
        "QControlBox"@,
        "UnitaryTableauBox"@,
        "ClassicalExpBox"@,
        "MultiplexorBox"@,
        "MultiplexedRotationBox"@,
        "MultiplexedU2Box"@,
        "MultiplexedTensoredU2Box"@,
        "ToffoliBox"@,
        "ConjugationBox"@,
        "DummyBox"@,
        "StatePreparationBox"@,
        "DiagonalBox"@,
        "CustomGate"@,
        "Conditional"@,
        "ClassicalTransform"@,
        "WASM"@,
        "SetBits"@,
        "CopyBits"@,
        "RangePredicate"@,
        "ExplicitPredicate"@,
        "ExplicitModifier"@,
        "MultiBit"@,
        "ClExpr"@,
    ]
}

/// How an operation type, given by name, is treated.
pub open spec fn op_class(name: Seq<char>) -> TketCommandClass {
    if structural_op_types().contains(name) {
        TketCommandClass::Skipped
    } else if unsupported_op_types().contains(name) {
        TketCommandClass::Unsupported
    } else {
        TketCommandClass::Gate
    }
}

/// How the operation type named `name` is treated.
pub fn op_type_class(name: &str) -> (c: TketCommandClass)
    ensures
        c == op_class(name@),
{
    let name = name.to_owned();
    let structural_lits = [
        "Input",
        "Output",
        "Create",
        "Discard",
        "ClInput",
        "ClOutput",
        "Barrier",
        "Label",
        "Branch",
        "Goto",
        "Stop",
        "noop",
    ];
    let unsupported_lits = [
        "CircBox",
        "Unitary1qBox",
        "Unitary2qBox",
        "Unitary3qBox",
        "ExpBox",
        "PauliExpBox",
        "PauliExpPairBox",
        "PauliExpCommutingSetBox",
        "TermSequenceBox",
        "CliffBox",
        "PhasePolyBox",
        "StabiliserAssertionBox",
        "ProjectorAssertionBox",
        "QControlBox",
        "UnitaryTableauBox",
        "ClassicalExpBox",
        "MultiplexorBox",
        "MultiplexedRotationBox",
        "MultiplexedU2Box",
        "MultiplexedTensoredU2Box",
        "ToffoliBox",
        "ConjugationBox",
        "DummyBox",
        "StatePreparationBox",
        "DiagonalBox",
        "CustomGate",
        "Conditional",
        "ClassicalTransform",
        "WASM",
        "SetBits",
        "CopyBits",
        "RangePredicate",
        "ExplicitPredicate",
        "ExplicitModifier",
        "MultiBit",
        "ClExpr",
    ];
    let structural = owned_names(&structural_lits);
    let unsupported = owned_names(&unsupported_lits);
    proof {
        lemma_names(structural, structural_lits@, structural_op_types());
        lemma_names(unsupported, unsupported_lits@, unsupported_op_types());
    }
    if contains_name(&structural, &name) {
        TketCommandClass::Skipped
    } else if contains_name(&unsupported, &name) {
        TketCommandClass::Unsupported
    } else {
        TketCommandClass::Gate
    }
}

/// Two elements name the same register element.
pub open spec fn same_element(a: TketElement, b: TketElement) -> bool {
    a.reg@ == b.reg@ && a.index@ == b.index@
}

/// The qubit that element `a` names among `qubits`: the index of the last
/// qubit that is the same element, or `None` when there is none.
pub open spec fn qubit_of(qubits: Seq<TketElement>, a: TketElement) -> Option<QubitId>
    decreases qubits.len(),
{
    if qubits.len() == 0 {
        None
    } else if same_element(qubits.last(), a) {
        Some((qubits.len() - 1) as QubitId)
    } else {
        qubit_of(qubits.drop_last(), a)
    }
}

fn same_element_exec(a: &TketElement, b: &TketElement) -> (r: bool)
    ensures
        r == same_element(*a, *b),
{
    if a.reg != b.reg {
        return false;
    }
    if a.index.len() != b.index.len() {
        return false;
    }
    let mut i: usize = 0;
    while i < a.index.len()
        invariant
            i <= a.index@.len(),
            a.index@.len() == b.index@.len(),
            forall|k: int| 0 <= k < i ==> a.index@[k] == b.index@[k],
        decreases a.index@.len() - i,
    {
        if a.index[i] != b.index[i] {
            return false;
        }
        i += 1;
    }
    proof {
        assert(a.index@ =~= b.index@);
    }
    true
}

fn find_qubit(qubits: &Vec<TketElement>, a: &TketElement) -> (r: Option<QubitId>)
    requires
        qubits@.len() <= u32::MAX,
    ensures
        r == qubit_of(qubits@, *a),
{
    let mut i: usize = qubits.len();
    proof {
        assert(qubits@.take(i as int) =~= qubits@);
    }
    while i > 0
        invariant
            i <= qubits@.len(),
            qubits@.len() <= u32::MAX,
            qubit_of(qubits@, *a) == qubit_of(qubits@.take(i as int), *a),
        decreases i,
    {
        let j = i - 1;
        proof {
            assert(qubits@.take(i as int).drop_last() =~= qubits@.take(j as int));
            assert(qubits@.take(i as int).last() == qubits@[j as int]);
        }
        if same_element_exec(&qubits[j], a) {
            return Some(j as QubitId);
        }
        i = j;
    }
    None
}

fn copy_kind(k: &Result<OpKind, TketKindError>) -> (r: Result<OpKind, TketKindError>)
    ensures
        r == *k,
{
    match k {
        Ok(kind) => Ok(*kind),
        Err(TketKindError::Parse(m)) => Err(TketKindError::Parse(m.clone())),
        Err(TketKindError::SymbolicParameter { gate, param }) => Err(
            TketKindError::SymbolicParameter { gate: gate.clone(), param: param.clone() },
        ),
    }
}

/// The commands of `serial`, each with its class by operation-type name,
/// its arguments resolved to qubits and its kind from `kinds`, and the
/// number of qubits. Fails when the circuit has more qubits than a `u32`
/// holds.
pub fn commands_of(serial: &TketSerial, kinds: Vec<Result<OpKind, TketKindError>>) -> (r: Result<(u32, Vec<TketCommand>), TketJsonError>)
    requires
        kinds@.len() == serial.commands@.len(),
    ensures
        r is Err <==> serial.qubits@.len() > u32::MAX,
        r matches Err(e) ==> e matches TketJsonError::Parse(m) && m@ == too_many_qubits_text(serial.qubits@.len() as usize),
        r matches Ok((n, cmds)) ==> {
            &&& n == serial.qubits@.len()
            &&& cmds@.len() == serial.commands@.len()
            &&& forall|i: int|
                0 <= i < cmds@.len() ==> {
                    &&& (#[trigger] cmds@[i]).class == op_class(serial.commands@[i].op_type@)
                    &&& cmds@[i].op_type@ == serial.commands@[i].op_type@
                    &&& cmds@[i].args@ == serial.commands@[i].args@.map_values(
                        |a: TketElement| qubit_of(serial.qubits@, a),
                    )
                    &&& cmds@[i].kind == kinds@[i]
                }
        },
{
    if serial.qubits.len() > 0xffff_ffffusize {
        return Err(TketJsonError::Parse(too_many_qubits(serial.qubits.len())));
    }
    let n = serial.qubits.len() as u32;
    let mut cmds: Vec<TketCommand> = Vec::with_capacity(serial.commands.len());
    let mut i: usize = 0;
    while i < serial.commands.len()
        invariant
            i <= serial.commands@.len(),
            kinds@.len() == serial.commands@.len(),
            serial.qubits@.len() <= u32::MAX,
            cmds@.len() == i,
            forall|k: int|
                0 <= k < i ==> {
                    &&& (#[trigger] cmds@[k]).class == op_class(serial.commands@[k].op_type@)
                    &&& cmds@[k].op_type@ == serial.commands@[k].op_type@
                    &&& cmds@[k].args@ == serial.commands@[k].args@.map_values(
                        |a: TketElement| qubit_of(serial.qubits@, a),
                    )
                    &&& cmds@[k].kind == kinds@[k]
                },
        decreases serial.commands@.len() - i,
    {
        let raw = &serial.commands[i];
        let mut args: Vec<Option<QubitId>> = Vec::with_capacity(raw.args.len());
        let mut j: usize = 0;
        while j < raw.args.len()
            invariant
                j <= raw.args@.len(),
                serial.qubits@.len() <= u32::MAX,
                args@ == raw.args@.take(j as int).map_values(|a: TketElement| qubit_of(serial.qubits@, a)),
            decreases raw.args@.len() - j,
        {
            let q = find_qubit(&serial.qubits, &raw.args[j]);
            args.push(q);
            proof {
                assert(raw.args@.take(j as int + 1) =~= raw.args@.take(j as int).push(raw.args@[j as int]));
                assert(args@ =~= raw.args@.take(j as int + 1).map_values(|a: TketElement| qubit_of(serial.qubits@, a)));
            }
            j += 1;
        }
        proof {
            assert(raw.args@.take(raw.args@.len() as int) =~= raw.args@);
        }
        let cmd = TketCommand {
            class: op_type_class(raw.op_type.as_str()),
            op_type: raw.op_type.clone(),
            args,
            kind: copy_kind(&kinds[i]),
        };
        cmds.push(cmd);
        i += 1;
    }
    Ok((n, cmds))
}

} // verus!
