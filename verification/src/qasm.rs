//! Building a circuit from OpenQASM statements, once each statement is read
//! into declarations, gates with their classified kind, and measurements.

use vstd::prelude::*;

use crate::builder::emit_model;
use crate::builder::initial_model;
use crate::builder::model_built;
use crate::builder::set_count_model;
use crate::builder::BuilderModel;
use crate::builder::CircuitBuilder;
use crate::builder::QubitRegistry;
use crate::builder::QubitResolveError;
use crate::circuit::OpKind;
use crate::circuit::ProfilerCircuit;
use crate::circuit::QubitId;
use crate::validate::validation_result;
use crate::validate::ValidatedCircuit;
use crate::validate::ValidationError;

verus! {

/// A qubit operand.
#[derive(Debug, Clone, PartialEq, Eq)]
pub enum QasmRef {
    /// A register named without an index.
    Whole(u64),
    /// A register element.
    Indexed(u64, u32),
    /// A hardware qubit `$n`.
    Hardware(QubitId),
    /// An operand that cannot be read, with the reason.
    Invalid(String),
}

/// Why a statement cannot be read.
#[derive(Debug, Clone, PartialEq, Eq)]
pub enum QasmFailure {
    Parse(String),
    SymbolicParameter { gate: String, name: String },
}

/// A statement, as far as the circuit is concerned.
pub enum QasmStmt {
    /// Declaration of register `sym` of `count` qubits.
    Declare { sym: u64, count: u32 },
    /// A gate of kind `kind` on the operands.
    Gate { kind: OpKind, operands: Vec<QasmRef> },
    /// A measurement or reset of the operand.
    Measure { operand: QasmRef },
    /// A statement that cannot be read.
    Fail(QasmFailure),
}

/// Why a circuit cannot be built.
#[derive(Debug, Clone, PartialEq, Eq)]
pub enum QasmBuildError {
    Resolve(QubitResolveError),
    Failure(QasmFailure),
    Validation(ValidationError),
}

/// The registers, the qubit count and the builder state.
pub struct QasmModel {
    pub registers: Map<u64, (QubitId, u32)>,
    pub count: u32,
    pub builder: BuilderModel,
}

/// The state before any statement.
pub open spec fn initial_qasm() -> QasmModel {
    QasmModel { registers: Map::empty(), count: 0, builder: initial_model(0) }
}

/// The qubit an operand resolves to.
pub open spec fn resolve_ref(regs: Map<u64, (QubitId, u32)>, r: QasmRef) -> Result<QubitId, QasmBuildError> {
    let lookup = |sym: u64, index: Option<u32>|
        if !regs.contains_key(sym) {
            Err::<QubitId, QasmBuildError>(QasmBuildError::Resolve(QubitResolveError::Unresolved))
        } else {
            let (start, count) = regs[sym];
            match index {
                Some(i) => if i < count {
                    Ok(((start + i) % 0x1_0000_0000) as u32)
                } else {
                    Err(QasmBuildError::Resolve(QubitResolveError::IndexOutOfBounds { index: i, size: count }))
                },
                None => if count == 1 {
                    Ok(start)
                } else {
                    Err(QasmBuildError::Resolve(QubitResolveError::BareMultiQubitRegister))
                },
            }
        };
    match r {
        QasmRef::Whole(sym) => lookup(sym, None),
        QasmRef::Indexed(sym, i) => lookup(sym, Some(i)),
        QasmRef::Hardware(q) => Ok(q),
        QasmRef::Invalid(m) => Err(QasmBuildError::Failure(QasmFailure::Parse(m))),
    }
}

/// The qubits of the operands, in order, or the first operand's failure.
pub open spec fn resolve_refs(regs: Map<u64, (QubitId, u32)>, rs: Seq<QasmRef>) -> Result<Seq<QubitId>, QasmBuildError>
    decreases rs.len(),
{
    if rs.len() == 0 {
        Ok(Seq::empty())
    } else {
        match resolve_refs(regs, rs.drop_last()) {
            Err(e) => Err(e),
            Ok(qs) => match resolve_ref(regs, rs.last()) {
                Ok(q) => Ok(qs.push(q)),
                Err(e) => Err(e),
            },
        }
    }
}

/// The effect of one statement.
pub open spec fn stmt_step(m: QasmModel, s: QasmStmt) -> Result<QasmModel, QasmBuildError> {
    match s {
        QasmStmt::Declare { sym, count } => {
            let n = if m.count + count > u32::MAX {
                u32::MAX
            } else {
                (m.count + count) as u32
            };
            Ok(
                QasmModel {
                    registers: m.registers.insert(sym, (m.count, count)),
                    count: n,
                    builder: set_count_model(m.builder, n),
                },
            )
        },
        QasmStmt::Gate { kind, operands } => match resolve_refs(m.registers, operands@) {
            Ok(qs) => Ok(QasmModel { builder: emit_model(m.builder, kind, qs), ..m }),
            Err(e) => Err(e),
        },
        QasmStmt::Measure { operand } => match resolve_ref(m.registers, operand) {
            Ok(q) => Ok(
                QasmModel { builder: emit_model(m.builder, OpKind::Measurement { hook: None }, seq![q]), ..m },
            ),
            Err(e) => Err(e),
        },
        QasmStmt::Fail(f) => Err(QasmBuildError::Failure(f)),
    }
}

/// The effect of the statements in order, up to the first failure.
pub open spec fn stmts_effect(m: QasmModel, stmts: Seq<QasmStmt>) -> Result<QasmModel, QasmBuildError>
    decreases stmts.len(),
{
    if stmts.len() == 0 {
        Ok(m)
    } else {
        match stmts_effect(m, stmts.drop_last()) {
            Ok(m1) => stmt_step(m1, stmts.last()),
            Err(e) => Err(e),
        }
    }
}

fn copy_failure(f: &QasmFailure) -> (r: QasmFailure)
    ensures
        r == *f,
{
    match f {
        QasmFailure::Parse(m) => QasmFailure::Parse(m.clone()),
        QasmFailure::SymbolicParameter { gate, name } => QasmFailure::SymbolicParameter {
            gate: gate.clone(),
            name: name.clone(),
        },
    }
}

fn resolve_one(reg: &QubitRegistry, r: &QasmRef) -> (q: Result<QubitId, QasmBuildError>)
    ensures
        q == resolve_ref(reg.registers(), *r),
{
    match r {
        QasmRef::Whole(sym) => match reg.resolve(*sym, None) {
            Ok(q) => Ok(q),
            Err(e) => Err(QasmBuildError::Resolve(e)),
        },
        QasmRef::Indexed(sym, i) => match reg.resolve(*sym, Some(*i)) {
            Ok(q) => Ok(q),
            Err(e) => Err(QasmBuildError::Resolve(e)),
        },
        QasmRef::Hardware(q) => Ok(*q),
        QasmRef::Invalid(m) => Err(QasmBuildError::Failure(QasmFailure::Parse(m.clone()))),
    }
}

fn resolve_all(reg: &QubitRegistry, rs: &Vec<QasmRef>) -> (r: Result<Vec<QubitId>, QasmBuildError>)
    ensures
        match r {
            Ok(v) => resolve_refs(reg.registers(), rs@) == Ok::<Seq<QubitId>, QasmBuildError>(v@),
            Err(e) => resolve_refs(reg.registers(), rs@) == Err::<Seq<QubitId>, QasmBuildError>(e),
        },
{
    let mut v: Vec<QubitId> = Vec::new();
    let mut i: usize = 0;
    while i < rs.len()
        invariant
            i <= rs@.len(),
            resolve_refs(reg.registers(), rs@.take(i as int)) == Ok::<Seq<QubitId>, QasmBuildError>(v@),
        decreases rs@.len() - i,
    {
        proof {
            assert(rs@.take(i as int + 1).drop_last() =~= rs@.take(i as int));
        }
        match resolve_one(reg, &rs[i]) {
            Ok(q) => {
                v.push(q);
            },
            Err(e) => {
                proof {
                    lemma_refs_stop(reg.registers(), rs@, i as int + 1);
                }
                return Err(e);
            },
        }
        i += 1;
    }
    proof {
        assert(rs@.take(rs@.len() as int) =~= rs@);
    }
    Ok(v)
}

proof fn lemma_refs_stop(regs: Map<u64, (QubitId, u32)>, rs: Seq<QasmRef>, k: int)
    requires
        0 <= k <= rs.len(),
        resolve_refs(regs, rs.take(k)) is Err,
    ensures
        resolve_refs(regs, rs) == resolve_refs(regs, rs.take(k)),
    decreases rs.len() - k,
{
    if k < rs.len() {
        assert(rs.take(k + 1).drop_last() =~= rs.take(k));
        lemma_refs_stop(regs, rs, k + 1);
    } else {
        assert(rs.take(k) =~= rs);
    }
}

proof fn lemma_stmts_stop(m: QasmModel, stmts: Seq<QasmStmt>, k: int)
    requires
        0 <= k <= stmts.len(),
        stmts_effect(m, stmts.take(k)) is Err,
    ensures
        stmts_effect(m, stmts) == stmts_effect(m, stmts.take(k)),
    decreases stmts.len() - k,
{
    if k < stmts.len() {
        assert(stmts.take(k + 1).drop_last() =~= stmts.take(k));
        lemma_stmts_stop(m, stmts, k + 1);
    } else {
        assert(stmts.take(k) =~= stmts);
    }
}

/// Build and validate the circuit of the statements, in order: a
/// declaration adds a register after the qubits declared so far, a gate is
/// emitted on its resolved operands, a measurement or reset emits a
/// measurement on its operand. The first statement that fails stops the
/// build with its error.
pub fn build_circuit(stmts: &[QasmStmt]) -> (r: Result<ValidatedCircuit, QasmBuildError>)
    ensures
        match stmts_effect(initial_qasm(), stmts@) {
            Err(e) => r == Err::<ValidatedCircuit, QasmBuildError>(e),
            Ok(m) => exists|c: ProfilerCircuit|
                #![trigger model_built(m.builder, c, Seq::<char>::empty(), "openqasm"@)]
                model_built(m.builder, c, Seq::<char>::empty(), "openqasm"@) && match r {
                    Ok(v) => validation_result(c) is Ok && v@ == c,
                    Err(QasmBuildError::Validation(e)) => validation_result(c) == Err::<(), ValidationError>(e),
                    Err(_) => false,
                },
        },
{
    let mut reg = QubitRegistry::new();
    let mut builder = CircuitBuilder::new(0);
    let mut i: usize = 0;
    proof {
        assert(stmts@.take(0) =~= Seq::<QasmStmt>::empty());
    }
    while i < stmts.len()
        invariant
            i <= stmts@.len(),
            builder.inv(),
            stmts_effect(initial_qasm(), stmts@.take(i as int)) == Ok::<QasmModel, QasmBuildError>(
                QasmModel { registers: reg.registers(), count: reg.count_spec(), builder: builder.model() },
            ),
        decreases stmts@.len() - i,
    {
        proof {
            assert(stmts@.take(i as int + 1).drop_last() =~= stmts@.take(i as int));
            assert(stmts@.take(i as int + 1).last() == stmts@[i as int]);
        }
        match &stmts[i] {
            QasmStmt::Declare { sym, count } => {
                reg.register(*sym, *count);
                builder.set_qubit_count(reg.qubit_count());
            },
            QasmStmt::Gate { kind, operands } => {
                match resolve_all(&reg, operands) {
                    Ok(qs) => {
                        builder.emit_operation(*kind, qs.as_slice());
                    },
                    Err(e) => {
                        proof {
                            lemma_stmts_stop(initial_qasm(), stmts@, i as int + 1);
                        }
                        return Err(e);
                    },
                }
            },
            QasmStmt::Measure { operand } => {
                match resolve_one(&reg, operand) {
                    Ok(q) => {
                        let qs: Vec<QubitId> = vec![q];
                        proof {
                            assert(qs@ =~= seq![q]);
                        }
                        builder.emit_operation(OpKind::Measurement { hook: None }, qs.as_slice());
                    },
                    Err(e) => {
                        proof {
                            lemma_stmts_stop(initial_qasm(), stmts@, i as int + 1);
                        }
                        return Err(e);
                    },
                }
            },
            QasmStmt::Fail(f) => {
                proof {
                    lemma_stmts_stop(initial_qasm(), stmts@, i as int + 1);
                }
                return Err(QasmBuildError::Failure(copy_failure(f)));
            },
        }
        i += 1;
    }
    proof {
        assert(stmts@.take(stmts@.len() as int) =~= stmts@);
    }
    let name = String::new();
    let framework = "openqasm".to_owned();
    let ghost bm = builder.model();
    let ghost nm = name@;
    let ghost fw = framework@;
    proof {
        assert(nm =~= Seq::<char>::empty());
    }
    let fin = builder.finish(name, framework);
    proof {
        let c = choose|c: ProfilerCircuit| #[trigger] model_built(bm, c, nm, fw) && match fin {
            Ok(v) => validation_result(c) is Ok && v@ == c,
            Err(e) => validation_result(c) == Err::<(), ValidationError>(e),
        };
        assert(model_built(bm, c, Seq::<char>::empty(), "openqasm"@));
        let m = stmts_effect(initial_qasm(), stmts@)->Ok_0;
        assert(m.builder == bm);
    }
    let r = match fin {
        Ok(v) => Ok(v),
        Err(e) => Err(QasmBuildError::Validation(e)),
    };
    proof {
        let m = stmts_effect(initial_qasm(), stmts@)->Ok_0;
        let c = choose|c: ProfilerCircuit| #[trigger] model_built(bm, c, nm, fw) && match fin {
            Ok(v) => validation_result(c) is Ok && v@ == c,
            Err(e) => validation_result(c) == Err::<(), ValidationError>(e),
        };
        assert(model_built(m.builder, c, Seq::<char>::empty(), "openqasm"@));
        assert(match r {
            Ok(v) => validation_result(c) is Ok && v@ == c,
            Err(QasmBuildError::Validation(e)) => validation_result(c) == Err::<(), ValidationError>(e),
            Err(_) => false,
        });
    }
    r
}

} // verus!
