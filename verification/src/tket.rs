//! Building a circuit from tket commands, once each command's operation
//! type is classified and its arguments are resolved to qubits.

use vstd::prelude::*;

use crate::adapter_error::TketJsonError;
use crate::builder::emit_model;
use crate::builder::BuilderModel;
use crate::builder::CircuitBuilder;
use crate::circuit::OpKind;
use crate::circuit::QubitId;
use crate::validate::ValidatedCircuit;

verus! {

/// How a command's operation type is treated.
#[derive(Debug, Clone, Copy, PartialEq, Eq, Structural)]
pub enum TketCommandClass {
    /// Input, output, barrier, label and the like: skipped.
    Skipped,
    /// Boxes, conditionals and classical operations: refused.
    Unsupported,
    /// A quantum gate.
    Gate,
}

/// Why a gate's kind could not be determined.
#[derive(Debug, Clone, PartialEq, Eq)]
pub enum TketKindError {
    Parse(String),
    SymbolicParameter { gate: String, param: String },
}

/// A tket command: its class, operation type name, arguments (each a qubit,
/// or `None` for a bit or an unknown register element) and the kind of
/// operation it is as a gate.
pub struct TketCommand {
    pub class: TketCommandClass,
    pub op_type: String,
    pub args: Vec<Option<QubitId>>,
    pub kind: Result<OpKind, TketKindError>,
}

/// The qubits among `args`, in order.
pub open spec fn qubit_args(args: Seq<Option<QubitId>>) -> Seq<QubitId>
    decreases args.len(),
{
    if args.len() == 0 {
        Seq::empty()
    } else {
        let prev = qubit_args(args.drop_last());
        match args.last() {
            Some(q) => prev.push(q),
            None => prev,
        }
    }
}

/// The adapter error for a kind that could not be determined.
pub open spec fn kind_error(e: TketKindError) -> TketJsonError {
    match e {
        TketKindError::Parse(m) => TketJsonError::Parse(m),
        TketKindError::SymbolicParameter { gate, param } => TketJsonError::SymbolicParameter { gate, param },
    }
}

/// The effect of one command: structural ones are skipped, unsupported ones
/// refused, and a gate with at least one qubit argument emitted.
pub open spec fn command_step(m: BuilderModel, c: TketCommand) -> Result<BuilderModel, TketJsonError> {
    match c.class {
        TketCommandClass::Skipped => Ok(m),
        TketCommandClass::Unsupported => Err(TketJsonError::UnsupportedOperation { op_type: c.op_type }),
        TketCommandClass::Gate => {
            let q = qubit_args(c.args@);
            if q.len() == 0 {
                Ok(m)
            } else {
                match c.kind {
                    Ok(k) => Ok(emit_model(m, k, q)),
                    Err(e) => Err(kind_error(e)),
                }
            }
        },
    }
}

/// The effect of the commands in order, up to the first failure.
pub open spec fn commands_effect(m: BuilderModel, cmds: Seq<TketCommand>) -> Result<BuilderModel, TketJsonError>
    decreases cmds.len(),
{
    if cmds.len() == 0 {
        Ok(m)
    } else {
        match commands_effect(m, cmds.drop_last()) {
            Ok(m1) => command_step(m1, cmds.last()),
            Err(e) => Err(e),
        }
    }
}

fn qubit_args_exec(args: &Vec<Option<QubitId>>) -> (q: Vec<QubitId>)
    ensures
        q@ == qubit_args(args@),
{
    let mut q: Vec<QubitId> = Vec::new();
    let mut i: usize = 0;
    while i < args.len()
        invariant
            i <= args@.len(),
            q@ == qubit_args(args@.take(i as int)),
        decreases args@.len() - i,
    {
        proof {
            assert(args@.take(i as int + 1).drop_last() =~= args@.take(i as int));
        }
        match args[i] {
            Some(x) => q.push(x),
            None => {},
        }
        i += 1;
    }
    proof {
        assert(args@.take(args@.len() as int) =~= args@);
    }
    q
}

fn kind_error_exec(e: &TketKindError) -> (r: TketJsonError)
    ensures
        r == kind_error(*e),
{
    match e {
        TketKindError::Parse(m) => TketJsonError::Parse(m.clone()),
        TketKindError::SymbolicParameter { gate, param } => TketJsonError::SymbolicParameter {
            gate: gate.clone(),
            param: param.clone(),
        },
    }
}

/// Apply the commands to `builder` in order; stops at the first refused
/// command or undetermined kind.
pub fn process_commands(builder: &mut CircuitBuilder, commands: &[TketCommand]) -> (r: Result<(), TketJsonError>)
    requires
        old(builder).inv(),
    ensures
        final(builder).inv(),
        r is Ok <==> commands_effect(old(builder).model(), commands@) is Ok,
        r is Ok ==> final(builder).model() == commands_effect(old(builder).model(), commands@)->Ok_0,
        r matches Err(e) ==> commands_effect(old(builder).model(), commands@) == Err::<BuilderModel, TketJsonError>(e),
{
    let mut i: usize = 0;
    proof {
        assert(commands@.take(0) =~= Seq::<TketCommand>::empty());
    }
    while i < commands.len()
        invariant
            i <= commands@.len(),
            builder.inv(),
            commands_effect(old(builder).model(), commands@.take(i as int)) == Ok::<BuilderModel, TketJsonError>(
                builder.model(),
            ),
        decreases commands@.len() - i,
    {
        let cmd = &commands[i];
        proof {
            assert(commands@.take(i as int + 1).drop_last() =~= commands@.take(i as int));
            assert(commands@.take(i as int + 1).last() == *cmd);
        }
        match cmd.class {
            TketCommandClass::Skipped => {},
            TketCommandClass::Unsupported => {
                let e = TketJsonError::UnsupportedOperation { op_type: cmd.op_type.clone() };
                proof {
                    lemma_effect_stops(old(builder).model(), commands@, i as int + 1);
                }
                return Err(e);
            },
            TketCommandClass::Gate => {
                let q = qubit_args_exec(&cmd.args);
                if q.len() > 0 {
                    match &cmd.kind {
                        Ok(k) => {
                            builder.emit_operation(*k, q.as_slice());
                        },
                        Err(ke) => {
                            let e = kind_error_exec(ke);
                            proof {
                                lemma_effect_stops(old(builder).model(), commands@, i as int + 1);
                            }
                            return Err(e);
                        },
                    }
                }
            },
        }
        i += 1;
    }
    proof {
        assert(commands@.take(commands@.len() as int) =~= commands@);
    }
    Ok(())
}

proof fn lemma_effect_stops(m: BuilderModel, cmds: Seq<TketCommand>, k: int)
    requires
        0 <= k <= cmds.len(),
        commands_effect(m, cmds.take(k)) is Err,
    ensures
        commands_effect(m, cmds) == commands_effect(m, cmds.take(k)),
    decreases cmds.len() - k,
{
    if k < cmds.len() {
        assert(cmds.take(k + 1).drop_last() =~= cmds.take(k));
        lemma_effect_stops(m, cmds, k + 1);
    } else {
        assert(cmds.take(k) =~= cmds);
    }
}

/// Build and validate the circuit of `commands` on `qubit_count` qubits,
/// named `name`.
pub fn build_circuit(qubit_count: u32, commands: &[TketCommand], name: String) -> (r: Result<ValidatedCircuit, TketJsonError>)
    ensures
        ({
            let m0 = crate::builder::initial_model(qubit_count);
            match commands_effect(m0, commands@) {
                Err(e) => r == Err::<ValidatedCircuit, TketJsonError>(e),
                Ok(m) => exists|c: crate::circuit::ProfilerCircuit|
                    #![trigger crate::builder::model_built(m, c, name@, "tket"@)]
                    crate::builder::model_built(m, c, name@, "tket"@) && match r {
                        Ok(v) => crate::validate::validation_result(c) is Ok && v@ == c,
                        Err(TketJsonError::Validation(e)) => crate::validate::validation_result(c) == Err::<(), crate::validate::ValidationError>(e),
                        Err(_) => false,
                    },
            }
        }),
{
    let mut builder = CircuitBuilder::new(qubit_count);
    match process_commands(&mut builder, commands) {
        Ok(()) => {},
        Err(e) => {
            return Err(e);
        },
    }
    match builder.finish(name, "tket".to_owned()) {
        Ok(v) => Ok(v),
        Err(e) => Err(TketJsonError::Validation(e)),
    }
}

} // verus!
