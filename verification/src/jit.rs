//! Lowering a parsed program to machine code and running it.
//!
//! `compile` lowers a token tree to the flat operation program it means;
//! the result is held in a `JITCache` and `run` executes it against a tape.
//! Emitting native instructions for such a program and calling them is host
//! plumbing outside this library; everything the lowering decides — which
//! operations, in which order, with which jump distances — is fixed here.

use vstd::prelude::*;

use crate::analyzer::{self, ScanMode, Token, TokenGroup};
use crate::interpreter::{
    fresh_st, run_failed, run_ops, st_of, BrainfuckMemory, InterpretError, IoBuffer, RuntimeError,
};
use crate::machine::{flat_run, lemma_ops_of_group_wf, lower_group, ops_of_group, ops_wf, MState, Op, RunOut};

verus! {

/// A compiled program: the machine operations a token tree lowers to.
#[derive(Debug)]
pub struct JITCache {
    pub ops: Vec<Op>,
}

/// Lowers a token tree to its machine program.
pub fn compile(input: &TokenGroup) -> (r: JITCache)
    ensures
        r.ops@ == ops_of_group(input.token_group@),
        ops_wf(r.ops@),
{
    let ops = lower_group(input);
    let n = ops.len();
    proof {
        lemma_ops_of_group_wf(input.token_group@);
    }
    JITCache { ops }
}

/// Runs a compiled program on the given tape for at most `fuel` steps.
/// The tape and buffer end exactly where the machine says the program ends.
pub fn run(jit_cache: &JITCache, runtime: &mut BrainfuckMemory, io: &mut IoBuffer, fuel: u64) -> (r:
    Result<bool, RuntimeError>)
    requires
        ops_wf(jit_cache.ops@),
        old(runtime).wf(),
        old(io).wf(),
    ensures
        final(runtime).wf(),
        final(io).wf(),
        final(io).input@ == old(io).input@,
        match r {
            Ok(true) => exists|k: nat|
                k <= fuel && #[trigger] flat_run(k, jit_cache.ops@, 0, st_of(*old(runtime), *old(io)))
                    == RunOut::Done(st_of(*final(runtime), *final(io))),
            Ok(false) => flat_run(fuel as nat, jit_cache.ops@, 0, st_of(*old(runtime), *old(io)))
                == RunOut::OutOfFuel,
            Err(re) => exists|k: nat|
                k <= fuel && run_failed(
                    #[trigger] flat_run(k, jit_cache.ops@, 0, st_of(*old(runtime), *old(io))),
                    re,
                    st_of(*final(runtime), *final(io)),
                ),
        },
{
    run_ops(&jit_cache.ops, runtime, io, fuel)
}

/// Parses a source, compiles it, and runs the compiled program on a fresh
/// tape: the same result as interpreting the source directly.
pub fn interpret_jit(input: &str, io: &mut IoBuffer) -> (r: Result<BrainfuckMemory, InterpretError>)
    requires
        input@.len() <= u32::MAX,
        old(io).wf(),
    ensures
        final(io).wf(),
        final(io).input@ == old(io).input@,
        match r {
            Ok(m) => exists|ts: Seq<Token>, k: nat|
                analyzer::group_matches(input@, 0, input@.len() as int, ts) && #[trigger] flat_run(
                    k,
                    ops_of_group(ts),
                    0,
                    fresh_st(*old(io)),
                ) == RunOut::Done(st_of(m, *final(io))),
            Err(InterpretError::Parse(e)) => analyzer::err_matches(
                e,
                analyzer::scan(input@, 0, 0, ScanMode::Code),
            ) && *final(io) == *old(io),
            Err(InterpretError::Runtime(re)) => exists|ts: Seq<Token>, k: nat, st: MState|
                analyzer::group_matches(input@, 0, input@.len() as int, ts) && #[trigger] run_failed(
                    flat_run(k, ops_of_group(ts), 0, fresh_st(*old(io))),
                    re,
                    st,
                ) && st.output == final(io).output@ && st.input == final(io).pending(),
            Err(InterpretError::OutOfSteps) => exists|ts: Seq<Token>|
                analyzer::group_matches(input@, 0, input@.len() as int, ts) && #[trigger] flat_run(
                    u64::MAX as nat,
                    ops_of_group(ts),
                    0,
                    fresh_st(*old(io)),
                ) == RunOut::OutOfFuel,
        },
{
    let pr = match analyzer::parse(input) {
        Ok(pr) => pr,
        Err(e) => {
            return Err(InterpretError::Parse(e));
        }
    };
    let jit_cache = compile(&pr.parse_token_group);
    let mut memory = BrainfuckMemory::new();
    proof {
        assert(st_of(memory, *io) == fresh_st(*old(io)));
    }
    match run(&jit_cache, &mut memory, io, u64::MAX) {
        Ok(true) => Ok(memory),
        Ok(false) => Err(InterpretError::OutOfSteps),
        Err(re) => Err(InterpretError::Runtime(re)),
    }
}

} // verus!
