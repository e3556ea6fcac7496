//! The auto-JIT dispatcher: interpretation with loop profiling.
//!
//! Execution proceeds exactly as in the plain interpreter — the tape and
//! output are proved to follow the same machine — while a stack of loop
//! profiles counts how often each active loop iterates. When a loop's hit
//! count reaches the compilation threshold its source range is recorded as
//! a compile request. The whole policy is specified by `prof_run`, the
//! machine extended with the profile stack and the request log, and the
//! dispatcher is proved to record exactly the requests that machine owes.
//! A host may hand the requests to a compile worker and run the produced
//! code in place of interpretation, which this library's machine shows to
//! be indistinguishable on the tape and output.

use vstd::prelude::*;

use crate::analyzer::{self, Range, ScanMode, Token};
use crate::interpreter::{
    fresh_st, run_failed, st_of, BrainfuckMemory, InterpretError, IoBuffer, RuntimeError,
};
use crate::machine::{
    flat_run, grown, lemma_ops_of_group_wf, lower_group, ops_of_group, ops_wf, wrap_dec, wrap_inc,
    MState, Op, OpCode, RunOut,
};

verus! {

/// How many times a loop must be entered before it is queued for
/// compilation.
pub const COMPILE_THRESHOLD: usize = 3;

/// The profile of one active loop: its source range and how many
/// iterations it has run.
struct SubGroupCache {
    range: Range,
    hit_count: usize,
}

/// The tape of an auto-JIT run, as the dispatcher hands it back.
#[derive(Debug)]
pub struct AutoJITBrainfuckMemory {
    pub index: usize,
    pub memory: Vec<u8>,
}

impl AutoJITBrainfuckMemory {
    pub fn new() -> (r: AutoJITBrainfuckMemory)
        ensures
            r.index == 0,
            r.memory@ == Seq::new(1000nat, |i: int| 0u8),
    {
        let m = AutoJITBrainfuckMemory { index: 0, memory: vec![0u8; 1000] };
        proof {
            assert(m.memory@ =~= Seq::new(1000nat, |i: int| 0u8));
        }
        m
    }
}

/// `r` is the source range of some loop of the program.
pub open spec fn is_loop_range(ops: Seq<Op>, r: Range) -> bool {
    exists|i: int|
        0 <= i < ops.len() && ((#[trigger] ops[i]).kind matches OpCode::Test(_)) && ops[i].range
            == r
}

// ---------------------------------------------------------------------------
// The dispatcher's machine: execution plus the profiling policy
// ---------------------------------------------------------------------------

/// One loop profile as the machine carries it.
pub ghost struct ProfEntry {
    pub range: Range,
    pub hits: int,
}

/// A hit count bumped by one, held at the top of its range.
pub open spec fn sat_bump(h: int) -> int {
    if h < usize::MAX {
        h + 1
    } else {
        h
    }
}

/// One loop iteration beginning at the loop whose range is `r`: the top
/// profile's hit count is bumped when it is this loop's, else a fresh
/// profile is opened; a request for `r` is recorded exactly when the bump
/// reaches the compilation threshold.
pub open spec fn prof_enter(stack: Seq<ProfEntry>, reqs: Seq<Range>, r: Range) -> (
    Seq<ProfEntry>,
    Seq<Range>,
) {
    if stack.len() > 0 && stack.last().range == r {
        let h = sat_bump(stack.last().hits);
        let stack2 = stack.drop_last().push(ProfEntry { range: r, hits: h });
        if h == COMPILE_THRESHOLD {
            (stack2, reqs.push(r))
        } else {
            (stack2, reqs)
        }
    } else {
        (stack.push(ProfEntry { range: r, hits: 1 }), reqs)
    }
}

/// The loop whose range is `r` is done: its profile is dropped if it ever
/// ran (only then is it on top of the stack).
pub open spec fn prof_exit(stack: Seq<ProfEntry>, r: Range) -> Seq<ProfEntry> {
    if stack.len() > 0 && stack.last().range == r {
        stack.drop_last()
    } else {
        stack
    }
}

/// The dispatcher's whole state: the machine state plus the profile stack
/// and the compile requests recorded so far.
pub ghost struct ProfModel {
    pub pc: int,
    pub st: MState,
    pub stack: Seq<ProfEntry>,
    pub requests: Seq<Range>,
}

/// How a dispatcher run ends; as `RunOut`, with the profiling state along.
pub ghost enum ProfOut {
    Done(ProfModel),
    Underflow(ProfModel),
    NoInput(ProfModel),
    TapeFull(ProfModel),
    OutOfFuel,
}

/// A fresh dispatcher over a machine state: no open profiles, no requests.
pub open spec fn prof_init(st: MState) -> ProfModel {
    ProfModel { pc: 0, st, stack: Seq::empty(), requests: Seq::empty() }
}

/// The dispatcher's machine, running `fuel` steps at most: execution steps
/// exactly as `flat_run`, and each loop test updates the profile stack and
/// the request log by the policy above.
pub open spec fn prof_run(fuel: nat, ops: Seq<Op>, m: ProfModel) -> ProfOut
    decreases fuel,
{
    if m.pc == ops.len() {
        ProfOut::Done(m)
    } else if m.pc < 0 || m.pc > ops.len() {
        ProfOut::OutOfFuel
    } else if fuel == 0 {
        ProfOut::OutOfFuel
    } else {
        let f = (fuel - 1) as nat;
        let s = m.st;
        match ops[m.pc].kind {
            OpCode::Right => {
                if s.head + 1 == s.mem.len() {
                    if s.mem.len() == usize::MAX {
                        ProfOut::TapeFull(m)
                    } else {
                        prof_run(
                            f,
                            ops,
                            ProfModel {
                                pc: m.pc + 1,
                                st: MState { mem: grown(s.mem), head: s.head + 1, ..s },
                                ..m
                            },
                        )
                    }
                } else {
                    prof_run(
                        f,
                        ops,
                        ProfModel { pc: m.pc + 1, st: MState { head: s.head + 1, ..s }, ..m },
                    )
                }
            }
            OpCode::Left => {
                if s.head == 0 {
                    ProfOut::Underflow(m)
                } else {
                    prof_run(
                        f,
                        ops,
                        ProfModel { pc: m.pc + 1, st: MState { head: s.head - 1, ..s }, ..m },
                    )
                }
            }
            OpCode::Inc => prof_run(
                f,
                ops,
                ProfModel {
                    pc: m.pc + 1,
                    st: MState { mem: s.mem.update(s.head, wrap_inc(s.mem[s.head])), ..s },
                    ..m
                },
            ),
            OpCode::Dec => prof_run(
                f,
                ops,
                ProfModel {
                    pc: m.pc + 1,
                    st: MState { mem: s.mem.update(s.head, wrap_dec(s.mem[s.head])), ..s },
                    ..m
                },
            ),
            OpCode::Out => prof_run(
                f,
                ops,
                ProfModel {
                    pc: m.pc + 1,
                    st: MState { output: s.output.push(s.mem[s.head]), ..s },
                    ..m
                },
            ),
            OpCode::In => {
                if s.input.len() == 0 {
                    ProfOut::NoInput(m)
                } else {
                    prof_run(
                        f,
                        ops,
                        ProfModel {
                            pc: m.pc + 1,
                            st: MState {
                                mem: s.mem.update(s.head, s.input[0]),
                                input: s.input.drop_first(),
                                ..s
                            },
                            ..m
                        },
                    )
                }
            }
            OpCode::Note => prof_run(f, ops, ProfModel { pc: m.pc + 1, ..m }),
            OpCode::Enter => prof_run(f, ops, ProfModel { pc: m.pc + 1, ..m }),
            OpCode::Test(d) => {
                if s.mem[s.head] == 0 {
                    prof_run(
                        f,
                        ops,
                        ProfModel {
                            pc: m.pc + d + 2,
                            stack: prof_exit(m.stack, ops[m.pc].range),
                            ..m
                        },
                    )
                } else {
                    let pe = prof_enter(m.stack, m.requests, ops[m.pc].range);
                    prof_run(
                        f,
                        ops,
                        ProfModel { pc: m.pc + 1, stack: pe.0, requests: pe.1, ..m },
                    )
                }
            }
            OpCode::Back(d) => prof_run(f, ops, ProfModel { pc: m.pc - d - 1, ..m }),
        }
    }
}

/// The dispatcher completed past the last operation, with this machine
/// state and exactly this request log (whatever profiles remained open).
pub open spec fn prof_done_matches(out: ProfOut, len: int, st: MState, reqs: Seq<Range>) -> bool {
    match out {
        ProfOut::Done(pm) => pm.pc == len && pm.st == st && pm.requests == reqs,
        _ => false,
    }
}

/// The dispatcher failed as the runtime error reports, with this machine
/// state and exactly this request log.
pub open spec fn prof_failed(out: ProfOut, re: RuntimeError, st: MState, reqs: Seq<Range>) -> bool {
    match (re, out) {
        (RuntimeError::PointerUnderflow, ProfOut::Underflow(pm)) => pm.st == st && pm.requests
            == reqs,
        (RuntimeError::InputExhausted, ProfOut::NoInput(pm)) => pm.st == st && pm.requests == reqs,
        (RuntimeError::TapeFull, ProfOut::TapeFull(pm)) => pm.st == st && pm.requests == reqs,
        _ => false,
    }
}

/// From `m0` the dispatcher arrives at `m1` in exactly `n` steps.
pub open spec fn padvances(ops: Seq<Op>, m0: ProfModel, n: nat, m1: ProfModel) -> bool {
    forall|f: nat| #[trigger] prof_run((f + n) as nat, ops, m0) == prof_run(f, ops, m1)
}

proof fn lemma_padvances_refl(ops: Seq<Op>, m: ProfModel)
    ensures
        padvances(ops, m, 0, m),
{
    assert forall|f: nat| #[trigger] prof_run((f + 0) as nat, ops, m) == prof_run(f, ops, m) by {
        assert((f + 0) as nat == f);
    }
}

/// One dispatcher step, stated over fuel.
pub open spec fn pstep_to(ops: Seq<Op>, m1: ProfModel, m2: ProfModel) -> bool {
    forall|f: nat| #[trigger] prof_run((f + 1) as nat, ops, m1) == prof_run(f, ops, m2)
}

/// `padvances` extends along a dispatcher step.
proof fn lemma_padvances_step(ops: Seq<Op>, m0: ProfModel, n: nat, m1: ProfModel, m2: ProfModel)
    requires
        padvances(ops, m0, n, m1),
        pstep_to(ops, m1, m2),
    ensures
        padvances(ops, m0, (n + 1) as nat, m2),
{
    assert forall|f: nat|
        #[trigger] prof_run((f + (n + 1)) as nat, ops, m0) == prof_run(f, ops, m2) by {
        assert(prof_run(((f + 1) + n) as nat, ops, m0) == prof_run((f + 1) as nat, ops, m1));
        assert(prof_run((f + 1) as nat, ops, m1) == prof_run(f, ops, m2));
        assert((f + (n + 1)) as nat == ((f + 1) + n) as nat);
    }
}

/// The outcome visible at `m1` with `f` fuel is `m0`'s outcome with
/// `f + n` fuel.
proof fn lemma_padvances_out(ops: Seq<Op>, m0: ProfModel, n: nat, m1: ProfModel, f: nat)
    requires
        padvances(ops, m0, n, m1),
    ensures
        prof_run((f + n) as nat, ops, m0) == prof_run(f, ops, m1),
{
}

/// The dispatcher's machine executes exactly as the plain machine: its
/// outcome projects onto `flat_run`, profiling aside.
proof fn lemma_prof_run_projects(fuel: nat, ops: Seq<Op>, m: ProfModel)
    ensures
        match prof_run(fuel, ops, m) {
            ProfOut::Done(pm) => flat_run(fuel, ops, m.pc, m.st) == RunOut::Done(pm.st),
            ProfOut::Underflow(pm) => flat_run(fuel, ops, m.pc, m.st) == RunOut::Underflow(pm.st),
            ProfOut::NoInput(pm) => flat_run(fuel, ops, m.pc, m.st) == RunOut::NoInput(pm.st),
            ProfOut::TapeFull(pm) => flat_run(fuel, ops, m.pc, m.st) == RunOut::TapeFull(pm.st),
            ProfOut::OutOfFuel => flat_run(fuel, ops, m.pc, m.st) == RunOut::OutOfFuel,
        },
    decreases fuel,
{
    if m.pc == ops.len() {
    } else if m.pc < 0 || m.pc > ops.len() {
    } else if fuel == 0 {
    } else {
        let f = (fuel - 1) as nat;
        let s = m.st;
        match ops[m.pc].kind {
            OpCode::Right => {
                if s.head + 1 == s.mem.len() {
                    if s.mem.len() != usize::MAX {
                        lemma_prof_run_projects(
                            f,
                            ops,
                            ProfModel {
                                pc: m.pc + 1,
                                st: MState { mem: grown(s.mem), head: s.head + 1, ..s },
                                ..m
                            },
                        );
                    }
                } else {
                    lemma_prof_run_projects(
                        f,
                        ops,
                        ProfModel { pc: m.pc + 1, st: MState { head: s.head + 1, ..s }, ..m },
                    );
                }
            }
            OpCode::Left => {
                if s.head != 0 {
                    lemma_prof_run_projects(
                        f,
                        ops,
                        ProfModel { pc: m.pc + 1, st: MState { head: s.head - 1, ..s }, ..m },
                    );
                }
            }
            OpCode::Inc => {
                lemma_prof_run_projects(
                    f,
                    ops,
                    ProfModel {
                        pc: m.pc + 1,
                        st: MState { mem: s.mem.update(s.head, wrap_inc(s.mem[s.head])), ..s },
                        ..m
                    },
                );
            }
            OpCode::Dec => {
                lemma_prof_run_projects(
                    f,
                    ops,
                    ProfModel {
                        pc: m.pc + 1,
                        st: MState { mem: s.mem.update(s.head, wrap_dec(s.mem[s.head])), ..s },
                        ..m
                    },
                );
            }
            OpCode::Out => {
                lemma_prof_run_projects(
                    f,
                    ops,
                    ProfModel {
                        pc: m.pc + 1,
                        st: MState { output: s.output.push(s.mem[s.head]), ..s },
                        ..m
                    },
                );
            }
            OpCode::In => {
                if s.input.len() != 0 {
                    lemma_prof_run_projects(
                        f,
                        ops,
                        ProfModel {
                            pc: m.pc + 1,
                            st: MState {
                                mem: s.mem.update(s.head, s.input[0]),
                                input: s.input.drop_first(),
                                ..s
                            },
                            ..m
                        },
                    );
                }
            }
            OpCode::Note => {
                lemma_prof_run_projects(f, ops, ProfModel { pc: m.pc + 1, ..m });
            }
            OpCode::Enter => {
                lemma_prof_run_projects(f, ops, ProfModel { pc: m.pc + 1, ..m });
            }
            OpCode::Test(d) => {
                if s.mem[s.head] == 0 {
                    lemma_prof_run_projects(
                        f,
                        ops,
                        ProfModel {
                            pc: m.pc + d + 2,
                            stack: prof_exit(m.stack, ops[m.pc].range),
                            ..m
                        },
                    );
                } else {
                    let pe = prof_enter(m.stack, m.requests, ops[m.pc].range);
                    lemma_prof_run_projects(
                        f,
                        ops,
                        ProfModel { pc: m.pc + 1, stack: pe.0, requests: pe.1, ..m },
                    );
                }
            }
            OpCode::Back(d) => {
                lemma_prof_run_projects(f, ops, ProfModel { pc: m.pc - d - 1, ..m });
            }
        }
    }
}

/// The profiles an executable profile stack stands for.
spec fn cache_view(stack: Seq<SubGroupCache>) -> Seq<ProfEntry> {
    stack.map_values(|c: SubGroupCache| ProfEntry { range: c.range, hits: c.hit_count as int })
}

/// Runs a lowered program for at most `fuel` steps, profiling loops. The
/// tape, input and output follow the machine exactly as in `run_ops`, and
/// the source ranges appended to `requests` are exactly the compile
/// requests the dispatcher's machine records: one for a loop each time its
/// hit count reaches the compilation threshold.
pub fn run_auto_jit(
    ops: &Vec<Op>,
    mem: &mut BrainfuckMemory,
    io: &mut IoBuffer,
    requests: &mut Vec<Range>,
    fuel: u64,
) -> (r: Result<bool, RuntimeError>)
    requires
        ops_wf(ops@),
        old(mem).wf(),
        old(io).wf(),
    ensures
        final(mem).wf(),
        final(io).wf(),
        final(io).input@ == old(io).input@,
        old(io).read <= final(io).read,
        final(requests)@.len() >= old(requests)@.len(),
        final(requests)@.subrange(0, old(requests)@.len() as int) == old(requests)@,
        forall|j: int|
            old(requests)@.len() <= j < final(requests)@.len() ==> is_loop_range(
                ops@,
                final(requests)@[j],
            ),
        ({
            let m0 = prof_init(st_of(*old(mem), *old(io)));
            let new_reqs = final(requests)@.skip(old(requests)@.len() as int);
            match r {
                Ok(true) => exists|k: nat|
                    k <= fuel && prof_done_matches(
                        #[trigger] prof_run(k, ops@, m0),
                        ops@.len() as int,
                        st_of(*final(mem), *final(io)),
                        new_reqs,
                    ),
                Ok(false) => exists|pc2: int, stk: Seq<ProfEntry>|
                    #[trigger] padvances(
                        ops@,
                        m0,
                        fuel as nat,
                        ProfModel {
                            pc: pc2,
                            st: st_of(*final(mem), *final(io)),
                            stack: stk,
                            requests: new_reqs,
                        },
                    ),
                Err(re) => exists|k: nat|
                    k <= fuel && prof_failed(
                        #[trigger] prof_run(k, ops@, m0),
                        re,
                        st_of(*final(mem), *final(io)),
                        new_reqs,
                    ),
            }
        }),
        match r {
            Ok(true) => exists|k: nat|
                k <= fuel && #[trigger] flat_run(k, ops@, 0, st_of(*old(mem), *old(io)))
                    == RunOut::Done(st_of(*final(mem), *final(io))),
            Ok(false) => flat_run(fuel as nat, ops@, 0, st_of(*old(mem), *old(io)))
                == RunOut::OutOfFuel,
            Err(re) => exists|k: nat|
                k <= fuel && run_failed(
                    #[trigger] flat_run(k, ops@, 0, st_of(*old(mem), *old(io))),
                    re,
                    st_of(*final(mem), *final(io)),
                ),
        },
{
    let ghost s0 = st_of(*mem, *io);
    let ghost m0 = prof_init(s0);
    let ghost reqbase = old(requests)@.len() as int;
    let mut sub_group_cache_stack: Vec<SubGroupCache> = Vec::new();
    let mut pc: usize = 0;
    let mut left: u64 = fuel;
    proof {
        lemma_padvances_refl(ops@, m0);
        assert(cache_view(sub_group_cache_stack@) =~= Seq::<ProfEntry>::empty());
        assert(requests@.skip(reqbase) =~= Seq::<Range>::empty());
    }
    loop
        invariant
            ops_wf(ops@),
            mem.wf(),
            io.wf(),
            io.input@ == old(io).input@,
            old(io).read <= io.read,
            pc <= ops@.len(),
            left <= fuel,
            s0 == st_of(*old(mem), *old(io)),
            m0 == prof_init(s0),
            reqbase == old(requests)@.len() as int,
            requests@.len() >= old(requests)@.len(),
            requests@.subrange(0, reqbase) == old(requests)@,
            forall|j: int|
                reqbase <= j < requests@.len() ==> is_loop_range(ops@, requests@[j]),
            padvances(
                ops@,
                m0,
                (fuel - left) as nat,
                ProfModel {
                    pc: pc as int,
                    st: st_of(*mem, *io),
                    stack: cache_view(sub_group_cache_stack@),
                    requests: requests@.skip(reqbase),
                },
            ),
        decreases left,
    {
        let ghost s1 = st_of(*mem, *io);
        let ghost pci = pc as int;
        let ghost n = (fuel - left) as nat;
        let ghost pm = ProfModel {
            pc: pci,
            st: s1,
            stack: cache_view(sub_group_cache_stack@),
            requests: requests@.skip(reqbase),
        };
        if pc == ops.len() {
            proof {
                lemma_padvances_out(ops@, m0, n, pm, 0);
                assert(prof_run((0 + n) as nat, ops@, m0) == ProfOut::Done(pm));
                lemma_prof_run_projects(n, ops@, m0);
            }
            return Ok(true);
        }
        if left == 0 {
            proof {
                assert((fuel - left) as nat == fuel as nat);
                lemma_padvances_out(ops@, m0, fuel as nat, pm, 0);
                assert(prof_run((0 + fuel as nat) as nat, ops@, m0) == ProfOut::OutOfFuel);
                lemma_prof_run_projects(fuel as nat, ops@, m0);
            }
            return Ok(false);
        }
        left = left - 1;
        let op = ops[pc];
        match op.kind {
            OpCode::Right => {
                match mem.shift_right() {
                    Ok(()) => {
                        proof {
                            let s2 = st_of(*mem, *io);
                            let pm2 = ProfModel { pc: pci + 1, st: s2, ..pm };
                            assert forall|f: nat|
                                #[trigger] prof_run((f + 1) as nat, ops@, pm) == prof_run(
                                    f,
                                    ops@,
                                    pm2,
                                ) by {
                                if s1.head + 1 == s1.mem.len() {
                                    assert(s2 == MState {
                                        mem: grown(s1.mem),
                                        head: s1.head + 1,
                                        ..s1
                                    });
                                } else {
                                    assert(s2 == MState { head: s1.head + 1, ..s1 });
                                }
                            }
                            lemma_padvances_step(ops@, m0, n, pm, pm2);
                        }
                        pc = pc + 1;
                    }
                    Err(e) => {
                        proof {
                            assert(prof_run(1, ops@, pm) == ProfOut::TapeFull(pm));
                            lemma_padvances_out(ops@, m0, n, pm, 1);
                            assert(prof_run((1 + n) as nat, ops@, m0) == ProfOut::TapeFull(pm));
                            lemma_prof_run_projects((1 + n) as nat, ops@, m0);
                        }
                        return Err(e);
                    }
                }
            }
            OpCode::Left => {
                match mem.shift_left() {
                    Ok(()) => {
                        proof {
                            let s2 = st_of(*mem, *io);
                            let pm2 = ProfModel { pc: pci + 1, st: s2, ..pm };
                            assert forall|f: nat|
                                #[trigger] prof_run((f + 1) as nat, ops@, pm) == prof_run(
                                    f,
                                    ops@,
                                    pm2,
                                ) by {
                                assert(s2 == MState { head: s1.head - 1, ..s1 });
                            }
                            lemma_padvances_step(ops@, m0, n, pm, pm2);
                        }
                        pc = pc + 1;
                    }
                    Err(e) => {
                        proof {
                            assert(prof_run(1, ops@, pm) == ProfOut::Underflow(pm));
                            lemma_padvances_out(ops@, m0, n, pm, 1);
                            assert(prof_run((1 + n) as nat, ops@, m0) == ProfOut::Underflow(pm));
                            lemma_prof_run_projects((1 + n) as nat, ops@, m0);
                        }
                        return Err(e);
                    }
                }
            }
            OpCode::Inc => {
                mem.inc();
                proof {
                    let s2 = st_of(*mem, *io);
                    let pm2 = ProfModel { pc: pci + 1, st: s2, ..pm };
                    assert forall|f: nat|
                        #[trigger] prof_run((f + 1) as nat, ops@, pm) == prof_run(f, ops@, pm2) by {
                        assert(s2 == MState {
                            mem: s1.mem.update(s1.head, wrap_inc(s1.mem[s1.head])),
                            ..s1
                        });
                    }
                    lemma_padvances_step(ops@, m0, n, pm, pm2);
                }
                pc = pc + 1;
            }
            OpCode::Dec => {
                mem.dec();
                proof {
                    let s2 = st_of(*mem, *io);
                    let pm2 = ProfModel { pc: pci + 1, st: s2, ..pm };
                    assert forall|f: nat|
                        #[trigger] prof_run((f + 1) as nat, ops@, pm) == prof_run(f, ops@, pm2) by {
                        assert(s2 == MState {
                            mem: s1.mem.update(s1.head, wrap_dec(s1.mem[s1.head])),
                            ..s1
                        });
                    }
                    lemma_padvances_step(ops@, m0, n, pm, pm2);
                }
                pc = pc + 1;
            }
            OpCode::Out => {
                let b = mem.read(mem.index);
                io.output.push(b);
                proof {
                    let s2 = st_of(*mem, *io);
                    let pm2 = ProfModel { pc: pci + 1, st: s2, ..pm };
                    assert forall|f: nat|
                        #[trigger] prof_run((f + 1) as nat, ops@, pm) == prof_run(f, ops@, pm2) by {
                        assert(s2 == MState { output: s1.output.push(s1.mem[s1.head]), ..s1 });
                    }
                    lemma_padvances_step(ops@, m0, n, pm, pm2);
                }
                pc = pc + 1;
            }
            OpCode::In => {
                if io.read < io.input.len() {
                    let b = io.input[io.read];
                    mem.write(mem.index, b);
                    io.read = io.read + 1;
                    proof {
                        let s2 = st_of(*mem, *io);
                        let pm2 = ProfModel { pc: pci + 1, st: s2, ..pm };
                        assert(io.pending() =~= s1.input.drop_first());
                        assert forall|f: nat|
                            #[trigger] prof_run((f + 1) as nat, ops@, pm) == prof_run(
                                f,
                                ops@,
                                pm2,
                            ) by {
                            assert(s2 == MState {
                                mem: s1.mem.update(s1.head, s1.input[0]),
                                input: s1.input.drop_first(),
                                ..s1
                            });
                        }
                        lemma_padvances_step(ops@, m0, n, pm, pm2);
                    }
                    pc = pc + 1;
                } else {
                    proof {
                        assert(s1.input.len() == 0);
                        assert(prof_run(1, ops@, pm) == ProfOut::NoInput(pm));
                        lemma_padvances_out(ops@, m0, n, pm, 1);
                        assert(prof_run((1 + n) as nat, ops@, m0) == ProfOut::NoInput(pm));
                        lemma_prof_run_projects((1 + n) as nat, ops@, m0);
                    }
                    return Err(RuntimeError::InputExhausted);
                }
            }
            OpCode::Note => {
                proof {
                    let pm2 = ProfModel { pc: pci + 1, ..pm };
                    assert forall|f: nat|
                        #[trigger] prof_run((f + 1) as nat, ops@, pm) == prof_run(f, ops@, pm2) by {}
                    lemma_padvances_step(ops@, m0, n, pm, pm2);
                }
                pc = pc + 1;
            }
            OpCode::Enter => {
                proof {
                    let pm2 = ProfModel { pc: pci + 1, ..pm };
                    assert forall|f: nat|
                        #[trigger] prof_run((f + 1) as nat, ops@, pm) == prof_run(f, ops@, pm2) by {}
                    lemma_padvances_step(ops@, m0, n, pm, pm2);
                }
                pc = pc + 1;
            }
            OpCode::Test(d) => {
                let b = mem.read(mem.index);
                if b == 0 {
                    // the loop is done: drop its profile if it ever ran
                    if sub_group_cache_stack.len() > 0 && sub_group_cache_stack[
                        sub_group_cache_stack.len() - 1].range == op.range {
                        sub_group_cache_stack.pop();
                    }
                    proof {
                        assert(pci + d + 2 <= ops@.len());
                        let pm2 = ProfModel {
                            pc: pci + d + 2,
                            stack: cache_view(sub_group_cache_stack@),
                            ..pm
                        };
                        assert(cache_view(sub_group_cache_stack@) =~= prof_exit(
                            pm.stack,
                            op.range,
                        ));
                        assert forall|f: nat|
                            #[trigger] prof_run((f + 1) as nat, ops@, pm) == prof_run(
                                f,
                                ops@,
                                pm2,
                            ) by {}
                        lemma_padvances_step(ops@, m0, n, pm, pm2);
                    }
                    pc = pc + d + 2;
                } else {
                    // one more iteration: bump or open this loop's profile,
                    // and queue it for compilation at the threshold
                    if sub_group_cache_stack.len() > 0 && sub_group_cache_stack[
                        sub_group_cache_stack.len() - 1].range == op.range {
                        let last = sub_group_cache_stack.len() - 1;
                        let h = sub_group_cache_stack[last].hit_count;
                        let nh = if h < usize::MAX {
                            h + 1
                        } else {
                            h
                        };
                        sub_group_cache_stack[last] = SubGroupCache { range: op.range, hit_count: nh };
                        if nh == COMPILE_THRESHOLD {
                            requests.push(op.range);
                            proof {
                                assert(is_loop_range(ops@, op.range));
                                assert(requests@.subrange(0, reqbase) =~= old(requests)@);
                                assert(requests@.skip(reqbase) =~= pm.requests.push(op.range));
                            }
                        }
                    } else {
                        sub_group_cache_stack.push(SubGroupCache { range: op.range, hit_count: 1 });
                    }
                    proof {
                        let pe = prof_enter(pm.stack, pm.requests, op.range);
                        assert(cache_view(sub_group_cache_stack@) =~= pe.0);
                        assert(requests@.skip(reqbase) =~= pe.1);
                        let pm2 = ProfModel {
                            pc: pci + 1,
                            stack: cache_view(sub_group_cache_stack@),
                            requests: requests@.skip(reqbase),
                            ..pm
                        };
                        assert forall|f: nat|
                            #[trigger] prof_run((f + 1) as nat, ops@, pm) == prof_run(
                                f,
                                ops@,
                                pm2,
                            ) by {}
                        lemma_padvances_step(ops@, m0, n, pm, pm2);
                    }
                    pc = pc + 1;
                }
            }
            OpCode::Back(d) => {
                proof {
                    assert(d + 1 <= pci);
                    let pm2 = ProfModel { pc: pci - d - 1, ..pm };
                    assert forall|f: nat|
                        #[trigger] prof_run((f + 1) as nat, ops@, pm) == prof_run(f, ops@, pm2) by {}
                    lemma_padvances_step(ops@, m0, n, pm, pm2);
                }
                pc = pc - d - 1;
            }
        }
    }
}

/// Parses and runs a source under the auto-JIT dispatcher on a fresh tape:
/// the same result the plain interpreter reaches, with the final tape
/// handed back.
pub fn interpret_auto_jit(input: &str, io: &mut IoBuffer) -> (r: Result<
    AutoJITBrainfuckMemory,
    InterpretError,
>)
    requires
        input@.len() <= u32::MAX,
        old(io).wf(),
    ensures
        final(io).wf(),
        final(io).input@ == old(io).input@,
        match r {
            Ok(m) => exists|ts: Seq<Token>, k: nat|
                analyzer::group_matches(input@, 0, input@.len() as int, ts) && #[trigger] flat_run(
                    k,
                    ops_of_group(ts),
                    0,
                    fresh_st(*old(io)),
                ) == RunOut::Done(
                    MState {
                        mem: m.memory@,
                        head: m.index as int,
                        input: final(io).pending(),
                        output: final(io).output@,
                    },
                ),
            Err(InterpretError::Parse(e)) => analyzer::err_matches(
                e,
                analyzer::scan(input@, 0, 0, ScanMode::Code),
            ) && *final(io) == *old(io),
            Err(InterpretError::Runtime(re)) => exists|ts: Seq<Token>, k: nat, st: MState|
                analyzer::group_matches(input@, 0, input@.len() as int, ts) && #[trigger] run_failed(
                    flat_run(k, ops_of_group(ts), 0, fresh_st(*old(io))),
                    re,
                    st,
                ) && st.output == final(io).output@ && st.input == final(io).pending(),
            Err(InterpretError::OutOfSteps) => exists|ts: Seq<Token>|
                analyzer::group_matches(input@, 0, input@.len() as int, ts) && #[trigger] flat_run(
                    u64::MAX as nat,
                    ops_of_group(ts),
                    0,
                    fresh_st(*old(io)),
                ) == RunOut::OutOfFuel,
        },
{
    let pr = match analyzer::parse(input) {
        Ok(pr) => pr,
        Err(e) => {
            return Err(InterpretError::Parse(e));
        }
    };
    let ops = lower_group(&pr.parse_token_group);
    let n = ops.len();
    proof {
        lemma_ops_of_group_wf(pr.parse_token_group.token_group@);
    }
    let mut memory = BrainfuckMemory::new();
    let mut requests: Vec<Range> = Vec::new();
    proof {
        assert(st_of(memory, *io) == fresh_st(*old(io)));
    }
    match run_auto_jit(&ops, &mut memory, io, &mut requests, u64::MAX) {
        Ok(true) => Ok(AutoJITBrainfuckMemory { index: memory.index, memory: memory.memory }),
        Ok(false) => Err(InterpretError::OutOfSteps),
        Err(re) => Err(InterpretError::Runtime(re)),
    }
}

} // verus!
