//! The memory tape and the plain interpreter: a parsed program runs against
//! a fresh tape, reading bytes from an injected input buffer and writing
//! bytes to an injected output buffer.

use vstd::prelude::*;

use crate::analyzer::{self, ParseError, ScanMode, Token};
use crate::machine::{
    advances, flat_run, grown, lemma_advances_out, lemma_advances_refl, lemma_advances_step,
    lemma_ops_of_group_wf, lower_group, ops_of_group, ops_wf, wrap_dec, wrap_inc, MState, Op,
    OpCode, RunOut,
};

verus! {

/// A failure while a program runs: the head moved left of the first cell,
/// the input ran dry, or the tape reached the address space's end.
#[derive(Debug, Eq, PartialEq, Structural, Copy, Clone)]
pub enum RuntimeError {
    PointerUnderflow,
    InputExhausted,
    TapeFull,
}

/// The growable byte tape with its head.
#[derive(Debug)]
pub struct BrainfuckMemory {
    pub index: usize,
    pub memory: Vec<u8>,
}

impl BrainfuckMemory {
    /// The head always rests on a cell.
    pub open spec fn wf(self) -> bool {
        self.memory@.len() >= 1 && self.index < self.memory@.len()
    }

    pub fn new() -> (r: BrainfuckMemory)
        ensures
            r.wf(),
            r.index == 0,
            r.memory@ == Seq::new(1000nat, |i: int| 0u8),
    {
        let m = BrainfuckMemory { index: 0, memory: vec![0u8; 1000] };
        proof {
            assert(m.memory@ =~= Seq::new(1000nat, |i: int| 0u8));
        }
        m
    }

    /// Moves the head one cell right, first doubling the tape (new cells
    /// zeroed) when the head rests on the last cell. Fails only when the
    /// tape already fills the whole address space.
    pub fn shift_right(&mut self) -> (r: Result<(), RuntimeError>)
        requires
            old(self).wf(),
        ensures
            final(self).wf(),
            r is Err <==> (old(self).index + 1 == old(self).memory@.len()
                && old(self).memory@.len() == usize::MAX),
            r is Ok ==> final(self).index == old(self).index + 1 && final(self).memory@ == (
            if old(self).index + 1 == old(self).memory@.len() {
                grown(old(self).memory@)
            } else {
                old(self).memory@
            }),
            r is Err ==> r == Err::<(), RuntimeError>(RuntimeError::TapeFull) && final(self).index
                == old(self).index && final(self).memory@ == old(self).memory@,
    {
        if self.memory.len() - self.index == 1 {
            let l = self.memory.len();
            if l == usize::MAX {
                return Err(RuntimeError::TapeFull);
            }
            let target = if l <= usize::MAX / 2 {
                l * 2
            } else {
                usize::MAX
            };
            let ghost oldmem = self.memory@;
            while self.memory.len() < target
                invariant
                    oldmem == old(self).memory@,
                    self.index == old(self).index,
                    self.index + 1 == l,
                    l == oldmem.len(),
                    1 <= l < usize::MAX,
                    target == (if l <= usize::MAX / 2 {
                        2 * l
                    } else {
                        usize::MAX as int
                    }),
                    l <= self.memory@.len() <= target,
                    self.memory@.subrange(0, l as int) == oldmem,
                    forall|i: int| l <= i < self.memory@.len() ==> self.memory@[i] == 0,
                decreases target - self.memory@.len(),
            {
                self.memory.push(0);
                proof {
                    assert(self.memory@.subrange(0, l as int) =~= oldmem);
                }
            }
            proof {
                assert(self.memory@ =~= grown(oldmem));
            }
        }
        self.index = self.index + 1;
        Ok(())
    }

    /// Moves the head one cell left; fails when the head is at cell zero.
    pub fn shift_left(&mut self) -> (r: Result<(), RuntimeError>)
        requires
            old(self).wf(),
        ensures
            final(self).wf(),
            final(self).memory@ == old(self).memory@,
            r is Err <==> old(self).index == 0,
            r is Ok ==> final(self).index == old(self).index - 1,
            r is Err ==> r == Err::<(), RuntimeError>(RuntimeError::PointerUnderflow)
                && final(self).index == old(self).index,
    {
        if self.index == 0 {
            return Err(RuntimeError::PointerUnderflow);
        }
        self.index = self.index - 1;
        Ok(())
    }

    /// Increments the cell under the head, wrapping 255 to 0.
    pub fn inc(&mut self)
        requires
            old(self).wf(),
        ensures
            final(self).wf(),
            final(self).index == old(self).index,
            final(self).memory@ == old(self).memory@.update(
                old(self).index as int,
                wrap_inc(old(self).memory@[old(self).index as int]),
            ),
    {
        let v = self.memory[self.index];
        let nv = if v == 255 {
            0
        } else {
            v + 1
        };
        self.memory[self.index] = nv;
    }

    /// Decrements the cell under the head, wrapping 0 to 255.
    pub fn dec(&mut self)
        requires
            old(self).wf(),
        ensures
            final(self).wf(),
            final(self).index == old(self).index,
            final(self).memory@ == old(self).memory@.update(
                old(self).index as int,
                wrap_dec(old(self).memory@[old(self).index as int]),
            ),
    {
        let v = self.memory[self.index];
        let nv = if v == 0 {
            255
        } else {
            v - 1
        };
        self.memory[self.index] = nv;
    }

    /// Reads the cell at `i`.
    pub fn read(&self, i: usize) -> (r: u8)
        requires
            i < self.memory@.len(),
        ensures
            r == self.memory@[i as int],
    {
        self.memory[i]
    }

    /// Writes the cell at `i`.
    pub fn write(&mut self, i: usize, v: u8)
        requires
            i < old(self).memory@.len(),
        ensures
            final(self).index == old(self).index,
            final(self).memory@ == old(self).memory@.update(i as int, v),
    {
        self.memory[i] = v;
    }

    /// Reads `count` bytes from `start` for memory inspection: cells past
    /// the tape's current end read as zero, and the tape never grows.
    pub fn read_range(&self, start: usize, count: usize) -> (r: Vec<u8>)
        ensures
            r@.len() == count,
            forall|k: int|
                0 <= k < count ==> r@[k] == (if start + k < self.memory@.len() {
                    self.memory@[start + k]
                } else {
                    0u8
                }),
    {
        let mut r: Vec<u8> = Vec::new();
        let len = self.memory.len();
        let mut k: usize = 0;
        while k < count
            invariant
                len == self.memory@.len(),
                k <= count,
                r@.len() == k,
                forall|j: int|
                    0 <= j < k ==> r@[j] == (if start + j < self.memory@.len() {
                        self.memory@[start + j]
                    } else {
                        0u8
                    }),
            decreases count - k,
        {
            let v = if k <= usize::MAX - start && start + k < len {
                self.memory[start + k]
            } else {
                0
            };
            let ghost rold = r@;
            r.push(v);
            proof {
                assert forall|j: int|
                    0 <= j < k + 1 implies r@[j] == (if start + j < self.memory@.len() {
                        self.memory@[start + j]
                    } else {
                        0u8
                    }) by {
                    if j < k {
                        assert(r@[j] == rold[j]);
                    } else {
                        assert(r@[j] == v);
                    }
                }
            }
            k = k + 1;
        }
        r
    }
}

/// The injectable input source and output sink of an interpreter run:
/// `input` is consumed from `read` on, and output bytes are appended.
#[derive(Debug)]
pub struct IoBuffer {
    pub input: Vec<u8>,
    pub read: usize,
    pub output: Vec<u8>,
}

impl IoBuffer {
    pub open spec fn wf(self) -> bool {
        self.read <= self.input@.len()
    }

    /// The input bytes not yet consumed.
    pub open spec fn pending(self) -> Seq<u8> {
        self.input@.skip(self.read as int)
    }

    pub fn new(input: Vec<u8>) -> (r: IoBuffer)
        ensures
            r.wf(),
            r.input@ == input@,
            r.read == 0,
            r.output@ == Seq::<u8>::empty(),
    {
        IoBuffer { input, read: 0, output: Vec::new() }
    }
}

/// The machine state a tape and an IO buffer stand for.
pub open spec fn st_of(m: BrainfuckMemory, io: IoBuffer) -> MState {
    MState { mem: m.memory@, head: m.index as int, input: io.pending(), output: io.output@ }
}

/// The state of a fresh tape with the given IO buffer.
pub open spec fn fresh_st(io: IoBuffer) -> MState {
    MState {
        mem: Seq::new(1000nat, |i: int| 0u8),
        head: 0,
        input: io.pending(),
        output: io.output@,
    }
}

/// Which machine outcome a runtime error reports.
pub open spec fn run_failed(out: RunOut, re: RuntimeError, st: MState) -> bool {
    match re {
        RuntimeError::PointerUnderflow => out == RunOut::Underflow(st),
        RuntimeError::InputExhausted => out == RunOut::NoInput(st),
        RuntimeError::TapeFull => out == RunOut::TapeFull(st),
    }
}

/// Runs a lowered program on the given tape and IO buffer for at most
/// `fuel` machine steps: exactly what the machine determines for the program.
/// `Ok(true)` is completion, `Ok(false)` that the program has not settled
/// within `fuel` steps.
pub fn run_ops(ops: &Vec<Op>, mem: &mut BrainfuckMemory, io: &mut IoBuffer, fuel: u64) -> (r:
    Result<bool, RuntimeError>)
    requires
        ops_wf(ops@),
        old(mem).wf(),
        old(io).wf(),
    ensures
        final(mem).wf(),
        final(io).wf(),
        final(io).input@ == old(io).input@,
        old(io).read <= final(io).read,
        match r {
            Ok(true) => exists|k: nat|
                k <= fuel && #[trigger] flat_run(k, ops@, 0, st_of(*old(mem), *old(io)))
                    == RunOut::Done(st_of(*final(mem), *final(io))),
            Ok(false) => flat_run(fuel as nat, ops@, 0, st_of(*old(mem), *old(io)))
                == RunOut::OutOfFuel,
            Err(re) => exists|k: nat|
                k <= fuel && run_failed(
                    #[trigger] flat_run(k, ops@, 0, st_of(*old(mem), *old(io))),
                    re,
                    st_of(*final(mem), *final(io)),
                ),
        },
{
    let ghost s0 = st_of(*mem, *io);
    let mut pc: usize = 0;
    let mut left: u64 = fuel;
    proof {
        lemma_advances_refl(ops@, 0, s0);
    }
    loop
        invariant
            ops_wf(ops@),
            mem.wf(),
            io.wf(),
            io.input@ == old(io).input@,
            old(io).read <= io.read,
            pc <= ops@.len(),
            left <= fuel,
            s0 == st_of(*old(mem), *old(io)),
            advances(ops@, 0, s0, (fuel - left) as nat, pc as int, st_of(*mem, *io)),
        decreases left,
    {
        let ghost s1 = st_of(*mem, *io);
        let ghost pci = pc as int;
        let ghost n = (fuel - left) as nat;
        if pc == ops.len() {
            proof {
                lemma_advances_out(ops@, 0, s0, n, pci, s1, 0);
                assert(flat_run((0 + n) as nat, ops@, 0, s0) == RunOut::Done(s1));
            }
            return Ok(true);
        }
        if left == 0 {
            proof {
                lemma_advances_out(ops@, 0, s0, n, pci, s1, 0);
                assert(flat_run(0, ops@, pci, s1) == RunOut::OutOfFuel);
                assert((0 + n) as nat == fuel as nat);
            }
            return Ok(false);
        }
        left = left - 1;
        let op = ops[pc];
        match op.kind {
            OpCode::Right => {
                match mem.shift_right() {
                    Ok(()) => {
                        proof {
                            let s2 = st_of(*mem, *io);
                            assert forall|f: nat|
                                #[trigger] flat_run((f + 1) as nat, ops@, pci, s1) == flat_run(
                                    f,
                                    ops@,
                                    pci + 1,
                                    s2,
                                ) by {
                                if s1.head + 1 == s1.mem.len() {
                                    assert(s2 == MState {
                                        mem: grown(s1.mem),
                                        head: s1.head + 1,
                                        ..s1
                                    });
                                } else {
                                    assert(s2 == MState { head: s1.head + 1, ..s1 });
                                }
                            }
                            lemma_advances_step(ops@, 0, s0, n, pci, s1, pci + 1, st_of(*mem, *io));
                        }
                        pc = pc + 1;
                    }
                    Err(e) => {
                        proof {
                            assert(flat_run(1, ops@, pci, s1) == RunOut::TapeFull(s1));
                            lemma_advances_out(ops@, 0, s0, n, pci, s1, 1);
                            assert(flat_run((1 + n) as nat, ops@, 0, s0) == RunOut::TapeFull(s1));
                        }
                        return Err(e);
                    }
                }
            }
            OpCode::Left => {
                match mem.shift_left() {
                    Ok(()) => {
                        proof {
                            let s2 = st_of(*mem, *io);
                            assert forall|f: nat|
                                #[trigger] flat_run((f + 1) as nat, ops@, pci, s1) == flat_run(
                                    f,
                                    ops@,
                                    pci + 1,
                                    s2,
                                ) by {
                                assert(s2 == MState { head: s1.head - 1, ..s1 });
                            }
                            lemma_advances_step(ops@, 0, s0, n, pci, s1, pci + 1, st_of(*mem, *io));
                        }
                        pc = pc + 1;
                    }
                    Err(e) => {
                        proof {
                            assert(flat_run(1, ops@, pci, s1) == RunOut::Underflow(s1));
                            lemma_advances_out(ops@, 0, s0, n, pci, s1, 1);
                            assert(flat_run((1 + n) as nat, ops@, 0, s0) == RunOut::Underflow(s1));
                        }
                        return Err(e);
                    }
                }
            }
            OpCode::Inc => {
                mem.inc();
                proof {
                    let s2 = st_of(*mem, *io);
                    assert forall|f: nat|
                        #[trigger] flat_run((f + 1) as nat, ops@, pci, s1) == flat_run(
                            f,
                            ops@,
                            pci + 1,
                            s2,
                        ) by {
                        assert(s2 == MState {
                            mem: s1.mem.update(s1.head, wrap_inc(s1.mem[s1.head])),
                            ..s1
                        });
                    }
                    lemma_advances_step(ops@, 0, s0, n, pci, s1, pci + 1, st_of(*mem, *io));
                }
                pc = pc + 1;
            }
            OpCode::Dec => {
                mem.dec();
                proof {
                    let s2 = st_of(*mem, *io);
                    assert forall|f: nat|
                        #[trigger] flat_run((f + 1) as nat, ops@, pci, s1) == flat_run(
                            f,
                            ops@,
                            pci + 1,
                            s2,
                        ) by {
                        assert(s2 == MState {
                            mem: s1.mem.update(s1.head, wrap_dec(s1.mem[s1.head])),
                            ..s1
                        });
                    }
                    lemma_advances_step(ops@, 0, s0, n, pci, s1, pci + 1, st_of(*mem, *io));
                }
                pc = pc + 1;
            }
            OpCode::Out => {
                let b = mem.read(mem.index);
                io.output.push(b);
                proof {
                    let s2 = st_of(*mem, *io);
                    assert forall|f: nat|
                        #[trigger] flat_run((f + 1) as nat, ops@, pci, s1) == flat_run(
                            f,
                            ops@,
                            pci + 1,
                            s2,
                        ) by {
                        assert(s2 == MState { output: s1.output.push(s1.mem[s1.head]), ..s1 });
                    }
                    lemma_advances_step(ops@, 0, s0, n, pci, s1, pci + 1, st_of(*mem, *io));
                }
                pc = pc + 1;
            }
            OpCode::In => {
                if io.read < io.input.len() {
                    let b = io.input[io.read];
                    mem.write(mem.index, b);
                    io.read = io.read + 1;
                    proof {
                        let s2 = st_of(*mem, *io);
                        assert(io.pending() =~= s1.input.drop_first());
                        assert forall|f: nat|
                            #[trigger] flat_run((f + 1) as nat, ops@, pci, s1) == flat_run(
                                f,
                                ops@,
                                pci + 1,
                                s2,
                            ) by {
                            assert(s2 == MState {
                                mem: s1.mem.update(s1.head, s1.input[0]),
                                input: s1.input.drop_first(),
                                ..s1
                            });
                        }
                        lemma_advances_step(ops@, 0, s0, n, pci, s1, pci + 1, st_of(*mem, *io));
                    }
                    pc = pc + 1;
                } else {
                    proof {
                        assert(s1.input.len() == 0);
                        assert(flat_run(1, ops@, pci, s1) == RunOut::NoInput(s1));
                        lemma_advances_out(ops@, 0, s0, n, pci, s1, 1);
                        assert(flat_run((1 + n) as nat, ops@, 0, s0) == RunOut::NoInput(s1));
                    }
                    return Err(RuntimeError::InputExhausted);
                }
            }
            OpCode::Note => {
                proof {
                    assert forall|f: nat|
                        #[trigger] flat_run((f + 1) as nat, ops@, pci, s1) == flat_run(
                            f,
                            ops@,
                            pci + 1,
                            s1,
                        ) by {}
                    lemma_advances_step(ops@, 0, s0, n, pci, s1, pci + 1, s1);
                }
                pc = pc + 1;
            }
            OpCode::Enter => {
                proof {
                    assert forall|f: nat|
                        #[trigger] flat_run((f + 1) as nat, ops@, pci, s1) == flat_run(
                            f,
                            ops@,
                            pci + 1,
                            s1,
                        ) by {}
                    lemma_advances_step(ops@, 0, s0, n, pci, s1, pci + 1, s1);
                }
                pc = pc + 1;
            }
            OpCode::Test(d) => {
                let b = mem.read(mem.index);
                if b == 0 {
                    proof {
                        assert(pci + d + 2 <= ops@.len());
                        assert forall|f: nat|
                            #[trigger] flat_run((f + 1) as nat, ops@, pci, s1) == flat_run(
                                f,
                                ops@,
                                pci + d + 2,
                                s1,
                            ) by {}
                        lemma_advances_step(ops@, 0, s0, n, pci, s1, pci + d + 2, s1);
                    }
                    pc = pc + d + 2;
                } else {
                    proof {
                        assert forall|f: nat|
                            #[trigger] flat_run((f + 1) as nat, ops@, pci, s1) == flat_run(
                                f,
                                ops@,
                                pci + 1,
                                s1,
                            ) by {}
                        lemma_advances_step(ops@, 0, s0, n, pci, s1, pci + 1, s1);
                    }
                    pc = pc + 1;
                }
            }
            OpCode::Back(d) => {
                proof {
                    assert(d + 1 <= pci);
                    assert forall|f: nat|
                        #[trigger] flat_run((f + 1) as nat, ops@, pci, s1) == flat_run(
                            f,
                            ops@,
                            pci - d - 1,
                            s1,
                        ) by {}
                    lemma_advances_step(ops@, 0, s0, n, pci, s1, pci - d - 1, s1);
                }
                pc = pc - d - 1;
            }
        }
    }
}

/// How running a whole source can fail: the source does not parse, the
/// program fails at run time, or it has not finished within the step
/// budget.
#[derive(Debug, PartialEq)]
pub enum InterpretError {
    Parse(ParseError),
    Runtime(RuntimeError),
    OutOfSteps,
}

/// Parses and runs a source program on a fresh tape against the given IO
/// buffer. On success the final tape is returned and what the machine determines
/// for the parsed program is `Done` at exactly the returned tape and buffer;
/// a runtime failure reports the machine's failure, with all output
/// produced before it preserved in the buffer.
pub fn interpret(input: &str, io: &mut IoBuffer) -> (r: Result<BrainfuckMemory, InterpretError>)
    requires
        input@.len() <= u32::MAX,
        old(io).wf(),
    ensures
        final(io).wf(),
        final(io).input@ == old(io).input@,
        match r {
            Ok(m) => exists|ts: Seq<Token>, k: nat|
                analyzer::group_matches(input@, 0, input@.len() as int, ts) && #[trigger] flat_run(
                    k,
                    ops_of_group(ts),
                    0,
                    fresh_st(*old(io)),
                ) == RunOut::Done(st_of(m, *final(io))),
            Err(InterpretError::Parse(e)) => analyzer::err_matches(
                e,
                analyzer::scan(input@, 0, 0, ScanMode::Code),
            ) && *final(io) == *old(io),
            Err(InterpretError::Runtime(re)) => exists|ts: Seq<Token>, k: nat, st: MState|
                analyzer::group_matches(input@, 0, input@.len() as int, ts) && #[trigger] run_failed(
                    flat_run(k, ops_of_group(ts), 0, fresh_st(*old(io))),
                    re,
                    st,
                ) && st.output == final(io).output@ && st.input == final(io).pending(),
            Err(InterpretError::OutOfSteps) => exists|ts: Seq<Token>|
                analyzer::group_matches(input@, 0, input@.len() as int, ts) && #[trigger] flat_run(
                    u64::MAX as nat,
                    ops_of_group(ts),
                    0,
                    fresh_st(*old(io)),
                ) == RunOut::OutOfFuel,
        },
{
    let pr = match analyzer::parse(input) {
        Ok(pr) => pr,
        Err(e) => {
            return Err(InterpretError::Parse(e));
        }
    };
    let ops = lower_group(&pr.parse_token_group);
    let n = ops.len();
    proof {
        lemma_ops_of_group_wf(pr.parse_token_group.token_group@);
    }
    let mut memory = BrainfuckMemory::new();
    proof {
        assert(st_of(memory, *io) == fresh_st(*old(io)));
    }
    match run_ops(&ops, &mut memory, io, u64::MAX) {
        Ok(true) => Ok(memory),
        Ok(false) => Err(InterpretError::OutOfSteps),
        Err(re) => Err(InterpretError::Runtime(re)),
    }
}

} // verus!
