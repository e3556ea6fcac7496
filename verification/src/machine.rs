//! The abstract machine every execution engine of this crate runs on.
//!
//! A token tree is lowered to a flat sequence of operations with relative
//! jumps (`lower_group`); `flat_run` is the fuel-indexed mathematical
//! machine giving the meaning of such a program. The interpreter, the
//! auto-JIT dispatcher, the lowered-code runner and the debug interpreter
//! are all proved against `flat_run`, which is what makes them
//! interchangeable.

use vstd::prelude::*;

use crate::analyzer::{Range, Token, TokenGroup, TokenType};

verus! {

/// One machine operation. A loop whose body lowers to `d` operations
/// becomes `Enter`, `Test(d)`, the body, `Back(d)`: `Test(d)` falls through
/// on a non-zero cell and jumps just past the `Back` (forward by `d + 2`)
/// otherwise, and `Back(d)` jumps back to its `Test` (back by `d + 1`).
/// `Enter` marks the loop entry and `Note` a comment; both only matter to
/// the debugger's scheduler.
#[derive(Debug, Eq, PartialEq, Structural, Copy, Clone)]
pub enum OpCode {
    Right,
    Left,
    Inc,
    Dec,
    Out,
    In,
    Note,
    Enter,
    Test(usize),
    Back(usize),
}

/// An operation together with the source range of the token it came from.
#[derive(Debug, Eq, PartialEq, Structural, Copy, Clone)]
pub struct Op {
    pub kind: OpCode,
    pub range: Range,
}

/// The operations one token lowers to.
pub open spec fn ops_of_token(t: Token) -> Seq<Op>
    decreases t,
{
    match t.token_type {
        TokenType::PointerIncrement => seq![Op { kind: OpCode::Right, range: t.range }],
        TokenType::PointerDecrement => seq![Op { kind: OpCode::Left, range: t.range }],
        TokenType::Increment => seq![Op { kind: OpCode::Inc, range: t.range }],
        TokenType::Decrement => seq![Op { kind: OpCode::Dec, range: t.range }],
        TokenType::Output => seq![Op { kind: OpCode::Out, range: t.range }],
        TokenType::Input => seq![Op { kind: OpCode::In, range: t.range }],
        TokenType::SubGroup(sg) => {
            let body = ops_of_group(sg.token_group@);
            seq![
                Op { kind: OpCode::Enter, range: t.range },
                Op { kind: OpCode::Test(body.len() as usize), range: t.range },
            ] + body + seq![Op { kind: OpCode::Back(body.len() as usize), range: t.range }]
        }
        _ => seq![Op { kind: OpCode::Note, range: t.range }],
    }
}

/// The operations a token sequence lowers to, in order.
pub open spec fn ops_of_group(ts: Seq<Token>) -> Seq<Op>
    decreases ts,
{
    if ts.len() == 0 {
        Seq::empty()
    } else {
        ops_of_token(ts[0]) + ops_of_group(ts.drop_first())
    }
}

/// Jumps stay inside the program: a forward jump never passes the end and a
/// backward jump never passes the start.
pub open spec fn ops_wf(ops: Seq<Op>) -> bool {
    forall|i: int| 0 <= i < ops.len() ==> match (#[trigger] ops[i]).kind {
        OpCode::Test(d) => i + d + 2 <= ops.len(),
        OpCode::Back(d) => d + 1 <= i,
        _ => true,
    }
}

/// The state of a run: the tape, the head, the input not yet read, and the
/// output produced so far.
pub ghost struct MState {
    pub mem: Seq<u8>,
    pub head: int,
    pub input: Seq<u8>,
    pub output: Seq<u8>,
}

/// How a run can end: normally past the last operation; stopped by a
/// runtime failure (head moved left of the tape, input exhausted, or a tape
/// grown to the address space's end); or undetermined for want of fuel.
pub ghost enum RunOut {
    Done(MState),
    Underflow(MState),
    NoInput(MState),
    TapeFull(MState),
    OutOfFuel,
}

/// Byte increment, wrapping at the top.
pub open spec fn wrap_inc(v: u8) -> u8 {
    if v == 255 {
        0
    } else {
        (v + 1) as u8
    }
}

/// Byte decrement, wrapping at the bottom.
pub open spec fn wrap_dec(v: u8) -> u8 {
    if v == 0 {
        255
    } else {
        (v - 1) as u8
    }
}

/// The zero-filled extension appended when the tape grows: the tape
/// doubles, saturating at the address space's end.
pub open spec fn grown(mem: Seq<u8>) -> Seq<u8> {
    if mem.len() <= usize::MAX / 2 {
        mem + Seq::new(mem.len(), |i: int| 0u8)
    } else {
        mem + Seq::new((usize::MAX - mem.len()) as nat, |i: int| 0u8)
    }
}

/// The machine, running `fuel` steps at most: the meaning of a lowered
/// program from `pc` in state `s`.
pub open spec fn flat_run(fuel: nat, ops: Seq<Op>, pc: int, s: MState) -> RunOut
    decreases fuel,
{
    if pc == ops.len() {
        RunOut::Done(s)
    } else if pc < 0 || pc > ops.len() {
        RunOut::OutOfFuel
    } else if fuel == 0 {
        RunOut::OutOfFuel
    } else {
        let f = (fuel - 1) as nat;
        match ops[pc].kind {
            OpCode::Right => {
                if s.head + 1 == s.mem.len() {
                    if s.mem.len() == usize::MAX {
                        RunOut::TapeFull(s)
                    } else {
                        flat_run(f, ops, pc + 1, MState { mem: grown(s.mem), head: s.head + 1, ..s })
                    }
                } else {
                    flat_run(f, ops, pc + 1, MState { head: s.head + 1, ..s })
                }
            }
            OpCode::Left => {
                if s.head == 0 {
                    RunOut::Underflow(s)
                } else {
                    flat_run(f, ops, pc + 1, MState { head: s.head - 1, ..s })
                }
            }
            OpCode::Inc => flat_run(
                f,
                ops,
                pc + 1,
                MState { mem: s.mem.update(s.head, wrap_inc(s.mem[s.head])), ..s },
            ),
            OpCode::Dec => flat_run(
                f,
                ops,
                pc + 1,
                MState { mem: s.mem.update(s.head, wrap_dec(s.mem[s.head])), ..s },
            ),
            OpCode::Out => flat_run(
                f,
                ops,
                pc + 1,
                MState { output: s.output.push(s.mem[s.head]), ..s },
            ),
            OpCode::In => {
                if s.input.len() == 0 {
                    RunOut::NoInput(s)
                } else {
                    flat_run(
                        f,
                        ops,
                        pc + 1,
                        MState {
                            mem: s.mem.update(s.head, s.input[0]),
                            input: s.input.drop_first(),
                            ..s
                        },
                    )
                }
            }
            OpCode::Note => flat_run(f, ops, pc + 1, s),
            OpCode::Enter => flat_run(f, ops, pc + 1, s),
            OpCode::Test(d) => {
                if s.mem[s.head] == 0 {
                    flat_run(f, ops, pc + d + 2, s)
                } else {
                    flat_run(f, ops, pc + 1, s)
                }
            }
            OpCode::Back(d) => flat_run(f, ops, pc - d - 1, s),
        }
    }
}

/// More fuel never changes a determined outcome.
pub proof fn lemma_flat_run_mono(fuel1: nat, fuel2: nat, ops: Seq<Op>, pc: int, s: MState)
    requires
        fuel1 <= fuel2,
        flat_run(fuel1, ops, pc, s) != RunOut::OutOfFuel,
    ensures
        flat_run(fuel2, ops, pc, s) == flat_run(fuel1, ops, pc, s),
    decreases fuel1,
{
    if pc == ops.len() {
    } else if pc < 0 || pc > ops.len() {
    } else if fuel1 == 0 {
    } else {
        let f1 = (fuel1 - 1) as nat;
        let f2 = (fuel2 - 1) as nat;
        match ops[pc].kind {
            OpCode::Right => {
                if s.head + 1 == s.mem.len() {
                    if s.mem.len() != usize::MAX {
                        lemma_flat_run_mono(f1, f2, ops, pc + 1, MState { mem: grown(s.mem), head: s.head + 1, ..s });
                    }
                } else {
                    lemma_flat_run_mono(f1, f2, ops, pc + 1, MState { head: s.head + 1, ..s });
                }
            }
            OpCode::Left => {
                if s.head != 0 {
                    lemma_flat_run_mono(f1, f2, ops, pc + 1, MState { head: s.head - 1, ..s });
                }
            }
            OpCode::Inc => {
                lemma_flat_run_mono(f1, f2, ops, pc + 1, MState { mem: s.mem.update(s.head, wrap_inc(s.mem[s.head])), ..s });
            }
            OpCode::Dec => {
                lemma_flat_run_mono(f1, f2, ops, pc + 1, MState { mem: s.mem.update(s.head, wrap_dec(s.mem[s.head])), ..s });
            }
            OpCode::Out => {
                lemma_flat_run_mono(f1, f2, ops, pc + 1, MState { output: s.output.push(s.mem[s.head]), ..s });
            }
            OpCode::In => {
                if s.input.len() != 0 {
                    lemma_flat_run_mono(f1, f2, ops, pc + 1, MState { mem: s.mem.update(s.head, s.input[0]), input: s.input.drop_first(), ..s });
                }
            }
            OpCode::Note => {
                lemma_flat_run_mono(f1, f2, ops, pc + 1, s);
            }
            OpCode::Enter => {
                lemma_flat_run_mono(f1, f2, ops, pc + 1, s);
            }
            OpCode::Test(d) => {
                if s.mem[s.head] == 0 {
                    lemma_flat_run_mono(f1, f2, ops, pc + d + 2, s);
                } else {
                    lemma_flat_run_mono(f1, f2, ops, pc + 1, s);
                }
            }
            OpCode::Back(d) => {
                lemma_flat_run_mono(f1, f2, ops, pc - d - 1, s);
            }
        }
    }
}

/// Two runs of the same program from the same state that both end have
/// ended alike: the machine is deterministic.
pub proof fn lemma_flat_run_deterministic(
    fuel1: nat,
    fuel2: nat,
    ops: Seq<Op>,
    pc: int,
    s: MState,
)
    requires
        flat_run(fuel1, ops, pc, s) != RunOut::OutOfFuel,
        flat_run(fuel2, ops, pc, s) != RunOut::OutOfFuel,
    ensures
        flat_run(fuel1, ops, pc, s) == flat_run(fuel2, ops, pc, s),
{
    if fuel1 <= fuel2 {
        lemma_flat_run_mono(fuel1, fuel2, ops, pc, s);
    } else {
        lemma_flat_run_mono(fuel2, fuel1, ops, pc, s);
    }
}

/// From `(pc0, s0)` the machine arrives at `(pc1, s1)` in exactly `n`
/// steps: the executors' loop invariant.
pub open spec fn advances(ops: Seq<Op>, pc0: int, s0: MState, n: nat, pc1: int, s1: MState) -> bool {
    forall|m: nat| #[trigger] flat_run((m + n) as nat, ops, pc0, s0) == flat_run(m, ops, pc1, s1)
}

pub proof fn lemma_advances_refl(ops: Seq<Op>, pc: int, s: MState)
    ensures
        advances(ops, pc, s, 0, pc, s),
{
    assert forall|m: nat| #[trigger] flat_run((m + 0) as nat, ops, pc, s) == flat_run(m, ops, pc, s)
        by {
        assert((m + 0) as nat == m);
    }
}

/// One machine step, stated over fuel: from `(pc1, s1)` the machine moves
/// in one step to `(pc2, s2)`.
pub open spec fn step_to(ops: Seq<Op>, pc1: int, s1: MState, pc2: int, s2: MState) -> bool {
    forall|f: nat| #[trigger] flat_run((f + 1) as nat, ops, pc1, s1) == flat_run(f, ops, pc2, s2)
}

/// `advances` extends along a machine step.
pub proof fn lemma_advances_step(
    ops: Seq<Op>,
    pc0: int,
    s0: MState,
    n: nat,
    pc1: int,
    s1: MState,
    pc2: int,
    s2: MState,
)
    requires
        advances(ops, pc0, s0, n, pc1, s1),
        step_to(ops, pc1, s1, pc2, s2),
    ensures
        advances(ops, pc0, s0, (n + 1) as nat, pc2, s2),
{
    assert forall|m: nat|
        #[trigger] flat_run((m + (n + 1)) as nat, ops, pc0, s0) == flat_run(m, ops, pc2, s2) by {
        assert(flat_run(((m + 1) + n) as nat, ops, pc0, s0) == flat_run((m + 1) as nat, ops, pc1, s1));
        assert(flat_run((m + 1) as nat, ops, pc1, s1) == flat_run(m, ops, pc2, s2));
        assert((m + (n + 1)) as nat == ((m + 1) + n) as nat);
    }
}

/// The outcome visible at `(pc1, s1)` with `m` fuel is the origin's outcome
/// with `m + n` fuel.
pub proof fn lemma_advances_out(
    ops: Seq<Op>,
    pc0: int,
    s0: MState,
    n: nat,
    pc1: int,
    s1: MState,
    m: nat,
)
    requires
        advances(ops, pc0, s0, n, pc1, s1),
    ensures
        flat_run((m + n) as nat, ops, pc0, s0) == flat_run(m, ops, pc1, s1),
{
}

/// Any two runs of the same program from the same state that complete have
/// the identical final tape, head, input and output. Every execution
/// engine of this crate ensures its result is such a completed run of the
/// lowered program, so the tree-walking interpreter, the auto-JIT
/// dispatcher and the lowered-code runner all agree on every source.
pub proof fn lemma_engines_agree(ops: Seq<Op>, s: MState, k1: nat, k2: nat, r1: MState, r2: MState)
    requires
        flat_run(k1, ops, 0, s) == RunOut::Done(r1),
        flat_run(k2, ops, 0, s) == RunOut::Done(r2),
    ensures
        r1 == r2,
{
    lemma_flat_run_deterministic(k1, k2, ops, 0, s);
}

/// The cell value after `n` increments.
pub open spec fn inc_n(n: nat, v: u8) -> u8
    decreases n,
{
    if n == 0 {
        v
    } else {
        wrap_inc(inc_n((n - 1) as nat, v))
    }
}

/// The cell value after `n` decrements.
pub open spec fn dec_n(n: nat, v: u8) -> u8
    decreases n,
{
    if n == 0 {
        v
    } else {
        wrap_dec(dec_n((n - 1) as nat, v))
    }
}

/// Increments add modulo 256.
pub proof fn lemma_inc_n_mod(n: nat, v: u8)
    ensures
        inc_n(n, v) == ((v + n) % 256) as u8,
    decreases n,
{
    if n > 0 {
        lemma_inc_n_mod((n - 1) as nat, v);
    }
}

/// Decrements subtract modulo 256.
pub proof fn lemma_dec_n_mod(n: nat, v: u8)
    ensures
        dec_n(n, v) == ((v + 256 * n - n) % 256) as u8,
    decreases n,
{
    if n > 0 {
        lemma_dec_n_mod((n - 1) as nat, v);
        assert((v + 256 * n - n) % 256 == ((v + 256 * (n - 1) - (n - 1)) % 256 + 255) % 256)
            by (nonlinear_arith);
    }
}

/// No token begins with `]`.
proof fn lemma_token_head_not_close(s: Seq<char>, p: int, k: int, t: Token)
    requires
        crate::analyzer::token_at(s, p, k, t),
    ensures
        s[p] != ']',
{
    match t.token_type {
        TokenType::Comment(text) => {
            assert(s.subrange(p, k)[0] == s[p]);
        }
        _ => {}
    }
}

/// Any two tokens starting at the same offset span the same region:
/// lexemes span one character, comment extents are pinned to the first
/// terminator or closer, and a loop's extent is its matching bracket.
proof fn lemma_token_extent_unique(s: Seq<char>, i: int, k1: int, k2: int, t1: Token, t2: Token)
    requires
        crate::analyzer::token_at(s, i, k1, t1),
        crate::analyzer::token_at(s, i, k2, t2),
    ensures
        k1 == k2,
        t1.range == t2.range,
        ops_of_token(t1) == ops_of_token(t2),
    decreases (if k1 > k2 { k1 } else { k2 }) - i, 0int,
{
    match (t1.token_type, t2.token_type) {
        (TokenType::SubGroup(sg1), TokenType::SubGroup(sg2)) => {
            if k1 <= k2 {
                lemma_region_close_ends(
                    s,
                    i + 1,
                    k1 - 1,
                    k2 - 1,
                    sg1.token_group@,
                    sg2.token_group@,
                );
            } else {
                lemma_region_close_ends(
                    s,
                    i + 1,
                    k2 - 1,
                    k1 - 1,
                    sg2.token_group@,
                    sg1.token_group@,
                );
            }
            lemma_tilings_lower_alike(s, i + 1, k1 - 1, sg1.token_group@, sg2.token_group@);
        }
        (TokenType::Comment(x1), TokenType::Comment(x2)) => {
            crate::analyzer::lemma_comment_extent_unique(s, i, k1, k2);
        }
        (TokenType::Comment(x1), _) => {
            assert(s.subrange(i, k1)[0] == s[i]);
        }
        (_, TokenType::Comment(x2)) => {
            assert(s.subrange(i, k2)[0] == s[i]);
        }
        _ => {
            assert(t1 == t2);
        }
    }
}

/// Two tilings from the same start whose regions both end at a `]` end at
/// the same offset: were one region shorter, the longer tiling would need
/// a token headed by the shorter one's closing bracket.
proof fn lemma_region_close_ends(
    s: Seq<char>,
    i: int,
    j1: int,
    j2: int,
    ts1: Seq<Token>,
    ts2: Seq<Token>,
)
    requires
        crate::analyzer::group_matches(s, i, j1, ts1),
        crate::analyzer::group_matches(s, i, j2, ts2),
        i <= j1 <= j2 <= s.len(),
        j1 < j2 ==> s[j1] == ']',
    ensures
        j1 == j2,
    decreases j2 - i, 1int,
{
    if j1 < j2 {
        if i == j1 {
            let k2 = crate::analyzer::off_of(s, ts2[0].range.end);
            lemma_token_head_not_close(s, i, k2, ts2[0]);
        } else if crate::analyzer::is_ws(s[i]) {
            lemma_region_close_ends(s, i + 1, j1, j2, ts1, ts2);
        } else {
            let k1 = crate::analyzer::off_of(s, ts1[0].range.end);
            let k2 = crate::analyzer::off_of(s, ts2[0].range.end);
            lemma_token_extent_unique(s, i, k1, k2, ts1[0], ts2[0]);
            lemma_region_close_ends(s, k1, j1, j2, ts1.drop_first(), ts2.drop_first());
        }
    }
}

/// Any two tilings of the same source region lower to the same machine
/// program: the grammar determines the program, so every engine of this
/// crate runs a given source on one and the same program.
pub proof fn lemma_tilings_lower_alike(s: Seq<char>, i: int, j: int, ts1: Seq<Token>, ts2: Seq<Token>)
    requires
        crate::analyzer::group_matches(s, i, j, ts1),
        crate::analyzer::group_matches(s, i, j, ts2),
    ensures
        ops_of_group(ts1) == ops_of_group(ts2),
    decreases j - i, 2int,
{
    if i >= j {
        assert(ops_of_group(ts1) =~= ops_of_group(ts2));
    } else if crate::analyzer::is_ws(s[i]) {
        lemma_tilings_lower_alike(s, i + 1, j, ts1, ts2);
    } else {
        let k1 = crate::analyzer::off_of(s, ts1[0].range.end);
        let k2 = crate::analyzer::off_of(s, ts2[0].range.end);
        lemma_token_extent_unique(s, i, k1, k2, ts1[0], ts2[0]);
        lemma_tilings_lower_alike(s, k1, j, ts1.drop_first(), ts2.drop_first());
        assert(ops_of_group(ts1) == ops_of_token(ts1[0]) + ops_of_group(ts1.drop_first()));
        assert(ops_of_group(ts2) == ops_of_token(ts2[0]) + ops_of_group(ts2.drop_first()));
    }
}

/// A source determines its runs: whatever tilings two completed engine
/// runs of the same source rest on, the runs end with the identical tape,
/// head, input and output. With the engines' own contracts this makes the
/// interpreter, the lowered-code runner and the auto-JIT dispatcher
/// interchangeable on every source.
pub proof fn lemma_source_determines_run(
    s: Seq<char>,
    st: MState,
    ts1: Seq<Token>,
    ts2: Seq<Token>,
    k1: nat,
    k2: nat,
    r1: MState,
    r2: MState,
)
    requires
        crate::analyzer::group_matches(s, 0, s.len() as int, ts1),
        crate::analyzer::group_matches(s, 0, s.len() as int, ts2),
        flat_run(k1, ops_of_group(ts1), 0, st) == RunOut::Done(r1),
        flat_run(k2, ops_of_group(ts2), 0, st) == RunOut::Done(r2),
    ensures
        r1 == r2,
{
    lemma_tilings_lower_alike(s, 0, s.len() as int, ts1, ts2);
    lemma_engines_agree(ops_of_group(ts1), st, k1, k2, r1, r2);
}

/// Tape growth is safe: as long as the tape has not reached the address
/// space's end, growing strictly lengthens it — so a head pushed past the
/// old end still rests on a cell — and every new cell reads zero.
pub proof fn lemma_tape_growth(mem: Seq<u8>)
    requires
        mem.len() >= 1,
        mem.len() < usize::MAX,
    ensures
        grown(mem).len() > mem.len(),
        grown(mem).subrange(0, mem.len() as int) == mem,
        forall|i: int| mem.len() <= i < grown(mem).len() ==> grown(mem)[i] == 0,
{
    assert(grown(mem).subrange(0, mem.len() as int) =~= mem);
}

/// Cell arithmetic wraps: 256 consecutive increments leave a cell as it
/// was, and so do 256 consecutive decrements.
pub proof fn lemma_arith_wrap(v: u8)
    ensures
        inc_n(256, v) == v,
        dec_n(256, v) == v,
{
    lemma_inc_n_mod(256, v);
    lemma_dec_n_mod(256, v);
    assert((v + 256) % 256 == v) by (nonlinear_arith);
    assert((v + 256 * 256 - 256) % 256 == v) by (nonlinear_arith);
}

// ---------------------------------------------------------------------------
// Well-formedness of lowered programs
// ---------------------------------------------------------------------------

/// Concatenation preserves well-formedness: relative jumps stay within
/// their own segment.
proof fn lemma_ops_wf_concat(a: Seq<Op>, b: Seq<Op>)
    requires
        ops_wf(a),
        ops_wf(b),
    ensures
        ops_wf(a + b),
{
    assert forall|i: int| 0 <= i < (a + b).len() implies match (#[trigger] (a + b)[i]).kind {
        OpCode::Test(d) => i + d + 2 <= (a + b).len(),
        OpCode::Back(d) => d + 1 <= i,
        _ => true,
    } by {
        if i < a.len() {
            assert((a + b)[i] == a[i]);
        } else {
            assert((a + b)[i] == b[i - a.len()]);
        }
    }
}

/// Lowering one token yields a well-formed segment.
pub proof fn lemma_ops_of_token_wf(t: Token)
    requires
        ops_of_token(t).len() <= usize::MAX,
    ensures
        ops_wf(ops_of_token(t)),
        ops_of_token(t).len() >= 1,
    decreases t,
{
    match t.token_type {
        TokenType::SubGroup(sg) => {
            let body = ops_of_group(sg.token_group@);
            lemma_ops_of_group_wf(sg.token_group@);
            let ops = ops_of_token(t);
            assert forall|i: int| 0 <= i < ops.len() implies match (#[trigger] ops[i]).kind {
                OpCode::Test(d) => i + d + 2 <= ops.len(),
                OpCode::Back(d) => d + 1 <= i,
                _ => true,
            } by {
                if 2 <= i < 2 + body.len() {
                    assert(ops[i] == body[i - 2]);
                }
            }
        }
        _ => {}
    }
}

/// Lowering a token sequence yields a well-formed program.
pub proof fn lemma_ops_of_group_wf(ts: Seq<Token>)
    requires
        ops_of_group(ts).len() <= usize::MAX,
    ensures
        ops_wf(ops_of_group(ts)),
    decreases ts,
{
    if ts.len() > 0 {
        lemma_ops_of_token_wf(ts[0]);
        lemma_ops_of_group_wf(ts.drop_first());
        lemma_ops_wf_concat(ops_of_token(ts[0]), ops_of_group(ts.drop_first()));
    }
}

/// Lowering distributes over appending one token at the end.
proof fn lemma_ops_of_group_snoc(ts: Seq<Token>, t: Token)
    ensures
        ops_of_group(ts.push(t)) == ops_of_group(ts) + ops_of_token(t),
    decreases ts,
{
    if ts.len() == 0 {
        assert(ts.push(t)[0] == t);
        assert(ts.push(t).drop_first() =~= Seq::<Token>::empty());
        assert(ops_of_group(Seq::<Token>::empty()) =~= Seq::<Op>::empty());
        assert(ops_of_group(ts.push(t)) == ops_of_token(t) + Seq::<Op>::empty());
        assert(ops_of_token(t) + Seq::<Op>::empty() =~= ops_of_token(t));
        assert(ts =~= Seq::<Token>::empty());
        assert(ops_of_group(ts) + ops_of_token(t) =~= ops_of_token(t));
    } else {
        assert(ts.push(t)[0] == ts[0]);
        assert(ts.push(t).drop_first() =~= ts.drop_first().push(t));
        lemma_ops_of_group_snoc(ts.drop_first(), t);
        assert(ops_of_group(ts.push(t)) == ops_of_token(ts[0]) + (ops_of_group(ts.drop_first())
            + ops_of_token(t)));
        assert(ops_of_token(ts[0]) + (ops_of_group(ts.drop_first()) + ops_of_token(t)) =~= (
        ops_of_token(ts[0]) + ops_of_group(ts.drop_first())) + ops_of_token(t));
    }
}

// ---------------------------------------------------------------------------
// Lowering, executably
// ---------------------------------------------------------------------------

/// Lowers one token to its machine operations.
fn lower_token(t: &Token) -> (r: Vec<Op>)
    ensures
        r@ == ops_of_token(*t),
    decreases *t,
{
    match &t.token_type {
        TokenType::SubGroup(sg) => {
            let mut body = lower_group(sg);
            let n = body.len();
            let mut out: Vec<Op> = Vec::new();
            out.push(Op { kind: OpCode::Enter, range: t.range });
            out.push(Op { kind: OpCode::Test(n), range: t.range });
            out.append(&mut body);
            out.push(Op { kind: OpCode::Back(n), range: t.range });
            proof {
                assert(out@ =~= ops_of_token(*t));
            }
            out
        }
        _ => {
            let kind = match &t.token_type {
                TokenType::PointerIncrement => OpCode::Right,
                TokenType::PointerDecrement => OpCode::Left,
                TokenType::Increment => OpCode::Inc,
                TokenType::Decrement => OpCode::Dec,
                TokenType::Output => OpCode::Out,
                TokenType::Input => OpCode::In,
                _ => OpCode::Note,
            };
            let mut out: Vec<Op> = Vec::new();
            out.push(Op { kind, range: t.range });
            proof {
                assert(out@ =~= ops_of_token(*t));
            }
            out
        }
    }
}

/// Lowers a token group to the flat machine program it means.
pub fn lower_group(tg: &TokenGroup) -> (r: Vec<Op>)
    ensures
        r@ == ops_of_group(tg.token_group@),
    decreases *tg,
{
    let ghost ts = tg.token_group@;
    let mut out: Vec<Op> = Vec::new();
    let n = tg.token_group.len();
    let mut i: usize = 0;
    while i < n
        invariant
            n == tg.token_group@.len(),
            ts == tg.token_group@,
            i <= n,
            out@ == ops_of_group(ts.take(i as int)),
        decreases n - i,
    {
        proof {
            assert(decreases_to!(*tg => tg.token_group));
            assert(decreases_to!(tg.token_group => tg.token_group@));
            assert(decreases_to!(tg.token_group@ => tg.token_group@[i as int]));
        }
        let mut seg = lower_token(&tg.token_group[i]);
        out.append(&mut seg);
        proof {
            assert(ts.take(i + 1) =~= ts.take(i as int).push(ts[i as int]));
            lemma_ops_of_group_snoc(ts.take(i as int), ts[i as int]);
        }
        i = i + 1;
    }
    proof {
        assert(ts.take(n as int) =~= ts);
    }
    out
}

} // verus!
