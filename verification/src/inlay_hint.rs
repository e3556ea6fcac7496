//! Inlay hints: short labels summarising runs of tokens — net pointer
//! movement, net cell change, and whether the run did I/O.
//!
//! The walk over the token list is a small state machine with counters; it
//! is specified by `hints_from` and the public entry points are proved to
//! return exactly those hints.

use vstd::prelude::*;

use crate::analyzer::{
    self, group_matches, ParseError, Position, ScanMode, Token, TokenGroup, TokenType,
};
use crate::formatter::TokenState;

verus! {

/// One inlay hint: where it is shown and what it says.
#[derive(Debug, PartialEq)]
pub struct InlayHint {
    pub position: Position,
    pub label: String,
}

/// The counters of the current run.
#[derive(Debug, Eq, PartialEq, Structural, Copy, Clone)]
pub struct Counts {
    pub pointer_increment_count: i32,
    pub pointer_decrement_count: i32,
    pub increment_count: i32,
    pub decrement_count: i32,
    pub output_count: i32,
    pub input_count: i32,
}

/// All counters start at zero.
pub open spec fn zero_counts() -> Counts {
    Counts {
        pointer_increment_count: 0,
        pointer_decrement_count: 0,
        increment_count: 0,
        decrement_count: 0,
        output_count: 0,
        input_count: 0,
    }
}

/// Counters never go negative.
pub open spec fn counts_ok(c: Counts) -> bool {
    &&& c.pointer_increment_count >= 0
    &&& c.pointer_decrement_count >= 0
    &&& c.increment_count >= 0
    &&& c.decrement_count >= 0
    &&& c.output_count >= 0
    &&& c.input_count >= 0
}

/// A counter bumped by one, held at the top of its range.
pub open spec fn bump_count(x: i32) -> i32 {
    if x < i32::MAX {
        (x + 1) as i32
    } else {
        x
    }
}

/// The decimal digit characters.
pub open spec fn digit(d: nat) -> char {
    if d == 0 {
        '0'
    } else if d == 1 {
        '1'
    } else if d == 2 {
        '2'
    } else if d == 3 {
        '3'
    } else if d == 4 {
        '4'
    } else if d == 5 {
        '5'
    } else if d == 6 {
        '6'
    } else if d == 7 {
        '7'
    } else if d == 8 {
        '8'
    } else {
        '9'
    }
}

/// A number written in decimal.
pub open spec fn dec_str(n: nat) -> Seq<char>
    decreases n,
{
    if n < 10 {
        seq![digit(n)]
    } else {
        dec_str(n / 10) + seq![digit(n % 10)]
    }
}

/// The label of a run: net pointer movement, net cell change, and whether
/// the run wrote or read.
pub open spec fn count_label(c: Counts) -> Seq<char> {
    (if c.pointer_increment_count - c.pointer_decrement_count > 0 {
        seq!['>'] + dec_str((c.pointer_increment_count - c.pointer_decrement_count) as nat)
            + seq![' ']
    } else if c.pointer_increment_count - c.pointer_decrement_count < 0 {
        seq!['<'] + dec_str((c.pointer_decrement_count - c.pointer_increment_count) as nat)
            + seq![' ']
    } else {
        Seq::empty()
    }) + (if c.increment_count - c.decrement_count > 0 {
        seq!['+'] + dec_str((c.increment_count - c.decrement_count) as nat) + seq![' ']
    } else if c.increment_count - c.decrement_count < 0 {
        seq!['-'] + dec_str((c.decrement_count - c.increment_count) as nat) + seq![' ']
    } else {
        Seq::empty()
    }) + (if c.output_count > 0 {
        "output"@
    } else {
        Seq::empty()
    }) + (if c.input_count > 0 {
        "input"@
    } else {
        Seq::empty()
    })
}

/// The counters after counting one token of the six counted kinds.
pub open spec fn counted(c: Counts, t: TokenType) -> Counts {
    match t {
        TokenType::PointerIncrement => Counts {
            pointer_increment_count: bump_count(c.pointer_increment_count),
            ..c
        },
        TokenType::PointerDecrement => Counts {
            pointer_decrement_count: bump_count(c.pointer_decrement_count),
            ..c
        },
        TokenType::Increment => Counts { increment_count: bump_count(c.increment_count), ..c },
        TokenType::Decrement => Counts { decrement_count: bump_count(c.decrement_count), ..c },
        TokenType::Output => Counts { output_count: bump_count(c.output_count), ..c },
        TokenType::Input => Counts { input_count: bump_count(c.input_count), ..c },
        _ => c,
    }
}

/// Whether arriving at this token in this run state flushes the run into a
/// hint before the token is counted.
pub open spec fn flushes(st: TokenState, t: TokenType) -> bool {
    match t {
        TokenType::PointerIncrement | TokenType::PointerDecrement => match st {
            TokenState::Change | TokenState::IO => true,
            _ => false,
        },
        TokenType::Increment | TokenType::Decrement => match st {
            TokenState::IO => true,
            _ => false,
        },
        TokenType::Output | TokenType::Input => match st {
            TokenState::IO => true,
            _ => false,
        },
        TokenType::SubGroup(_) => true,
        _ => false,
    }
}

/// The run state after a token, for the hint walk.
pub open spec fn hint_next_state(st: TokenState, t: TokenType) -> TokenState {
    match t {
        TokenType::PointerIncrement | TokenType::PointerDecrement => TokenState::Move,
        TokenType::Increment | TokenType::Decrement => TokenState::Change,
        TokenType::Output | TokenType::Input => TokenState::IO,
        TokenType::SubGroup(_) => TokenState::Default,
        _ => st,
    }
}

/// The hints of the tokens of `ts` from index `i`: run state `st`, current
/// counters `c`, and the end position of the previous token (where a flush
/// places its hint). A pending run is flushed at the end of the list. A
/// loop flushes the run and contributes its own hints, walked afresh —
/// except when it arrives with no run open, where only the (empty) flush
/// hint is shown.
pub open spec fn hints_from(
    ts: Seq<Token>,
    i: int,
    st: TokenState,
    c: Counts,
    prev_end: Position,
) -> Seq<(Position, Seq<char>)>
    decreases ts, ts.len() - i, 0int,
{
    if i < 0 || i >= ts.len() {
        if (st matches TokenState::Default) {
            Seq::empty()
        } else {
            seq![(prev_end, count_label(c))]
        }
    } else {
        let t = ts[i];
        let emitted: Seq<(Position, Seq<char>)> = if flushes(st, t.token_type) {
            seq![(prev_end, count_label(c))] + (match t.token_type {
                TokenType::SubGroup(sg) => if (st matches TokenState::Default) {
                    Seq::empty()
                } else {
                    hints_from(
                        sg.token_group@,
                        0,
                        TokenState::Default,
                        zero_counts(),
                        Position { line: 0, character: 0 },
                    )
                },
                _ => Seq::empty(),
            })
        } else {
            Seq::empty()
        };
        let c2 = if flushes(st, t.token_type) && !(t.token_type matches TokenType::SubGroup(_)) {
            counted(zero_counts(), t.token_type)
        } else if flushes(st, t.token_type) {
            zero_counts()
        } else {
            counted(c, t.token_type)
        };
        emitted + hints_from(ts, i + 1, hint_next_state(st, t.token_type), c2, t.range.end)
    }
}

/// Writes `d` as its digit character.
fn digit_char(d: u32) -> (c: char)
    requires
        d < 10,
    ensures
        c == digit(d as nat),
{
    match d {
        0 => '0',
        1 => '1',
        2 => '2',
        3 => '3',
        4 => '4',
        5 => '5',
        6 => '6',
        7 => '7',
        8 => '8',
        _ => '9',
    }
}

/// Appends `n` in decimal.
fn push_dec(n: u32, out: &mut Vec<char>)
    ensures
        final(out)@ == old(out)@ + dec_str(n as nat),
    decreases n,
{
    if n < 10 {
        out.push(digit_char(n));
        proof {
            assert(out@ =~= old(out)@ + dec_str(n as nat));
        }
    } else {
        push_dec(n / 10, out);
        out.push(digit_char(n % 10));
        proof {
            assert(out@ =~= old(out)@ + dec_str(n as nat));
        }
    }
}

/// Appends the characters of a literal label word.
fn push_word(word: &str, out: &mut Vec<char>)
    ensures
        final(out)@ == old(out)@ + word@,
{
    let cs = analyzer::chars_of(word);
    let ghost mid = out@;
    let mut k: usize = 0;
    while k < cs.len()
        invariant
            k <= cs@.len(),
            cs@ == word@,
            out@ == mid + cs@.take(k as int),
        decreases cs@.len() - k,
    {
        out.push(cs[k]);
        proof {
            assert(out@ =~= mid + cs@.take(k + 1));
        }
        k = k + 1;
    }
    proof {
        assert(cs@.take(cs@.len() as int) =~= cs@);
    }
}

/// Renders the label of a run.
#[verifier::rlimit(100)]
fn label_string(c: &Counts) -> (r: String)
    requires
        counts_ok(*c),
    ensures
        r@ == count_label(*c),
{
    let ghost p1: Seq<char> = if c.pointer_increment_count - c.pointer_decrement_count > 0 {
        seq!['>'] + dec_str((c.pointer_increment_count - c.pointer_decrement_count) as nat)
            + seq![' ']
    } else if c.pointer_increment_count - c.pointer_decrement_count < 0 {
        seq!['<'] + dec_str((c.pointer_decrement_count - c.pointer_increment_count) as nat)
            + seq![' ']
    } else {
        Seq::empty()
    };
    let ghost p2: Seq<char> = if c.increment_count - c.decrement_count > 0 {
        seq!['+'] + dec_str((c.increment_count - c.decrement_count) as nat) + seq![' ']
    } else if c.increment_count - c.decrement_count < 0 {
        seq!['-'] + dec_str((c.decrement_count - c.increment_count) as nat) + seq![' ']
    } else {
        Seq::empty()
    };
    let ghost p3: Seq<char> = if c.output_count > 0 {
        "output"@
    } else {
        Seq::empty()
    };
    let ghost p4: Seq<char> = if c.input_count > 0 {
        "input"@
    } else {
        Seq::empty()
    };
    let mut out: Vec<char> = Vec::new();
    let moved = c.pointer_increment_count - c.pointer_decrement_count;
    if moved > 0 {
        out.push('>');
        push_dec(moved as u32, &mut out);
        out.push(' ');
    } else if moved < 0 {
        out.push('<');
        push_dec((-moved) as u32, &mut out);
        out.push(' ');
    }
    proof {
        assert(out@ =~= p1);
    }
    let ghost o1 = out@;
    let changed = c.increment_count - c.decrement_count;
    if changed > 0 {
        out.push('+');
        push_dec(changed as u32, &mut out);
        out.push(' ');
    } else if changed < 0 {
        out.push('-');
        push_dec((-changed) as u32, &mut out);
        out.push(' ');
    }
    proof {
        assert(out@ =~= o1 + p2);
    }
    let ghost o2 = out@;
    if c.output_count > 0 {
        push_word("output", &mut out);
    }
    proof {
        assert(out@ =~= o2 + p3);
    }
    let ghost o3 = out@;
    if c.input_count > 0 {
        push_word("input", &mut out);
    }
    proof {
        assert(out@ =~= o3 + p4);
        assert(out@ =~= ((p1 + p2) + p3) + p4);
        assert(out@ == count_label(*c));
    }
    analyzer::string_from_chars(&out)
}

/// The view of a hint list as position and label text.
pub open spec fn hints_view(v: Seq<InlayHint>) -> Seq<(Position, Seq<char>)> {
    v.map_values(|h: InlayHint| (h.position, h.label@))
}

impl InlayHint {
    /// The inlay hints of a source: parses it and walks the token tree.
    pub fn inlay_hint_string(input: &str) -> (r: Result<Vec<InlayHint>, ParseError>)
        requires
            input@.len() <= u32::MAX,
        ensures
            match r {
                Ok(hints) => exists|ts: Seq<Token>|
                    #[trigger] group_matches(input@, 0, input@.len() as int, ts) && hints_view(
                        hints@,
                    ) == hints_from(
                        ts,
                        0,
                        TokenState::Default,
                        zero_counts(),
                        Position { line: 0, character: 0 },
                    ),
                Err(e) => analyzer::err_matches(e, analyzer::scan(input@, 0, 0, ScanMode::Code)),
            },
    {
        let token_group = match analyzer::parse(input) {
            Ok(pr) => pr,
            Err(e) => {
                return Err(e);
            }
        };
        Ok(Self::_inlay_hint(&token_group.parse_token_group))
    }

    /// The inlay hints of one token group.
    #[verifier::rlimit(100)]
    pub fn _inlay_hint(token_group: &TokenGroup) -> (r: Vec<InlayHint>)
        ensures
            hints_view(r@) == hints_from(
                token_group.token_group@,
                0,
                TokenState::Default,
                zero_counts(),
                Position { line: 0, character: 0 },
            ),
        decreases *token_group,
    {
        let ghost ts = token_group.token_group@;
        let mut result: Vec<InlayHint> = Vec::new();
        let mut state = TokenState::Default;
        let mut counts = Counts {
            pointer_increment_count: 0,
            pointer_decrement_count: 0,
            increment_count: 0,
            decrement_count: 0,
            output_count: 0,
            input_count: 0,
        };
        let mut last_position = Position::new(0, 0);
        let n = token_group.token_group.len();
        let mut i: usize = 0;
        while i < n
            invariant
                n == ts.len(),
                ts == token_group.token_group@,
                i <= n,
                counts_ok(counts),
                last_position == (if i == 0 {
                    Position { line: 0, character: 0 }
                } else {
                    ts[i - 1].range.end
                }),
                hints_view(result@) + hints_from(ts, i as int, state, counts, last_position)
                    == hints_from(
                    ts,
                    0,
                    TokenState::Default,
                    zero_counts(),
                    Position { line: 0, character: 0 },
                ),
            decreases n - i,
        {
            let ghost pre = result@;
            let ghost st0 = state;
            let ghost c0 = counts;
            let t = &token_group.token_group[i];
            let flush = match &t.token_type {
                TokenType::PointerIncrement | TokenType::PointerDecrement => state
                    == TokenState::Change || state == TokenState::IO,
                TokenType::Increment | TokenType::Decrement => state == TokenState::IO,
                TokenType::Output | TokenType::Input => state == TokenState::IO,
                TokenType::SubGroup(_) => true,
                _ => false,
            };
            match &t.token_type {
                TokenType::SubGroup(sg) => {
                    let label = label_string(&counts);
                    result.push(InlayHint { position: last_position, label });
                    if !(state == TokenState::Default) {
                        let mut sub = Self::_inlay_hint(sg);
                        result.append(&mut sub);
                    }
                    counts = Counts {
                        pointer_increment_count: 0,
                        pointer_decrement_count: 0,
                        increment_count: 0,
                        decrement_count: 0,
                        output_count: 0,
                        input_count: 0,
                    };
                    state = TokenState::Default;
                }
                TokenType::Comment(_) => {
                }
                TokenType::LoopStart => {
                }
                TokenType::LoopEnd => {
                }
                TokenType::Breakpoint => {
                }
                _ => {
                    if flush {
                        let label = label_string(&counts);
                        result.push(InlayHint { position: last_position, label });
                        counts = Counts {
                            pointer_increment_count: 0,
                            pointer_decrement_count: 0,
                            increment_count: 0,
                            decrement_count: 0,
                            output_count: 0,
                            input_count: 0,
                        };
                    }
                    match &t.token_type {
                        TokenType::PointerIncrement => {
                            if counts.pointer_increment_count < i32::MAX {
                                counts.pointer_increment_count = counts.pointer_increment_count + 1;
                            }
                            state = TokenState::Move;
                        }
                        TokenType::PointerDecrement => {
                            if counts.pointer_decrement_count < i32::MAX {
                                counts.pointer_decrement_count = counts.pointer_decrement_count + 1;
                            }
                            state = TokenState::Move;
                        }
                        TokenType::Increment => {
                            if counts.increment_count < i32::MAX {
                                counts.increment_count = counts.increment_count + 1;
                            }
                            state = TokenState::Change;
                        }
                        TokenType::Decrement => {
                            if counts.decrement_count < i32::MAX {
                                counts.decrement_count = counts.decrement_count + 1;
                            }
                            state = TokenState::Change;
                        }
                        TokenType::Output => {
                            if counts.output_count < i32::MAX {
                                counts.output_count = counts.output_count + 1;
                            }
                            state = TokenState::IO;
                        }
                        _ => {
                            if counts.input_count < i32::MAX {
                                counts.input_count = counts.input_count + 1;
                            }
                            state = TokenState::IO;
                        }
                    }
                }
            }
            last_position = t.range.end;
            proof {
                assert(state == hint_next_state(st0, ts[i as int].token_type));
                assert(hints_view(result@) =~= hints_view(pre) + (if flushes(
                    st0,
                    ts[i as int].token_type,
                ) {
                    seq![
                        (
                            (if i == 0 {
                                Position { line: 0, character: 0 }
                            } else {
                                ts[i - 1].range.end
                            }),
                            count_label(c0),
                        ),
                    ] + (match ts[i as int].token_type {
                        TokenType::SubGroup(sg) => if (st0 matches TokenState::Default) {
                            Seq::<(Position, Seq<char>)>::empty()
                        } else {
                            hints_from(
                                sg.token_group@,
                                0,
                                TokenState::Default,
                                zero_counts(),
                                Position { line: 0, character: 0 },
                            )
                        },
                        _ => Seq::<(Position, Seq<char>)>::empty(),
                    })
                } else {
                    Seq::<(Position, Seq<char>)>::empty()
                }));
                assert(hints_view(result@) + hints_from(
                    ts,
                    i + 1,
                    state,
                    counts,
                    ts[i as int].range.end,
                ) =~= hints_view(pre) + hints_from(ts, i as int, st0, c0, (if i == 0 {
                    Position { line: 0, character: 0 }
                } else {
                    ts[i - 1].range.end
                })));
            }
            i = i + 1;
        }
        if !(state == TokenState::Default) {
            let label = label_string(&counts);
            result.push(InlayHint { position: last_position, label });
            proof {
                assert(hints_view(result@) =~= hints_from(
                    ts,
                    0,
                    TokenState::Default,
                    zero_counts(),
                    Position { line: 0, character: 0 },
                ));
            }
        } else {
            proof {
                assert(hints_view(result@) =~= hints_from(
                    ts,
                    0,
                    TokenState::Default,
                    zero_counts(),
                    Position { line: 0, character: 0 },
                ));
            }
        }
        result
    }
}

} // verus!
