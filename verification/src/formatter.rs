//! Source formatting: a plain one-token-per-line layout and a prettier one
//! that groups runs of like tokens.
//!
//! Both layouts are specified by recursive functions over the token tree —
//! `print_from` for the plain form, `pretty_from` for the grouped form —
//! and the formatters are proved to return exactly those texts.

use vstd::prelude::*;

use crate::analyzer::{
    self, group_matches, pos_at, ParseError, Position, Range, ScanMode, Token, TokenGroup,
    TokenType,
};

verus! {

/// A formatted document: the range it replaces and the replacement text.
#[derive(Debug)]
pub struct FormatResult {
    pub range: Range,
    pub format_result: String,
}

/// The indentation for one nesting depth: four spaces per level.
pub open spec fn tab_text(tabs: nat) -> Seq<char> {
    Seq::new(4 * tabs, |i: int| ' ')
}

/// One more nesting level, bounded by the machine word.
pub open spec fn bump(tabs: nat) -> nat {
    if tabs < usize::MAX {
        (tabs + 1) as nat
    } else {
        tabs
    }
}

/// The character printed for a token: its lexeme, or `?` where the plain
/// layout prints no lexeme for it.
pub open spec fn lexeme_or_question(t: TokenType) -> char {
    match analyzer::simple_lexeme(t) {
        Some(c) => c,
        None => '?',
    }
}

/// The plain layout of the tokens of `ts` from index `i`: one token per
/// line at the given depth, loops bracketed on their own lines.
pub open spec fn print_from(ts: Seq<Token>, i: int, tabs: nat) -> Seq<char>
    decreases ts, ts.len() - i, 0int,
{
    if i < 0 || i >= ts.len() {
        Seq::empty()
    } else {
        let sep: Seq<char> = if i > 0 {
            seq!['\n']
        } else {
            Seq::empty()
        };
        sep + tab_text(tabs) + print_piece(ts[i], tabs) + print_from(ts, i + 1, tabs)
    }
}

/// The plain layout of one token.
pub open spec fn print_piece(t: Token, tabs: nat) -> Seq<char>
    decreases t,
{
    match t.token_type {
        TokenType::SubGroup(sg) => seq!['[', '\n'] + print_from(sg.token_group@, 0, bump(tabs))
            + seq!['\n'] + tab_text(tabs) + seq![']'],
        _ => seq![lexeme_or_question(t.token_type)],
    }
}

/// Pushes the indentation for `tabs` levels.
fn push_tabs(out: &mut Vec<char>, tabs: usize)
    ensures
        final(out)@ == old(out)@ + tab_text(tabs as nat),
{
    let mut k: usize = 0;
    while k < tabs
        invariant
            k <= tabs,
            out@ == old(out)@ + Seq::new(4 * k as nat, |i: int| ' '),
        decreases tabs - k,
    {
        out.push(' ');
        out.push(' ');
        out.push(' ');
        out.push(' ');
        proof {
            assert(out@ =~= old(out)@ + Seq::new(4 * (k + 1) as nat, |i: int| ' '));
        }
        k = k + 1;
    }
    proof {
        assert(out@ =~= old(out)@ + tab_text(tabs as nat));
    }
}

/// Renders the tokens of one group in the plain layout.
#[verifier::rlimit(100)]
fn print_group(token_group: &TokenGroup, tab_number: usize, out: &mut Vec<char>)
    ensures
        final(out)@ == old(out)@ + print_from(token_group.token_group@, 0, tab_number as nat),
    decreases *token_group,
{
    let ghost ts = token_group.token_group@;
    let n = token_group.token_group.len();
    let mut i: usize = 0;
    while i < n
        invariant
            n == ts.len(),
            ts == token_group.token_group@,
            i <= n,
            out@ + print_from(ts, i as int, tab_number as nat) == old(out)@ + print_from(
                ts,
                0,
                tab_number as nat,
            ),
        decreases n - i,
    {
        let ghost pre = out@;
        if i > 0 {
            out.push('\n');
        }
        push_tabs(out, tab_number);
        let t = &token_group.token_group[i];
        match &t.token_type {
            TokenType::SubGroup(sg) => {
                out.push('[');
                out.push('\n');
                let deeper = if tab_number < usize::MAX {
                    tab_number + 1
                } else {
                    tab_number
                };
                print_group(sg, deeper, out);
                out.push('\n');
                push_tabs(out, tab_number);
                out.push(']');
            }
            TokenType::Comment(_) => {
                out.push('?');
            }
            TokenType::LoopStart => {
                out.push('?');
            }
            TokenType::LoopEnd => {
                out.push('?');
            }
            TokenType::Breakpoint => {
                out.push('?');
            }
            _ => {
                out.push(analyzer::token_to_char(t));
            }
        }
        proof {
            assert(out@ =~= pre + (if i > 0 {
                seq!['\n']
            } else {
                Seq::<char>::empty()
            }) + tab_text(tab_number as nat) + print_piece(ts[i as int], tab_number as nat));
            assert(out@ + print_from(ts, i + 1, tab_number as nat) =~= pre + print_from(
                ts,
                i as int,
                tab_number as nat,
            ));
        }
        i = i + 1;
    }
}

/// Formats a source in the plain layout: one token per line, loops
/// bracketed and indented. The result replaces the whole document.
pub fn format_string(input: &str) -> (r: Result<FormatResult, ParseError>)
    requires
        input@.len() <= u32::MAX,
    ensures
        match r {
            Ok(fr) => {
                &&& fr.range.start == (Position { line: 0, character: 0 })
                &&& fr.range.end == pos_at(input@, input@.len() as int)
                &&& exists|ts: Seq<Token>|
                    #[trigger] group_matches(input@, 0, input@.len() as int, ts)
                        && fr.format_result@ == print_from(ts, 0, 0)
            }
            Err(e) => analyzer::err_matches(e, analyzer::scan(input@, 0, 0, ScanMode::Code)),
        },
{
    let token_group = match analyzer::parse(input) {
        Ok(pr) => pr,
        Err(e) => {
            return Err(e);
        }
    };
    let mut out: Vec<char> = Vec::new();
    print_group(&token_group.parse_token_group, 0, &mut out);
    let text = analyzer::string_from_chars(&out);
    Ok(
        FormatResult {
            range: Range {
                start: Position { line: 0, character: 0 },
                end: token_group.position,
            },
            format_result: text,
        },
    )
}

// ---------------------------------------------------------------------------
// The pretty layout
// ---------------------------------------------------------------------------

/// What kind of run the pretty layout is in the middle of: pointer moves,
/// cell changes, input/output, or none.
#[derive(Debug, Eq, PartialEq, Structural, Copy, Clone)]
pub enum TokenState {
    Move,
    Change,
    IO,
    Default,
}

/// The run continued or begun by a token.
pub open spec fn pretty_next_state(st: TokenState, t: TokenType) -> TokenState {
    match t {
        TokenType::PointerIncrement => TokenState::Move,
        TokenType::PointerDecrement => TokenState::Move,
        TokenType::Increment => TokenState::Change,
        TokenType::Decrement => TokenState::Change,
        TokenType::Output => TokenState::IO,
        TokenType::Input => TokenState::IO,
        TokenType::SubGroup(_) => TokenState::Default,
        TokenType::Comment(_) => TokenState::Default,
        _ => st,
    }
}

/// The pretty layout of the tokens of `ts` from index `i`, in run state
/// `st` at depth `tabs`: runs of like tokens share a line; a new run, a
/// loop or a comment starts one.
pub open spec fn pretty_from(ts: Seq<Token>, i: int, st: TokenState, tabs: nat) -> Seq<char>
    decreases ts, ts.len() - i, 0int,
{
    if i < 0 || i >= ts.len() {
        Seq::empty()
    } else {
        pretty_piece(ts[i], st, tabs) + pretty_from(
            ts,
            i + 1,
            pretty_next_state(st, ts[i].token_type),
            tabs,
        )
    }
}

/// The pretty layout of one token arriving in run state `st`.
pub open spec fn pretty_piece(t: Token, st: TokenState, tabs: nat) -> Seq<char>
    decreases t,
{
    match t.token_type {
        TokenType::SubGroup(sg) => {
            let body = seq!['[', '\n'] + pretty_from(sg.token_group@, 0, TokenState::Default, bump(tabs))
                + seq!['\n'] + tab_text(tabs) + seq![']', '\n'];
            if (st matches TokenState::Default) {
                tab_text(tabs) + body
            } else {
                seq!['\n'] + tab_text(tabs) + body
            }
        }
        TokenType::Comment(text) => {
            if (st matches TokenState::Default) {
                text@ + seq!['\n']
            } else {
                seq!['\n'] + text@ + seq!['\n']
            }
        }
        TokenType::Breakpoint => Seq::empty(),
        TokenType::LoopStart => Seq::empty(),
        TokenType::LoopEnd => Seq::empty(),
        _ => {
            let c = lexeme_or_question(t.token_type);
            let cont = match (st, pretty_next_state(st, t.token_type)) {
                (TokenState::Move, TokenState::Move) => true,
                (TokenState::Change, TokenState::Change) => true,
                (TokenState::IO, TokenState::IO) => true,
                (TokenState::Move, TokenState::Change) => true,
                (TokenState::Move, TokenState::IO) => true,
                (TokenState::Change, TokenState::IO) => true,
                _ => false,
            };
            if (st matches TokenState::Default) {
                tab_text(tabs) + seq![c]
            } else if cont {
                seq![c]
            } else {
                seq!['\n'] + tab_text(tabs) + seq![c]
            }
        }
    }
}

/// Renders the tokens of one group in the pretty layout.
#[verifier::rlimit(100)]
fn pretty_group(token_group: &TokenGroup, tab_number: usize, out: &mut Vec<char>)
    ensures
        final(out)@ == old(out)@ + pretty_from(
            token_group.token_group@,
            0,
            TokenState::Default,
            tab_number as nat,
        ),
    decreases *token_group,
{
    let ghost ts = token_group.token_group@;
    let n = token_group.token_group.len();
    let mut state = TokenState::Default;
    let mut i: usize = 0;
    while i < n
        invariant
            n == ts.len(),
            ts == token_group.token_group@,
            i <= n,
            out@ + pretty_from(ts, i as int, state, tab_number as nat) == old(out)@ + pretty_from(
                ts,
                0,
                TokenState::Default,
                tab_number as nat,
            ),
        decreases n - i,
    {
        let ghost pre = out@;
        let ghost st0 = state;
        let t = &token_group.token_group[i];
        match &t.token_type {
            TokenType::SubGroup(sg) => {
                if !(state == TokenState::Default) {
                    out.push('\n');
                }
                push_tabs(out, tab_number);
                out.push('[');
                out.push('\n');
                let deeper = if tab_number < usize::MAX {
                    tab_number + 1
                } else {
                    tab_number
                };
                pretty_group(sg, deeper, out);
                out.push('\n');
                push_tabs(out, tab_number);
                out.push(']');
                out.push('\n');
                state = TokenState::Default;
                proof {
                    assert(out@ =~= pre + pretty_piece(ts[i as int], st0, tab_number as nat));
                }
            }
            TokenType::Comment(text) => {
                if !(state == TokenState::Default) {
                    out.push('\n');
                }
                let cs = analyzer::chars_of(text.as_str());
                let ghost mid = out@;
                let mut k: usize = 0;
                while k < cs.len()
                    invariant
                        k <= cs@.len(),
                        out@ == mid + cs@.take(k as int),
                    decreases cs@.len() - k,
                {
                    out.push(cs[k]);
                    proof {
                        assert(out@ =~= mid + cs@.take(k + 1));
                    }
                    k = k + 1;
                }
                proof {
                    assert(cs@.take(cs@.len() as int) =~= cs@);
                }
                out.push('\n');
                state = TokenState::Default;
                proof {
                    assert(out@ =~= pre + pretty_piece(ts[i as int], st0, tab_number as nat));
                }
            }
            TokenType::Breakpoint => {
                proof {
                    assert(out@ =~= pre + pretty_piece(ts[i as int], st0, tab_number as nat));
                }
            }
            TokenType::LoopStart => {
                proof {
                    assert(out@ =~= pre + pretty_piece(ts[i as int], st0, tab_number as nat));
                }
            }
            TokenType::LoopEnd => {
                proof {
                    assert(out@ =~= pre + pretty_piece(ts[i as int], st0, tab_number as nat));
                }
            }
            _ => {
                let next = match &t.token_type {
                    TokenType::PointerIncrement => TokenState::Move,
                    TokenType::PointerDecrement => TokenState::Move,
                    TokenType::Increment => TokenState::Change,
                    TokenType::Decrement => TokenState::Change,
                    _ => TokenState::IO,
                };
                let cont = (state == TokenState::Move && next == TokenState::Move) || (state
                    == TokenState::Change && next == TokenState::Change) || (state
                    == TokenState::IO && next == TokenState::IO) || (state == TokenState::Move
                    && next == TokenState::Change) || (state == TokenState::Move && next
                    == TokenState::IO) || (state == TokenState::Change && next == TokenState::IO);
                if state == TokenState::Default {
                    push_tabs(out, tab_number);
                } else if !cont {
                    out.push('\n');
                    push_tabs(out, tab_number);
                }
                out.push(analyzer::token_to_char(t));
                state = next;
                proof {
                    assert(out@ =~= pre + pretty_piece(ts[i as int], st0, tab_number as nat));
                }
            }
        }
        proof {
            assert(state == pretty_next_state(st0, ts[i as int].token_type));
            assert(out@ == pre + pretty_piece(ts[i as int], st0, tab_number as nat));
            assert(out@ + pretty_from(ts, i + 1, state, tab_number as nat) =~= pre + pretty_from(
                ts,
                i as int,
                st0,
                tab_number as nat,
            ));
        }
        i = i + 1;
    }
}

/// Formats a source in the pretty layout: runs of pointer moves, of cell
/// changes and of I/O share a line; loops and comments get their own.
pub fn format_pretty_string(input: &str) -> (r: Result<FormatResult, ParseError>)
    requires
        input@.len() <= u32::MAX,
    ensures
        match r {
            Ok(fr) => {
                &&& fr.range.start == (Position { line: 0, character: 0 })
                &&& fr.range.end == pos_at(input@, input@.len() as int)
                &&& exists|ts: Seq<Token>|
                    #[trigger] group_matches(input@, 0, input@.len() as int, ts)
                        && fr.format_result@ == pretty_from(ts, 0, TokenState::Default, 0)
            }
            Err(e) => analyzer::err_matches(e, analyzer::scan(input@, 0, 0, ScanMode::Code)),
        },
{
    let token_group = match analyzer::parse(input) {
        Ok(pr) => pr,
        Err(e) => {
            return Err(e);
        }
    };
    let mut out: Vec<char> = Vec::new();
    pretty_group(&token_group.parse_token_group, 0, &mut out);
    let text = analyzer::string_from_chars(&out);
    Ok(
        FormatResult {
            range: Range {
                start: Position { line: 0, character: 0 },
                end: token_group.position,
            },
            format_result: text,
        },
    )
}

} // verus!
