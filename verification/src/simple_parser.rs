//! A minimal structured parser: bare tokens without source ranges and no
//! comment support. Whitespace is not skipped here — an unbracketed
//! whitespace character ends the token stream, and anything after it is an
//! error.
//!
//! The parser is specified by `simple_run`, a one-pass machine over the
//! source keeping a stack of open groups, and `parse` is proved to return
//! exactly what that machine builds, or exactly the error it names.

use vstd::prelude::*;

use crate::analyzer::{
    err_matches, is_ws, pos_at, CharsWithPosition, ParseError, Position, Range, ScanOut,
};

verus! {

/// An ordered sequence of bare tokens; the whole program or one loop body.
#[derive(Debug, PartialEq)]
pub struct TokenGroup {
    pub token_group: Vec<Token>,
}

/// One bare token. `Accept` reads one input byte; `SubGroup` holds the
/// body of a balanced loop.
#[derive(Debug, PartialEq)]
pub enum Token {
    PointerIncrement,
    PointerDecrement,
    Increment,
    Decrement,
    Output,
    Accept,
    LoopStart,
    LoopEnd,
    SubGroup(Box<TokenGroup>),
}

impl TokenGroup {
    pub fn tokens(&self) -> (r: &Vec<Token>)
        ensures
            r == &self.token_group,
    {
        &self.token_group
    }
}

/// The mathematical shape of a bare token.
pub ghost enum BareTok {
    PointerIncrement,
    PointerDecrement,
    Increment,
    Decrement,
    Output,
    Accept,
    LoopStart,
    LoopEnd,
    SubGroup(Seq<BareTok>),
}

/// The shape of one token.
pub open spec fn bare_of(t: Token) -> BareTok
    decreases t,
{
    match t {
        Token::PointerIncrement => BareTok::PointerIncrement,
        Token::PointerDecrement => BareTok::PointerDecrement,
        Token::Increment => BareTok::Increment,
        Token::Decrement => BareTok::Decrement,
        Token::Output => BareTok::Output,
        Token::Accept => BareTok::Accept,
        Token::LoopStart => BareTok::LoopStart,
        Token::LoopEnd => BareTok::LoopEnd,
        Token::SubGroup(sg) => BareTok::SubGroup(bares_of(sg.token_group@)),
    }
}

/// The shape of a token sequence.
pub open spec fn bares_of(ts: Seq<Token>) -> Seq<BareTok>
    decreases ts,
{
    if ts.len() == 0 {
        Seq::empty()
    } else {
        seq![bare_of(ts[0])] + bares_of(ts.drop_first())
    }
}

/// What the one-pass machine ends with: the top-level tokens, or a failure
/// named as the scanner of the full parser names failures.
pub ghost enum SimpleOut {
    Parsed(Seq<BareTok>),
    Failed(ScanOut),
}

/// The bare token a single-character lexeme stands for, if any.
pub open spec fn bare_lexeme(c: char) -> Option<BareTok> {
    if c == '>' {
        Some(BareTok::PointerIncrement)
    } else if c == '<' {
        Some(BareTok::PointerDecrement)
    } else if c == '+' {
        Some(BareTok::Increment)
    } else if c == '-' {
        Some(BareTok::Decrement)
    } else if c == '.' {
        Some(BareTok::Output)
    } else if c == ',' {
        Some(BareTok::Accept)
    } else {
        None
    }
}

/// The one-pass machine from offset `i`, carrying one token list per open
/// group, innermost last. `[` opens a group and `]` closes it; a `]` or a
/// whitespace character outside any group ends the program, and then any
/// remaining text is an error; whitespace inside a group is an error; so
/// is an unclosed group at the end of the source.
pub open spec fn simple_run(s: Seq<char>, i: int, stack: Seq<Seq<BareTok>>) -> SimpleOut
    decreases s.len() - i,
{
    if stack.len() == 0 {
        SimpleOut::Failed(ScanOut::Invalid(pos_at(s, i)))
    } else if i < 0 || i >= s.len() {
        if stack.len() > 1 {
            SimpleOut::Failed(ScanOut::MoreOpen(pos_at(s, s.len() as int)))
        } else {
            SimpleOut::Parsed(stack[0])
        }
    } else {
        let c = s[i];
        if c == '[' {
            simple_run(s, i + 1, stack.push(Seq::empty()))
        } else if c == ']' {
            if stack.len() == 1 {
                if i + 1 < s.len() {
                    SimpleOut::Failed(ScanOut::MoreClose(pos_at(s, i + 1)))
                } else {
                    SimpleOut::Failed(ScanOut::MoreOpen(pos_at(s, i + 1)))
                }
            } else {
                let parent = stack[stack.len() - 2].push(BareTok::SubGroup(stack.last()));
                simple_run(s, i + 1, stack.drop_last().drop_last().push(parent))
            }
        } else if is_ws(c) {
            if stack.len() > 1 {
                SimpleOut::Failed(ScanOut::MoreOpen(pos_at(s, i)))
            } else if i + 1 < s.len() {
                SimpleOut::Failed(ScanOut::MoreClose(pos_at(s, i + 1)))
            } else {
                SimpleOut::Parsed(stack[0])
            }
        } else {
            match bare_lexeme(c) {
                Some(b) => simple_run(
                    s,
                    i + 1,
                    stack.drop_last().push(stack.last().push(b)),
                ),
                None => SimpleOut::Failed(ScanOut::Invalid(pos_at(s, i))),
            }
        }
    }
}

/// The shapes of a stack of open groups.
pub open spec fn stack_view(stack: Seq<Vec<Token>>) -> Seq<Seq<BareTok>> {
    stack.map_values(|v: Vec<Token>| bares_of(v@))
}

/// Shapes distribute over appending one token.
proof fn lemma_bares_snoc(ts: Seq<Token>, t: Token)
    ensures
        bares_of(ts.push(t)) == bares_of(ts).push(bare_of(t)),
    decreases ts,
{
    if ts.len() == 0 {
        assert(ts.push(t)[0] == t);
        assert(ts.push(t).drop_first() =~= Seq::<Token>::empty());
        assert(bares_of(Seq::<Token>::empty()) =~= Seq::<BareTok>::empty());
        assert(bares_of(ts) =~= Seq::<BareTok>::empty());
        assert(bares_of(ts.push(t)) =~= bares_of(ts).push(bare_of(t)));
    } else {
        assert(ts.push(t)[0] == ts[0]);
        assert(ts.push(t).drop_first() =~= ts.drop_first().push(t));
        lemma_bares_snoc(ts.drop_first(), t);
        assert(bares_of(ts.push(t)) =~= bares_of(ts).push(bare_of(t)));
    }
}

/// The bare token of a single-character lexeme, executably.
fn bare_token(c: char) -> (r: Option<Token>)
    ensures
        match r {
            Some(t) => bare_lexeme(c) == Some(bare_of(t)),
            None => bare_lexeme(c) is None,
        },
{
    match c {
        '>' => Some(Token::PointerIncrement),
        '<' => Some(Token::PointerDecrement),
        '+' => Some(Token::Increment),
        '-' => Some(Token::Decrement),
        '.' => Some(Token::Output),
        ',' => Some(Token::Accept),
        _ => None,
    }
}

/// Parses a source into bare tokens: exactly the tokens the one-pass
/// machine builds, or exactly the error it names, with its position.
pub fn parse(input: &str) -> (r: Result<TokenGroup, ParseError>)
    requires
        input@.len() <= u32::MAX,
    ensures
        match r {
            Ok(tg) => simple_run(input@, 0, seq![Seq::<BareTok>::empty()]) == SimpleOut::Parsed(
                bares_of(tg.token_group@),
            ),
            Err(e) => match simple_run(input@, 0, seq![Seq::<BareTok>::empty()]) {
                SimpleOut::Failed(out) => err_matches(e, out),
                SimpleOut::Parsed(_) => false,
            },
        },
{
    let cv = crate::analyzer::chars_of(input);
    let mut chars = CharsWithPosition {
        chars: cv,
        idx: 0,
        last_position: Position::new(0, 0),
        position: Position::new(0, 0),
    };
    let ghost s = chars.chars@;
    let ghost init: Seq<Seq<BareTok>> = seq![Seq::<BareTok>::empty()];
    let mut stack: Vec<Vec<Token>> = Vec::new();
    stack.push(Vec::new());
    proof {
        assert(bares_of(Seq::<Token>::empty()) =~= Seq::<BareTok>::empty());
        assert(stack_view(stack@) =~= init);
    }
    loop
        invariant
            s == input@,
            init == seq![Seq::<BareTok>::empty()],
            chars.wf(),
            chars.chars@ == s,
            stack@.len() >= 1,
            simple_run(s, 0, init) == simple_run(s, chars.idx as int, stack_view(stack@)),
        decreases s.len() - chars.idx as int,
    {
        let ghost i = chars.idx as int;
        let ghost sv = stack_view(stack@);
        let c_opt = chars.next();
        if c_opt.is_none() {
            if stack.len() > 1 {
                let p = chars.last_position;
                proof {
                    assert(simple_run(s, i, sv) == SimpleOut::Failed(
                        ScanOut::MoreOpen(pos_at(s, s.len() as int)),
                    ));
                }
                return Err(ParseError {
                    range: Range { start: p, end: p },
                    error_message: "More [ found".to_owned(),
                });
            }
            let tokens = stack.pop().unwrap();
            proof {
                assert(sv[0] == bares_of(tokens@));
                assert(simple_run(s, i, sv) == SimpleOut::Parsed(sv[0]));
            }
            return Ok(TokenGroup { token_group: tokens });
        }
        let c = c_opt.unwrap();
        if c == '[' {
            stack.push(Vec::new());
            proof {
                assert(bares_of(Seq::<Token>::empty()) =~= Seq::<BareTok>::empty());
                assert(stack_view(stack@) =~= sv.push(Seq::<BareTok>::empty()));
                assert(simple_run(s, i, sv) == simple_run(s, i + 1, stack_view(stack@)));
            }
        } else if c == ']' {
            if stack.len() == 1 {
                let more = chars.next();
                let p = chars.last_position;
                if more.is_some() {
                    proof {
                        assert(simple_run(s, i, sv) == SimpleOut::Failed(
                            ScanOut::MoreClose(pos_at(s, i + 1)),
                        ));
                    }
                    return Err(ParseError {
                        range: Range { start: p, end: p },
                        error_message: "More ] found".to_owned(),
                    });
                } else {
                    proof {
                        assert(simple_run(s, i, sv) == SimpleOut::Failed(
                            ScanOut::MoreOpen(pos_at(s, i + 1)),
                        ));
                    }
                    return Err(ParseError {
                        range: Range { start: p, end: p },
                        error_message: "More [ found".to_owned(),
                    });
                }
            } else {
                let inner = stack.pop().unwrap();
                let mut top = stack.pop().unwrap();
                let ghost topv = top@;
                top.push(Token::SubGroup(Box::new(TokenGroup { token_group: inner })));
                stack.push(top);
                proof {
                    lemma_bares_snoc(
                        topv,
                        Token::SubGroup(Box::new(TokenGroup { token_group: inner })),
                    );
                    assert(stack_view(stack@) =~= sv.drop_last().drop_last().push(
                        sv[sv.len() - 2].push(BareTok::SubGroup(sv.last())),
                    ));
                    assert(simple_run(s, i, sv) == simple_run(s, i + 1, stack_view(stack@)));
                }
            }
        } else if c == ' ' || c == '\n' || c == '\t' || c == '\r' {
            if stack.len() > 1 {
                let p = chars.last_position;
                proof {
                    assert(simple_run(s, i, sv) == SimpleOut::Failed(
                        ScanOut::MoreOpen(pos_at(s, i)),
                    ));
                }
                return Err(ParseError {
                    range: Range { start: p, end: p },
                    error_message: "More [ found".to_owned(),
                });
            } else {
                let more = chars.next();
                let p = chars.last_position;
                if more.is_some() {
                    proof {
                        assert(simple_run(s, i, sv) == SimpleOut::Failed(
                            ScanOut::MoreClose(pos_at(s, i + 1)),
                        ));
                    }
                    return Err(ParseError {
                        range: Range { start: p, end: p },
                        error_message: "More ] found".to_owned(),
                    });
                } else {
                    let tokens = stack.pop().unwrap();
                    proof {
                        assert(sv[0] == bares_of(tokens@));
                        assert(simple_run(s, i, sv) == SimpleOut::Parsed(sv[0]));
                    }
                    return Ok(TokenGroup { token_group: tokens });
                }
            }
        } else {
            match bare_token(c) {
                Some(t) => {
                    let mut top = stack.pop().unwrap();
                    let ghost topv = top@;
                    let ghost bt = bare_of(t);
                    top.push(t);
                    stack.push(top);
                    proof {
                        lemma_bares_snoc(topv, t);
                        assert(stack_view(stack@) =~= sv.drop_last().push(sv.last().push(bt)));
                        assert(simple_run(s, i, sv) == simple_run(s, i + 1, stack_view(stack@)));
                    }
                }
                None => {
                    let p = chars.last_position;
                    proof {
                        assert(simple_run(s, i, sv) == SimpleOut::Failed(
                            ScanOut::Invalid(pos_at(s, i)),
                        ));
                    }
                    return Err(ParseError {
                        range: Range { start: p, end: p },
                        error_message: "Invalid token".to_owned(),
                    });
                }
            }
        }
    }
}

} // verus!
