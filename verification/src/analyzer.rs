//! Source analysis for Brainfuck programs: positions, ranges, tokens and the
//! two parsers (the structured one building nested loops, and the flat one
//! used by the breakpoint validator).
//!
//! The specification side models the source as a sequence of characters.
//! `pos_at` gives the `Position` reached after consuming a prefix,
//! `group_matches` is the grammar, relating a region of the source to a
//! token sequence, and `scan` is a one-pass state machine deciding exactly
//! which sources parse and which error is reported otherwise.

use vstd::prelude::*;

verus! {

/// Position in a text document expressed as zero-based line and character
/// offset. A newline moves to the next line; any other character advances
/// the column by one.
#[derive(Debug, Eq, PartialEq, Structural, Ord, PartialOrd, Copy, Clone)]
pub struct Position {
    /// Line position in a document (zero-based).
    pub line: u32,
    /// Character offset on a line in a document (zero-based).
    pub character: u32,
}

impl Position {
    pub fn new(line: u32, character: u32) -> (r: Position)
        ensures
            r == (Position { line, character }),
    {
        Position { line, character }
    }

    pub fn move_right(&mut self)
        requires
            old(self).character < u32::MAX,
        ensures
            *final(self) == (Position { line: old(self).line, character: (old(self).character + 1) as u32 }),
    {
        self.character = self.character + 1;
    }

    pub fn move_down(&mut self)
        requires
            old(self).line < u32::MAX,
        ensures
            *final(self) == (Position { line: (old(self).line + 1) as u32, character: 0 }),
    {
        self.line = self.line + 1;
        self.character = 0;
    }
}

/// A range in a text document expressed as (zero-based) start and end
/// positions. The end position is exclusive.
#[derive(Debug, Eq, PartialEq, Structural, Copy, Clone)]
pub struct Range {
    /// The range's start position.
    pub start: Position,
    /// The range's end position.
    pub end: Position,
}

impl Range {
    pub fn new(start: Position, end: Position) -> (r: Range)
        ensures
            r == (Range { start, end }),
    {
        Range { start, end }
    }
}

/// An ordered sequence of tokens; the body of the whole program or of one loop.
#[derive(Debug, PartialEq)]
pub struct TokenGroup {
    pub token_group: Vec<Token>,
}

/// One lexeme of the source, together with the source range it was read from.
#[derive(Debug, PartialEq)]
pub struct Token {
    pub range: Range,
    pub token_type: TokenType,
}

/// The kinds of token. `SubGroup` holds the body of a balanced loop and is
/// produced by the structured parse; `LoopStart` and `LoopEnd` are produced
/// by the flat parse instead. A `Comment` carries its verbatim text,
/// delimiters included.
#[derive(Debug, PartialEq)]
pub enum TokenType {
    PointerIncrement,
    PointerDecrement,
    Increment,
    Decrement,
    Output,
    Input,
    LoopStart,
    LoopEnd,
    SubGroup(Box<TokenGroup>),
    Comment(String),
    Breakpoint,
}

/// A parse failure, carrying the offending source range.
#[derive(Debug, PartialEq)]
pub struct ParseError {
    pub range: Range,
    pub error_message: String,
}

/// A successful parse: the token tree and the final position reached.
#[derive(Debug)]
pub struct ParseResult {
    pub position: Position,
    pub parse_token_group: TokenGroup,
}

impl TokenGroup {
    pub fn tokens(&self) -> (r: &Vec<Token>)
        ensures
            r == &self.token_group,
    {
        &self.token_group
    }

    pub fn tokens_mut(&mut self) -> (r: &mut Vec<Token>)
        ensures
            *r == old(self).token_group,
            *final(self) == (TokenGroup { token_group: *final(r) }),
    {
        &mut self.token_group
    }
}

// ---------------------------------------------------------------------------
// Position model
// ---------------------------------------------------------------------------

/// How consuming one character advances a position.
pub open spec fn next_pos(p: Position, c: char) -> Position {
    if c == '\n' {
        Position { line: (p.line + 1) as u32, character: 0 }
    } else {
        Position { line: p.line, character: (p.character + 1) as u32 }
    }
}

/// The position reached after consuming the first `i` characters of `s`.
pub open spec fn pos_at(s: Seq<char>, i: int) -> Position
    decreases i,
{
    if i <= 0 {
        Position { line: 0, character: 0 }
    } else {
        next_pos(pos_at(s, i - 1), s[i - 1])
    }
}

/// Line and column never exceed the number of characters consumed.
pub proof fn lemma_pos_at_bounds(s: Seq<char>, i: int)
    requires
        0 <= i,
    ensures
        pos_at(s, i).line <= i,
        pos_at(s, i).character <= i,
    decreases i,
{
    if i > 0 {
        lemma_pos_at_bounds(s, i - 1);
    }
}

// ---------------------------------------------------------------------------
// Character classes and lexemes
// ---------------------------------------------------------------------------

pub open spec fn is_ws(c: char) -> bool {
    c == ' ' || c == '\n' || c == '\t' || c == '\r'
}

/// The lexeme character of the token kinds that stand for a single source
/// character; `None` for loops, comments and breakpoints.
pub open spec fn simple_lexeme(t: TokenType) -> Option<char> {
    match t {
        TokenType::PointerIncrement => Some('>'),
        TokenType::PointerDecrement => Some('<'),
        TokenType::Increment => Some('+'),
        TokenType::Decrement => Some('-'),
        TokenType::Output => Some('.'),
        TokenType::Input => Some(','),
        _ => None,
    }
}

/// As `simple_lexeme`, but also admitting the flat bracket tokens.
pub open spec fn flat_lexeme(t: TokenType) -> Option<char> {
    match t {
        TokenType::LoopStart => Some('['),
        TokenType::LoopEnd => Some(']'),
        _ => simple_lexeme(t),
    }
}

/// The text of a comment, delimiters included. A line comment starts `//`
/// and runs to its terminator — the first newline or carriage return, kept
/// as its last character — or to the end of the source; a block comment
/// starts `/*` and ends at the first `*/`. Holding the first terminator or
/// closer to be the last character is what makes a comment's extent
/// unique.
pub open spec fn comment_shape(cs: Seq<char>) -> bool {
    &&& cs.len() >= 2
    &&& cs[0] == '/'
    &&& (cs[1] == '/' || cs[1] == '*')
    &&& (cs[1] == '/' ==> forall|k: int|
        2 <= k < cs.len() - 1 ==> !((#[trigger] cs[k]) == '\n' || cs[k] == '\r'))
    &&& (cs[1] == '*' ==> {
        &&& cs.len() >= 4
        &&& cs[cs.len() - 1] == '/'
        &&& cs[cs.len() - 2] == '*'
        &&& forall|k: int| 3 <= k < cs.len() - 1 ==> !((#[trigger] cs[k]) == '/' && cs[k - 1] == '*')
    })
}

// ---------------------------------------------------------------------------
// The grammar, as a relation between a source region and a token sequence
// ---------------------------------------------------------------------------

/// Token `t` spans exactly the source region `[i, j)`. Comment extents
/// are pinned: a line comment runs to its first terminator (kept as its
/// last character) or to the end of the source, a block comment to its
/// first closer — so a source region admits at most one token.
pub open spec fn token_at(s: Seq<char>, i: int, j: int, t: Token) -> bool
    decreases j - i, 0int,
{
    &&& 0 <= i < j <= s.len()
    &&& t.range.start == pos_at(s, i)
    &&& t.range.end == pos_at(s, j)
    &&& match t.token_type {
        TokenType::SubGroup(sg) => s[i] == '[' && s[j - 1] == ']'
            && group_matches(s, i + 1, j - 1, sg.token_group@),
        TokenType::Comment(text) => text@ == s.subrange(i, j) && comment_shape(s.subrange(i, j))
            && (s[i + 1] == '/' ==> j == s.len() || s[j - 1] == '\n' || s[j - 1] == '\r'),
        TokenType::LoopStart => false,
        TokenType::LoopEnd => false,
        TokenType::Breakpoint => false,
        _ => j == i + 1 && simple_lexeme(t.token_type) == Some(s[i]),
    }
}

/// Positions, ordered as the parser visits them.
pub open spec fn pos_lt(p: Position, q: Position) -> bool {
    p.line < q.line || (p.line == q.line && p.character < q.character)
}

/// The offset whose position is `p`. Scanning visits strictly increasing
/// positions, so on sources whose length fits a `u32` this inverts `pos_at`.
pub open spec fn off_of(s: Seq<char>, p: Position) -> int {
    choose|n: int| 0 <= n <= s.len() && pos_at(s, n) == p
}

/// The tokens `ts` tile the source region `[i, j)`, skipping whitespace.
/// Each token ends at the offset its recorded end position names.
pub open spec fn group_matches(s: Seq<char>, i: int, j: int, ts: Seq<Token>) -> bool
    decreases j - i, 1int,
{
    if i >= j {
        ts.len() == 0
    } else if is_ws(s[i]) {
        group_matches(s, i + 1, j, ts)
    } else {
        ts.len() > 0 && {
            let k = off_of(s, ts[0].range.end);
            i < k <= j && token_at(s, i, k, ts[0]) && group_matches(s, k, j, ts.drop_first())
        }
    }
}

/// As `token_at`, for the flat parse: brackets are ordinary tokens and no
/// loop is nested.
pub open spec fn flat_token_at(s: Seq<char>, i: int, j: int, t: Token) -> bool {
    &&& 0 <= i < j <= s.len()
    &&& t.range.start == pos_at(s, i)
    &&& t.range.end == pos_at(s, j)
    &&& match t.token_type {
        TokenType::SubGroup(_) => false,
        TokenType::Comment(text) => text@ == s.subrange(i, j) && comment_shape(s.subrange(i, j))
            && (s[i + 1] == '/' ==> j == s.len() || s[j - 1] == '\n' || s[j - 1] == '\r'),
        TokenType::Breakpoint => false,
        _ => j == i + 1 && flat_lexeme(t.token_type) == Some(s[i]),
    }
}

/// The flat tokens `ts` tile the source region `[i, j)`, skipping whitespace.
pub open spec fn flat_matches(s: Seq<char>, i: int, j: int, ts: Seq<Token>) -> bool
    decreases j - i,
{
    if i >= j {
        ts.len() == 0
    } else if is_ws(s[i]) {
        flat_matches(s, i + 1, j, ts)
    } else {
        ts.len() > 0 && {
            let k = off_of(s, ts[0].range.end);
            i < k <= j && flat_token_at(s, i, k, ts[0]) && flat_matches(s, k, j, ts.drop_first())
        }
    }
}

// ---------------------------------------------------------------------------
// The scanner: which sources parse, and which error otherwise
// ---------------------------------------------------------------------------

/// Lexing mode of the scanner: ordinary code, or inside a comment whose
/// opening `/` stands at the recorded offset.
pub ghost enum ScanMode {
    Code,
    Line(int),
    Para(int),
}

/// What scanning a source yields: the final position on success, or an
/// error with the position the parser reports.
pub ghost enum ScanOut {
    Accept(Position),
    Invalid(Position),
    Unterminated(Position),
    MoreClose(Position),
    MoreOpen(Position),
}

/// One-pass scan of `s` from offset `i` with `depth` open loops.
/// Mirrors exactly how the parser consumes characters and which error it
/// reports first.
pub open spec fn scan(s: Seq<char>, i: int, depth: nat, mode: ScanMode) -> ScanOut
    decreases s.len() - i,
{
    if i < 0 || i >= s.len() {
        match mode {
            ScanMode::Para(_) => ScanOut::Unterminated(pos_at(s, s.len() as int)),
            _ => if depth > 0 {
                ScanOut::MoreOpen(pos_at(s, s.len() as int))
            } else {
                ScanOut::Accept(pos_at(s, s.len() as int))
            },
        }
    } else {
        let c = s[i];
        match mode {
            ScanMode::Code => {
                if c == '[' {
                    scan(s, i + 1, depth + 1, ScanMode::Code)
                } else if c == ']' {
                    if depth == 0 {
                        ScanOut::MoreClose(pos_at(s, i + 1))
                    } else {
                        scan(s, i + 1, (depth - 1) as nat, ScanMode::Code)
                    }
                } else if c == '>' || c == '<' || c == '+' || c == '-' || c == '.' || c == ','
                    || is_ws(c) {
                    scan(s, i + 1, depth, ScanMode::Code)
                } else if c == '/' {
                    if i + 1 < s.len() && s[i + 1] == '/' {
                        scan(s, i + 2, depth, ScanMode::Line(i))
                    } else if i + 1 < s.len() && s[i + 1] == '*' {
                        scan(s, i + 2, depth, ScanMode::Para(i))
                    } else {
                        ScanOut::Invalid(pos_at(s, i + 1))
                    }
                } else {
                    ScanOut::Invalid(pos_at(s, i))
                }
            }
            ScanMode::Line(_) => {
                if c == '\n' || c == '\r' {
                    scan(s, i + 1, depth, ScanMode::Code)
                } else {
                    scan(s, i + 1, depth, mode)
                }
            }
            ScanMode::Para(cs) => {
                if c == '/' && i - cs + 1 >= 4 && s[i - 1] == '*' {
                    scan(s, i + 1, depth, ScanMode::Code)
                } else {
                    scan(s, i + 1, depth, mode)
                }
            }
        }
    }
}

/// A reported parse error agrees with the scanner: the same kind of
/// failure, and the range is the single position the scanner points at.
pub open spec fn err_matches(e: ParseError, out: ScanOut) -> bool {
    match out {
        ScanOut::Accept(_) => false,
        ScanOut::Invalid(p) => e.range == (Range { start: p, end: p })
            && e.error_message@ == "Invalid token"@,
        ScanOut::Unterminated(p) => e.range == (Range { start: p, end: p })
            && e.error_message@ == "Paragraph comment missing end flag."@,
        ScanOut::MoreClose(p) => e.range == (Range { start: p, end: p })
            && e.error_message@ == "More ] found"@,
        ScanOut::MoreOpen(p) => e.range == (Range { start: p, end: p })
            && e.error_message@ == "More [ found"@,
    }
}

/// One-pass scan for the flat parse: brackets are ordinary lexemes, so only
/// an invalid character or an unterminated block comment can fail.
pub open spec fn flat_scan(s: Seq<char>, i: int, mode: ScanMode) -> ScanOut
    decreases s.len() - i,
{
    if i < 0 || i >= s.len() {
        match mode {
            ScanMode::Para(_) => ScanOut::Unterminated(pos_at(s, s.len() as int)),
            _ => ScanOut::Accept(pos_at(s, s.len() as int)),
        }
    } else {
        let c = s[i];
        match mode {
            ScanMode::Code => {
                if c == '[' || c == ']' || c == '>' || c == '<' || c == '+' || c == '-'
                    || c == '.' || c == ',' || is_ws(c) {
                    flat_scan(s, i + 1, ScanMode::Code)
                } else if c == '/' {
                    if i + 1 < s.len() && s[i + 1] == '/' {
                        flat_scan(s, i + 2, ScanMode::Line(i))
                    } else if i + 1 < s.len() && s[i + 1] == '*' {
                        flat_scan(s, i + 2, ScanMode::Para(i))
                    } else {
                        ScanOut::Invalid(pos_at(s, i + 1))
                    }
                } else {
                    ScanOut::Invalid(pos_at(s, i))
                }
            }
            ScanMode::Line(_) => {
                if c == '\n' || c == '\r' {
                    flat_scan(s, i + 1, ScanMode::Code)
                } else {
                    flat_scan(s, i + 1, mode)
                }
            }
            ScanMode::Para(cs) => {
                if c == '/' && i - cs + 1 >= 4 && s[i - 1] == '*' {
                    flat_scan(s, i + 1, ScanMode::Code)
                } else {
                    flat_scan(s, i + 1, mode)
                }
            }
        }
    }
}

// ---------------------------------------------------------------------------
// Lemmas on the grammar relation
// ---------------------------------------------------------------------------

/// No token starts with a whitespace character.
proof fn lemma_token_at_not_ws(s: Seq<char>, i: int, j: int, t: Token)
    requires
        token_at(s, i, j, t),
    ensures
        !is_ws(s[i]),
{
    match t.token_type {
        TokenType::Comment(text) => {
            assert(s.subrange(i, j)[0] == s[i]);
        }
        _ => {}
    }
}

/// No flat token starts with a whitespace character.
proof fn lemma_flat_token_at_not_ws(s: Seq<char>, i: int, j: int, t: Token)
    requires
        flat_token_at(s, i, j, t),
    ensures
        !is_ws(s[i]),
{
    match t.token_type {
        TokenType::Comment(text) => {
            assert(s.subrange(i, j)[0] == s[i]);
        }
        _ => {}
    }
}

/// Scanning visits strictly increasing positions.
proof fn lemma_pos_at_increases(s: Seq<char>, n1: int, n2: int)
    requires
        0 <= n1 < n2 <= s.len(),
        s.len() <= u32::MAX,
    ensures
        pos_lt(pos_at(s, n1), pos_at(s, n2)),
    decreases n2,
{
    lemma_pos_at_bounds(s, n2 - 1);
    if n1 < n2 - 1 {
        lemma_pos_at_increases(s, n1, n2 - 1);
    }
}

/// `off_of` inverts `pos_at` on sources whose length fits a `u32`.
proof fn lemma_off_of_pos_at(s: Seq<char>, n: int)
    requires
        0 <= n <= s.len(),
        s.len() <= u32::MAX,
    ensures
        off_of(s, pos_at(s, n)) == n,
{
    let p = pos_at(s, n);
    assert(exists|m: int| 0 <= m <= s.len() && pos_at(s, m) == p) by {
        assert(0 <= n <= s.len() && pos_at(s, n) == p);
    }
    let m = off_of(s, p);
    if m < n {
        lemma_pos_at_increases(s, m, n);
    }
    if m > n {
        lemma_pos_at_increases(s, n, m);
    }
}

/// A tiling of `[a, k)` extends by one more token spanning `[k, m)`.
proof fn lemma_group_append(s: Seq<char>, a: int, k: int, m: int, ts: Seq<Token>, t: Token)
    requires
        a <= k,
        s.len() <= u32::MAX,
        group_matches(s, a, k, ts),
        token_at(s, k, m, t),
    ensures
        group_matches(s, a, m, ts.push(t)),
    decreases k - a,
{
    lemma_off_of_pos_at(s, m);
    if a >= k {
        lemma_token_at_not_ws(s, k, m, t);
        assert(ts.push(t)[0] == t);
        assert(ts.push(t).drop_first() =~= Seq::<Token>::empty());
        assert(group_matches(s, m, m, ts.push(t).drop_first()));
        assert(token_at(s, a, m, ts.push(t)[0]));
    } else if is_ws(s[a]) {
        lemma_group_append(s, a + 1, k, m, ts, t);
    } else {
        let k2 = off_of(s, ts[0].range.end);
        lemma_group_append(s, k2, k, m, ts.drop_first(), t);
        assert(ts.push(t)[0] == ts[0]);
        assert(ts.push(t).drop_first() =~= ts.drop_first().push(t));
        assert(group_matches(s, k2, m, ts.push(t).drop_first()));
    }
}

/// A tiling of `[a, k)` absorbs a following whitespace character.
proof fn lemma_group_ws(s: Seq<char>, a: int, k: int, ts: Seq<Token>)
    requires
        a <= k,
        s.len() <= u32::MAX,
        group_matches(s, a, k, ts),
        is_ws(s[k]),
    ensures
        group_matches(s, a, k + 1, ts),
    decreases k - a,
{
    if a >= k {
        assert(group_matches(s, a + 1, k + 1, ts));
    } else if is_ws(s[a]) {
        lemma_group_ws(s, a + 1, k, ts);
    } else {
        let k2 = off_of(s, ts[0].range.end);
        lemma_group_ws(s, k2, k, ts.drop_first());
        assert(group_matches(s, k2, k + 1, ts.drop_first()));
    }
}

/// A flat tiling of `[a, k)` extends by one more token spanning `[k, m)`.
proof fn lemma_flat_append(s: Seq<char>, a: int, k: int, m: int, ts: Seq<Token>, t: Token)
    requires
        a <= k,
        s.len() <= u32::MAX,
        flat_matches(s, a, k, ts),
        flat_token_at(s, k, m, t),
    ensures
        flat_matches(s, a, m, ts.push(t)),
    decreases k - a,
{
    lemma_off_of_pos_at(s, m);
    if a >= k {
        lemma_flat_token_at_not_ws(s, k, m, t);
        assert(ts.push(t)[0] == t);
        assert(ts.push(t).drop_first() =~= Seq::<Token>::empty());
        assert(flat_matches(s, m, m, ts.push(t).drop_first()));
        assert(flat_token_at(s, a, m, ts.push(t)[0]));
    } else if is_ws(s[a]) {
        lemma_flat_append(s, a + 1, k, m, ts, t);
    } else {
        let k2 = off_of(s, ts[0].range.end);
        lemma_flat_append(s, k2, k, m, ts.drop_first(), t);
        assert(ts.push(t)[0] == ts[0]);
        assert(ts.push(t).drop_first() =~= ts.drop_first().push(t));
        assert(flat_matches(s, k2, m, ts.push(t).drop_first()));
    }
}

/// A flat tiling of `[a, k)` absorbs a following whitespace character.
proof fn lemma_flat_ws(s: Seq<char>, a: int, k: int, ts: Seq<Token>)
    requires
        a <= k,
        s.len() <= u32::MAX,
        flat_matches(s, a, k, ts),
        is_ws(s[k]),
    ensures
        flat_matches(s, a, k + 1, ts),
    decreases k - a,
{
    if a >= k {
        assert(flat_matches(s, a + 1, k + 1, ts));
    } else if is_ws(s[a]) {
        lemma_flat_ws(s, a + 1, k, ts);
    } else {
        let k2 = off_of(s, ts[0].range.end);
        lemma_flat_ws(s, k2, k, ts.drop_first());
        assert(flat_matches(s, k2, k + 1, ts.drop_first()));
    }
}

// ---------------------------------------------------------------------------
// Laws of the grammar relation
// ---------------------------------------------------------------------------

/// The source character every token of a given kind begins with.
pub open spec fn lexeme_head(t: TokenType) -> char {
    match t {
        TokenType::SubGroup(_) => '[',
        TokenType::Comment(_) => '/',
        TokenType::LoopStart => '[',
        TokenType::LoopEnd => ']',
        TokenType::Breakpoint => '?',
        _ => match simple_lexeme(t) {
            Some(c) => c,
            None => '?',
        },
    }
}

/// Each token of a tiled group spans the region its recorded range names:
/// from the offset of its start position to the offset of its end position,
/// inside the group's region.
pub proof fn lemma_group_token_region(s: Seq<char>, i: int, j: int, ts: Seq<Token>, m: int)
    requires
        s.len() <= u32::MAX,
        group_matches(s, i, j, ts),
        0 <= m < ts.len(),
    ensures
        i <= off_of(s, ts[m].range.start) < off_of(s, ts[m].range.end) <= j,
        token_at(s, off_of(s, ts[m].range.start), off_of(s, ts[m].range.end), ts[m]),
    decreases j - i, ts.len(),
{
    if i >= j {
        assert(ts.len() == 0);
    } else if is_ws(s[i]) {
        lemma_group_token_region(s, i + 1, j, ts, m);
    } else {
        let k = off_of(s, ts[0].range.end);
        assert(i < k <= j && token_at(s, i, k, ts[0]) && group_matches(s, k, j, ts.drop_first()));
        if m == 0 {
            lemma_off_of_pos_at(s, i);
            lemma_off_of_pos_at(s, k);
            assert(off_of(s, ts[0].range.start) == i);
            assert(off_of(s, ts[0].range.end) == k);
        } else {
            lemma_group_token_region(s, k, j, ts.drop_first(), m - 1);
            assert(ts.drop_first()[m - 1] == ts[m]);
        }
    }
}

/// A token's source region is non-empty and begins with the character its
/// kind stands for: the lexeme itself, `[` for a loop, `/` for a comment.
pub proof fn lemma_token_text(s: Seq<char>, a: int, b: int, t: Token)
    requires
        token_at(s, a, b, t),
    ensures
        0 <= a < b <= s.len(),
        s[a] == lexeme_head(t.token_type),
{
    match t.token_type {
        TokenType::Comment(text) => {
            assert(s.subrange(a, b)[0] == s[a]);
        }
        _ => {}
    }
}

/// A loop token is balanced in the source: it opens with `[`, closes with
/// the matching `]`, and its children tile exactly the region between them.
pub proof fn lemma_loop_balanced(s: Seq<char>, a: int, b: int, t: Token, sg: TokenGroup)
    requires
        token_at(s, a, b, t),
        t.token_type == TokenType::SubGroup(Box::new(sg)),
    ensures
        s[a] == '[',
        s[b - 1] == ']',
        group_matches(s, a + 1, b - 1, sg.token_group@),
{
}

/// Two comments starting at the same offset end at the same offset: the
/// shorter one's terminator or closer would stand inside the longer one.
pub(crate) proof fn lemma_comment_extent_unique(s: Seq<char>, i: int, k1: int, k2: int)
    requires
        comment_shape(s.subrange(i, k1)),
        comment_shape(s.subrange(i, k2)),
        s[i + 1] == '/' ==> k1 == s.len() || s[k1 - 1] == '\n' || s[k1 - 1] == '\r',
        s[i + 1] == '/' ==> k2 == s.len() || s[k2 - 1] == '\n' || s[k2 - 1] == '\r',
        0 <= i,
        i + 2 <= k1 <= s.len(),
        i + 2 <= k2 <= s.len(),
    ensures
        k1 == k2,
{
    if k1 < k2 {
        lemma_comment_not_shorter(s, i, k1, k2);
    }
    if k2 < k1 {
        lemma_comment_not_shorter(s, i, k2, k1);
    }
}

/// The contradiction behind comment-extent uniqueness, one order at a time.
proof fn lemma_comment_not_shorter(s: Seq<char>, i: int, k1: int, k2: int)
    requires
        k1 < k2,
        comment_shape(s.subrange(i, k1)),
        comment_shape(s.subrange(i, k2)),
        s[i + 1] == '/' ==> k1 == s.len() || s[k1 - 1] == '\n' || s[k1 - 1] == '\r',
        0 <= i,
        i + 2 <= k1,
        k2 <= s.len(),
    ensures
        k1 == k2,
{
    let c1 = s.subrange(i, k1);
    let c2 = s.subrange(i, k2);
    assert(c1[1] == s[i + 1] && c2[1] == s[i + 1]);
    if s[i + 1] == '/' {
        // the shorter comment ends with a terminator, which the longer
        // comment's interior cannot contain
        assert(s[k1 - 1] == '\n' || s[k1 - 1] == '\r');
        if k1 == i + 2 {
            assert(c1[1] == s[k1 - 1]);
        } else {
            assert(c2[k1 - 1 - i] == s[k1 - 1]);
        }
    } else {
        // the shorter comment ends with a closer, which the longer
        // comment's interior cannot contain
        assert(c1[k1 - i - 1] == s[k1 - 1]);
        assert(c1[k1 - i - 2] == s[k1 - 2]);
        assert(s[k1 - 1] == '/' && s[k1 - 2] == '*');
        assert(c2[k1 - 1 - i] == s[k1 - 1]);
        assert(c2[k1 - 2 - i] == s[k1 - 2]);
    }
}

/// Any two flat tokens starting at the same offset span the same region:
/// lexemes span one character and comment extents are pinned.
proof fn lemma_flat_token_extent_unique(s: Seq<char>, i: int, k1: int, k2: int, t1: Token, t2: Token)
    requires
        flat_token_at(s, i, k1, t1),
        flat_token_at(s, i, k2, t2),
    ensures
        k1 == k2,
        t1.range == t2.range,
{
    match (t1.token_type, t2.token_type) {
        (TokenType::Comment(x1), TokenType::Comment(x2)) => {
            assert(s.subrange(i, k1)[1] == s[i + 1]);
            lemma_comment_extent_unique(s, i, k1, k2);
        }
        (TokenType::Comment(x1), _) => {
            assert(s.subrange(i, k1)[0] == s[i]);
        }
        (_, TokenType::Comment(x2)) => {
            assert(s.subrange(i, k2)[0] == s[i]);
        }
        _ => {}
    }
}

/// The flat parse of a region is unique in every token's range: any two
/// flat tilings agree token by token on the source positions. This is
/// what pins the breakpoint validator's answer, which reads only the
/// ranges of the flat tokens.
pub proof fn lemma_flat_tiling_ranges_unique(
    s: Seq<char>,
    i: int,
    j: int,
    ts1: Seq<Token>,
    ts2: Seq<Token>,
)
    requires
        flat_matches(s, i, j, ts1),
        flat_matches(s, i, j, ts2),
    ensures
        ts1.len() == ts2.len(),
        forall|m: int| 0 <= m < ts1.len() ==> (#[trigger] ts1[m]).range == ts2[m].range,
    decreases j - i,
{
    if i >= j {
    } else if is_ws(s[i]) {
        lemma_flat_tiling_ranges_unique(s, i + 1, j, ts1, ts2);
    } else {
        let k1 = off_of(s, ts1[0].range.end);
        let k2 = off_of(s, ts2[0].range.end);
        lemma_flat_token_extent_unique(s, i, k1, k2, ts1[0], ts2[0]);
        lemma_flat_tiling_ranges_unique(s, k1, j, ts1.drop_first(), ts2.drop_first());
        assert forall|m: int| 0 <= m < ts1.len() implies (#[trigger] ts1[m]).range == ts2[m].range
            by {
            if m > 0 {
                assert(ts1[m] == ts1.drop_first()[m - 1]);
                assert(ts2[m] == ts2.drop_first()[m - 1]);
            }
        }
    }
}

// ---------------------------------------------------------------------------
// Character access
// ---------------------------------------------------------------------------

broadcast use vstd::string::axiom_spec_iter, vstd::string::next_postcondition;

use vstd::std_specs::iter::IteratorSpec;

/// The characters of a string, in order, as a vector.
pub(crate) fn chars_of(s: &str) -> (r: Vec<char>)
    ensures
        r@ == s@,
{
    let mut r: Vec<char> = Vec::new();
    let mut it = s.chars();
    loop
        invariant
            it.obeys_prophetic_iter_laws(),
            r@ + it.remaining() == s@,
        ensures
            r@ == s@,
        decreases s@.len() - r@.len(),
    {
        match it.next() {
            Some(c) => {
                r.push(c);
                assert(r@ + it.remaining() =~= s@);
            }
            None => {
                assert(r@ =~= s@);
                break;
            }
        }
    }
    r
}

/// Collects characters back into an owned string.
/// Relies on `String`'s `FromIterator` over `char`: the result holds exactly
/// the characters handed in, in order.
#[verifier::external_body]
pub(crate) fn string_from_chars(v: &Vec<char>) -> (r: String)
    ensures
        r@ == v@,
{
    v.iter().collect()
}

// ---------------------------------------------------------------------------
// The parsers
// ---------------------------------------------------------------------------

/// A character cursor that tracks the position reached and the position of
/// the character just consumed.
pub(crate) struct CharsWithPosition {
    pub(crate) chars: Vec<char>,
    pub(crate) idx: usize,
    pub(crate) last_position: Position,
    pub(crate) position: Position,
}

impl CharsWithPosition {
    pub(crate) open spec fn wf(self) -> bool {
        &&& self.idx <= self.chars@.len()
        &&& self.chars@.len() <= u32::MAX
        &&& self.position == pos_at(self.chars@, self.idx as int)
    }

    pub(crate) fn next(&mut self) -> (r: Option<char>)
        requires
            old(self).wf(),
        ensures
            final(self).wf(),
            final(self).chars@ == old(self).chars@,
            final(self).last_position == old(self).position,
            final(self).position == pos_at(old(self).chars@, final(self).idx as int),
            if old(self).idx < old(self).chars@.len() {
                r == Some(old(self).chars@[old(self).idx as int])
                    && final(self).idx == old(self).idx + 1
            } else {
                r is None && final(self).idx == old(self).idx
                    && final(self).position == old(self).position
            },
    {
        let c_option = if self.idx < self.chars.len() {
            Some(self.chars[self.idx])
        } else {
            None
        };
        self.last_position = self.position;
        if let Some(c) = c_option {
            proof {
                lemma_pos_at_bounds(self.chars@, self.idx as int);
            }
            if c == '\n' {
                self.position.move_down();
            } else {
                self.position.move_right();
            }
            self.idx = self.idx + 1;
        }
        c_option
    }
}

/// Lexing mode while the parser walks the source.
enum CommentMode {
    Code,
    Line,
    Para,
}

/// The token kind of a single-character lexeme, if `c` is one.
fn simple_token_type(c: char) -> (r: Option<TokenType>)
    ensures
        match r {
            Some(tt) => simple_lexeme(tt) == Some(c),
            None => c != '>' && c != '<' && c != '+' && c != '-' && c != '.' && c != ',',
        },
{
    match c {
        '>' => Some(TokenType::PointerIncrement),
        '<' => Some(TokenType::PointerDecrement),
        '+' => Some(TokenType::Increment),
        '-' => Some(TokenType::Decrement),
        '.' => Some(TokenType::Output),
        ',' => Some(TokenType::Input),
        _ => None,
    }
}

/// Parses one group of tokens: the whole source when `is_top`, or the body
/// of a loop just after its `[` was consumed.
fn parse_group(chars: &mut CharsWithPosition, is_top: bool) -> (r: Result<ParseResult, ParseError>)
    requires
        old(chars).wf(),
    ensures
        final(chars).wf(),
        final(chars).chars@ == old(chars).chars@,
        old(chars).idx <= final(chars).idx,
        ({
            let s = old(chars).chars@;
            let i0 = old(chars).idx as int;
            let i1 = final(chars).idx as int;
            if is_top {
                match r {
                    Ok(pr) => {
                        &&& scan(s, i0, 0, ScanMode::Code) == ScanOut::Accept(pr.position)
                        &&& pr.position == pos_at(s, s.len() as int)
                        &&& group_matches(s, i0, s.len() as int, pr.parse_token_group.token_group@)
                    }
                    Err(e) => err_matches(e, scan(s, i0, 0, ScanMode::Code)),
                }
            } else {
                match r {
                    Ok(pr) => {
                        &&& i0 < i1 <= s.len()
                        &&& s[i1 - 1] == ']'
                        &&& group_matches(s, i0, i1 - 1, pr.parse_token_group.token_group@)
                        &&& pr.position == pos_at(s, i1)
                        &&& forall|d: nat|
                            d >= 1 ==> #[trigger] scan(s, i0, d, ScanMode::Code) == scan(
                                s,
                                i1,
                                (d - 1) as nat,
                                ScanMode::Code,
                            )
                    }
                    Err(e) => forall|d: nat|
                        d >= 1 ==> err_matches(e, #[trigger] scan(s, i0, d, ScanMode::Code)),
                }
            }
        }),
    decreases old(chars).chars@.len() - old(chars).idx,
{
    let ghost s = chars.chars@;
    let ghost i0 = chars.idx as int;
    let mut v: Vec<Token> = Vec::new();
    let mut stopped = false;
    let mut mode = CommentMode::Code;
    let mut comment_start = Position::new(0, 0);
    let mut buf: Vec<char> = Vec::new();
    let ghost mut cs: int = 0;

    loop
        invariant_except_break
            !stopped,
            s == old(chars).chars@,
            i0 == old(chars).idx as int,
            chars.wf(),
            chars.chars@ == s,
            i0 <= chars.idx as int <= s.len(),
            mode matches CommentMode::Code ==> group_matches(s, i0, chars.idx as int, v@) && (
            forall|d: nat|
                #[trigger] scan(s, i0, d, ScanMode::Code) == scan(
                    s,
                    chars.idx as int,
                    d,
                    ScanMode::Code,
                )),
            mode matches CommentMode::Line ==> {
                &&& i0 <= cs
                &&& cs + 2 <= chars.idx as int
                &&& s[cs] == '/'
                &&& s[cs + 1] == '/'
                &&& comment_start == pos_at(s, cs)
                &&& buf@ == s.subrange(cs, chars.idx as int)
                &&& group_matches(s, i0, cs, v@)
                &&& forall|k: int|
                    cs + 2 <= k < chars.idx as int ==> !((#[trigger] s[k]) == '\n' || s[k]
                        == '\r')
                &&& forall|d: nat|
                    #[trigger] scan(s, i0, d, ScanMode::Code) == scan(
                        s,
                        chars.idx as int,
                        d,
                        ScanMode::Line(cs),
                    )
            },
            mode matches CommentMode::Para ==> {
                &&& i0 <= cs
                &&& cs + 2 <= chars.idx as int
                &&& s[cs] == '/'
                &&& s[cs + 1] == '*'
                &&& comment_start == pos_at(s, cs)
                &&& buf@ == s.subrange(cs, chars.idx as int)
                &&& group_matches(s, i0, cs, v@)
                &&& forall|k: int|
                    cs + 3 <= k < chars.idx as int ==> !((#[trigger] s[k]) == '/' && s[k - 1]
                        == '*')
                &&& forall|d: nat|
                    #[trigger] scan(s, i0, d, ScanMode::Code) == scan(
                        s,
                        chars.idx as int,
                        d,
                        ScanMode::Para(cs),
                    )
            },
        ensures
            s == old(chars).chars@,
            i0 == old(chars).idx as int,
            chars.wf(),
            chars.chars@ == s,
            i0 <= chars.idx as int <= s.len(),
            stopped ==> {
                &&& mode matches CommentMode::Code
                &&& i0 < chars.idx as int
                &&& s[chars.idx as int - 1] == ']'
                &&& group_matches(s, i0, chars.idx as int - 1, v@)
                &&& forall|d: nat|
                    #[trigger] scan(s, i0, d, ScanMode::Code) == scan(
                        s,
                        chars.idx as int - 1,
                        d,
                        ScanMode::Code,
                    )
            },
            !stopped ==> {
                &&& chars.idx as int == s.len()
                &&& chars.last_position == pos_at(s, s.len() as int)
                &&& chars.position == pos_at(s, s.len() as int)
                &&& (mode matches CommentMode::Code ==> group_matches(
                    s,
                    i0,
                    chars.idx as int,
                    v@,
                ) && (forall|d: nat|
                    #[trigger] scan(s, i0, d, ScanMode::Code) == scan(
                        s,
                        chars.idx as int,
                        d,
                        ScanMode::Code,
                    )))
                &&& (mode matches CommentMode::Line ==> {
                    &&& i0 <= cs
                    &&& cs + 2 <= chars.idx as int
                    &&& s[cs] == '/'
                    &&& s[cs + 1] == '/'
                    &&& comment_start == pos_at(s, cs)
                    &&& buf@ == s.subrange(cs, chars.idx as int)
                    &&& group_matches(s, i0, cs, v@)
                    &&& forall|k: int|
                        cs + 2 <= k < chars.idx as int ==> !((#[trigger] s[k]) == '\n' || s[k]
                            == '\r')
                    &&& forall|d: nat|
                        #[trigger] scan(s, i0, d, ScanMode::Code) == scan(
                            s,
                            chars.idx as int,
                            d,
                            ScanMode::Line(cs),
                        )
                })
                &&& (mode matches CommentMode::Para ==> forall|d: nat|
                    #[trigger] scan(s, i0, d, ScanMode::Code) == scan(
                        s,
                        chars.idx as int,
                        d,
                        ScanMode::Para(cs),
                    ))
            },
        decreases s.len() - chars.idx as int,
    {
        let c_opt = chars.next();
        if c_opt.is_none() {
            break;
        }
        let c = c_opt.unwrap();
        let ghost i = chars.idx as int - 1;
        match mode {
            CommentMode::Code => {
                let start = chars.last_position;
                match simple_token_type(c) {
                    Some(tt) => {
                        let tok = Token { range: Range { start, end: chars.position }, token_type: tt };
                        let ghost vold = v@;
                        v.push(tok);
                        proof {
                            assert(token_at(s, i, i + 1, tok));
                            lemma_group_append(s, i0, i, i + 1, vold, tok);
                            assert forall|d: nat|
                                #[trigger] scan(s, i0, d, ScanMode::Code) == scan(
                                    s,
                                    i + 1,
                                    d,
                                    ScanMode::Code,
                                ) by {
                                assert(scan(s, i, d, ScanMode::Code) == scan(
                                    s,
                                    i + 1,
                                    d,
                                    ScanMode::Code,
                                ));
                            }
                        }
                    }
                    None => {
                        if c == '[' {
                            match parse_group(chars, false) {
                                Ok(sub) => {
                                    let tok = Token {
                                        range: Range { start, end: chars.position },
                                        token_type: TokenType::SubGroup(
                                            Box::new(sub.parse_token_group),
                                        ),
                                    };
                                    let ghost i2 = chars.idx as int;
                                    let ghost vold = v@;
                                    v.push(tok);
                                    proof {
                                        assert(token_at(s, i, i2, tok));
                                        lemma_group_append(s, i0, i, i2, vold, tok);
                                        assert forall|d: nat|
                                            #[trigger] scan(s, i0, d, ScanMode::Code) == scan(
                                                s,
                                                i2,
                                                d,
                                                ScanMode::Code,
                                            ) by {
                                            assert(scan(s, i, d, ScanMode::Code) == scan(
                                                s,
                                                i + 1,
                                                (d + 1) as nat,
                                                ScanMode::Code,
                                            ));
                                            assert(scan(s, i + 1, (d + 1) as nat, ScanMode::Code)
                                                == scan(s, i2, d, ScanMode::Code));
                                        }
                                    }
                                }
                                Err(e) => {
                                    proof {
                                        assert forall|d: nat|
                                            err_matches(
                                                e,
                                                #[trigger] scan(s, i0, d, ScanMode::Code),
                                            ) by {
                                            assert(scan(s, i, d, ScanMode::Code) == scan(
                                                s,
                                                i + 1,
                                                (d + 1) as nat,
                                                ScanMode::Code,
                                            ));
                                            assert(err_matches(
                                                e,
                                                scan(s, i + 1, (d + 1) as nat, ScanMode::Code),
                                            ));
                                        }
                                    }
                                    return Err(e);
                                }
                            }
                        } else if c == ']' {
                            stopped = true;
                            break;
                        } else if c == ' ' || c == '\n' || c == '\t' || c == '\r' {
                            proof {
                                lemma_group_ws(s, i0, i, v@);
                                assert forall|d: nat|
                                    #[trigger] scan(s, i0, d, ScanMode::Code) == scan(
                                        s,
                                        i + 1,
                                        d,
                                        ScanMode::Code,
                                    ) by {
                                    assert(scan(s, i, d, ScanMode::Code) == scan(
                                        s,
                                        i + 1,
                                        d,
                                        ScanMode::Code,
                                    ));
                                }
                            }
                        } else if c == '/' {
                            let c2 = chars.next();
                            if c2.is_some() && c2.unwrap() == '/' {
                                mode = CommentMode::Line;
                                comment_start = start;
                                let mut nb: Vec<char> = Vec::new();
                                nb.push('/');
                                nb.push('/');
                                buf = nb;
                                proof {
                                    cs = i;
                                    assert(buf@ =~= s.subrange(i, i + 2));
                                    assert forall|d: nat|
                                        #[trigger] scan(s, i0, d, ScanMode::Code) == scan(
                                            s,
                                            i + 2,
                                            d,
                                            ScanMode::Line(i),
                                        ) by {
                                        assert(scan(s, i, d, ScanMode::Code) == scan(
                                            s,
                                            i + 2,
                                            d,
                                            ScanMode::Line(i),
                                        ));
                                    }
                                }
                            } else if c2.is_some() && c2.unwrap() == '*' {
                                mode = CommentMode::Para;
                                comment_start = start;
                                let mut nb: Vec<char> = Vec::new();
                                nb.push('/');
                                nb.push('*');
                                buf = nb;
                                proof {
                                    cs = i;
                                    assert(buf@ =~= s.subrange(i, i + 2));
                                    assert forall|d: nat|
                                        #[trigger] scan(s, i0, d, ScanMode::Code) == scan(
                                            s,
                                            i + 2,
                                            d,
                                            ScanMode::Para(i),
                                        ) by {
                                        assert(scan(s, i, d, ScanMode::Code) == scan(
                                            s,
                                            i + 2,
                                            d,
                                            ScanMode::Para(i),
                                        ));
                                    }
                                }
                            } else {
                                let p = chars.last_position;
                                proof {
                                    assert forall|d: nat|
                                        #[trigger] scan(s, i0, d, ScanMode::Code) == ScanOut::Invalid(
                                            pos_at(s, i + 1),
                                        ) by {
                                        assert(scan(s, i, d, ScanMode::Code) == ScanOut::Invalid(
                                            pos_at(s, i + 1),
                                        ));
                                    }
                                }
                                return Err(ParseError {
                                    range: Range { start: p, end: p },
                                    error_message: "Invalid token".to_owned(),
                                });
                            }
                        } else {
                            let p = chars.last_position;
                            proof {
                                assert forall|d: nat|
                                    #[trigger] scan(s, i0, d, ScanMode::Code) == ScanOut::Invalid(
                                        pos_at(s, i),
                                    ) by {
                                    assert(scan(s, i, d, ScanMode::Code) == ScanOut::Invalid(
                                        pos_at(s, i),
                                    ));
                                }
                            }
                            return Err(ParseError {
                                range: Range { start: p, end: p },
                                error_message: "Invalid token".to_owned(),
                            });
                        }
                    }
                }
            }
            CommentMode::Line => {
                buf.push(c);
                proof {
                    assert(buf@ =~= s.subrange(cs, i + 1));
                }
                if c == '\n' || c == '\r' {
                    let text = string_from_chars(&buf);
                    let tok = Token {
                        range: Range { start: comment_start, end: chars.position },
                        token_type: TokenType::Comment(text),
                    };
                    let ghost vold = v@;
                    v.push(tok);
                    mode = CommentMode::Code;
                    buf = Vec::new();
                    proof {
                        assert(s.subrange(cs, i + 1)[0] == s[cs]);
                        assert(s.subrange(cs, i + 1)[1] == s[cs + 1]);
                        assert forall|m: int|
                            2 <= m < (i + 1 - cs) - 1 implies !((#[trigger] s.subrange(cs, i + 1)[m]) == '\n'
                            || s.subrange(cs, i + 1)[m] == '\r') by {
                            assert(s.subrange(cs, i + 1)[m] == s[cs + m]);
                        }
                        assert(token_at(s, cs, i + 1, tok));
                        lemma_group_append(s, i0, cs, i + 1, vold, tok);
                        assert forall|d: nat|
                            #[trigger] scan(s, i0, d, ScanMode::Code) == scan(
                                s,
                                i + 1,
                                d,
                                ScanMode::Code,
                            ) by {
                            assert(scan(s, i, d, ScanMode::Line(cs)) == scan(
                                s,
                                i + 1,
                                d,
                                ScanMode::Code,
                            ));
                        }
                    }
                } else {
                    proof {
                        assert forall|d: nat|
                            #[trigger] scan(s, i0, d, ScanMode::Code) == scan(
                                s,
                                i + 1,
                                d,
                                ScanMode::Line(cs),
                            ) by {
                            assert(scan(s, i, d, ScanMode::Line(cs)) == scan(
                                s,
                                i + 1,
                                d,
                                ScanMode::Line(cs),
                            ));
                        }
                    }
                }
            }
            CommentMode::Para => {
                buf.push(c);
                proof {
                    assert(buf@ =~= s.subrange(cs, i + 1));
                }
                if c == '/' && buf.len() >= 4 && buf[buf.len() - 2] == '*' {
                    let text = string_from_chars(&buf);
                    let tok = Token {
                        range: Range { start: comment_start, end: chars.position },
                        token_type: TokenType::Comment(text),
                    };
                    let ghost vold = v@;
                    v.push(tok);
                    mode = CommentMode::Code;
                    buf = Vec::new();
                    proof {
                        assert(s.subrange(cs, i + 1)[0] == s[cs]);
                        assert(s.subrange(cs, i + 1)[1] == s[cs + 1]);
                        assert(s.subrange(cs, i + 1)[i - cs] == s[i]);
                        assert(s.subrange(cs, i + 1)[i - 1 - cs] == s[i - 1]);
                        assert forall|m: int|
                            3 <= m < (i + 1 - cs) - 1 implies !((#[trigger] s.subrange(cs, i + 1)[m]) == '/'
                            && s.subrange(cs, i + 1)[m - 1] == '*') by {
                            assert(s.subrange(cs, i + 1)[m] == s[cs + m]);
                            assert(s.subrange(cs, i + 1)[m - 1] == s[cs + m - 1]);
                        }
                        assert(token_at(s, cs, i + 1, tok));
                        lemma_group_append(s, i0, cs, i + 1, vold, tok);
                        assert forall|d: nat|
                            #[trigger] scan(s, i0, d, ScanMode::Code) == scan(
                                s,
                                i + 1,
                                d,
                                ScanMode::Code,
                            ) by {
                            assert(s[i - 1] == s.subrange(cs, i + 1)[i - 1 - cs]);
                            assert(scan(s, i, d, ScanMode::Para(cs)) == scan(
                                s,
                                i + 1,
                                d,
                                ScanMode::Code,
                            ));
                        }
                    }
                } else {
                    proof {
                        assert forall|d: nat|
                            #[trigger] scan(s, i0, d, ScanMode::Code) == scan(
                                s,
                                i + 1,
                                d,
                                ScanMode::Para(cs),
                            ) by {
                            if c == '/' && i - cs + 1 >= 4 {
                                assert(s[i - 1] == s.subrange(cs, i + 1)[i - 1 - cs]);
                            }
                            assert(scan(s, i, d, ScanMode::Para(cs)) == scan(
                                s,
                                i + 1,
                                d,
                                ScanMode::Para(cs),
                            ));
                        }
                    }
                }
            }
        }
    }

    let ghost i1 = chars.idx as int;
    match mode {
        CommentMode::Line => {
            let text = string_from_chars(&buf);
            let tok = Token {
                range: Range { start: comment_start, end: chars.position },
                token_type: TokenType::Comment(text),
            };
            let ghost vold = v@;
            v.push(tok);
            proof {
                assert(s.subrange(cs, s.len() as int)[0] == s[cs]);
                assert(s.subrange(cs, s.len() as int)[1] == s[cs + 1]);
                assert forall|m: int|
                    2 <= m < (s.len() - cs) - 1 implies !((#[trigger] s.subrange(cs, s.len() as int)[m])
                    == '\n' || s.subrange(cs, s.len() as int)[m] == '\r') by {
                    assert(s.subrange(cs, s.len() as int)[m] == s[cs + m]);
                }
                assert(token_at(s, cs, s.len() as int, tok));
                lemma_group_append(s, i0, cs, s.len() as int, vold, tok);
            }
        }
        CommentMode::Para => {
            let p = chars.last_position;
            proof {
                assert forall|d: nat|
                    #[trigger] scan(s, i0, d, ScanMode::Code) == ScanOut::Unterminated(
                        pos_at(s, s.len() as int),
                    ) by {
                    assert(scan(s, s.len() as int, d, ScanMode::Para(cs))
                        == ScanOut::Unterminated(pos_at(s, s.len() as int)));
                }
            }
            return Err(ParseError {
                range: Range { start: p, end: p },
                error_message: "Paragraph comment missing end flag.".to_owned(),
            });
        }
        CommentMode::Code => {}
    }

    proof {
        if !stopped {
            assert forall|d: nat|
                #[trigger] scan(s, i0, d, ScanMode::Code) == (if d > 0 {
                    ScanOut::MoreOpen(pos_at(s, s.len() as int))
                } else {
                    ScanOut::Accept(pos_at(s, s.len() as int))
                }) by {
                match mode {
                    CommentMode::Code => {
                        assert(scan(s, i1, d, ScanMode::Code) == (if d > 0 {
                            ScanOut::MoreOpen(pos_at(s, s.len() as int))
                        } else {
                            ScanOut::Accept(pos_at(s, s.len() as int))
                        }));
                    }
                    CommentMode::Line => {
                        assert(scan(s, i1, d, ScanMode::Line(cs)) == (if d > 0 {
                            ScanOut::MoreOpen(pos_at(s, s.len() as int))
                        } else {
                            ScanOut::Accept(pos_at(s, s.len() as int))
                        }));
                    }
                    CommentMode::Para => {
                        assert(false);
                    }
                }
            }
        }
    }

    if is_top && stopped {
        let p = chars.position;
        proof {
            assert(scan(s, i0, 0, ScanMode::Code) == scan(s, i1 - 1, 0, ScanMode::Code));
            assert(scan(s, i1 - 1, 0, ScanMode::Code) == ScanOut::MoreClose(pos_at(s, i1)));
        }
        return Err(ParseError {
            range: Range { start: p, end: p },
            error_message: "More ] found".to_owned(),
        });
    }
    if !is_top && !stopped {
        let p = chars.last_position;
        return Err(ParseError {
            range: Range { start: p, end: p },
            error_message: "More [ found".to_owned(),
        });
    }
    proof {
        if !is_top {
            assert forall|d: nat|
                d >= 1 implies #[trigger] scan(s, i0, d, ScanMode::Code) == scan(
                    s,
                    i1,
                    (d - 1) as nat,
                    ScanMode::Code,
                ) by {
                assert(scan(s, i0, d, ScanMode::Code) == scan(s, i1 - 1, d, ScanMode::Code));
                assert(scan(s, i1 - 1, d, ScanMode::Code) == scan(
                    s,
                    i1,
                    (d - 1) as nat,
                    ScanMode::Code,
                ));
            }
        }
    }
    Ok(ParseResult { position: chars.position, parse_token_group: TokenGroup { token_group: v } })
}

/// Parses a source text into the nested token tree and the final position
/// reached. Exactly the sources the scanner accepts parse; any other yields
/// the error the scanner names, with its position.
pub fn parse(input: &str) -> (r: Result<ParseResult, ParseError>)
    requires
        input@.len() <= u32::MAX,
    ensures
        ({
            let s = input@;
            match r {
                Ok(pr) => {
                    &&& scan(s, 0, 0, ScanMode::Code) == ScanOut::Accept(pr.position)
                    &&& pr.position == pos_at(s, s.len() as int)
                    &&& group_matches(s, 0, s.len() as int, pr.parse_token_group.token_group@)
                }
                Err(e) => err_matches(e, scan(s, 0, 0, ScanMode::Code)),
            }
        }),
{
    let cv = chars_of(input);
    let mut chars_with_position = CharsWithPosition {
        chars: cv,
        idx: 0,
        last_position: Position::new(0, 0),
        position: Position::new(0, 0),
    };
    parse_group(&mut chars_with_position, true)
}

/// The token kind of a single-character lexeme of the flat parse, brackets
/// included, if `c` is one.
fn flat_token_type(c: char) -> (r: Option<TokenType>)
    ensures
        match r {
            Some(tt) => flat_lexeme(tt) == Some(c),
            None => c != '>' && c != '<' && c != '+' && c != '-' && c != '.' && c != ','
                && c != '[' && c != ']',
        },
{
    match c {
        '[' => Some(TokenType::LoopStart),
        ']' => Some(TokenType::LoopEnd),
        _ => simple_token_type(c),
    }
}

/// Parses a source text into the flat token list: the same lexemes as
/// `parse`, but `[` and `]` are ordinary tokens and loops are not nested.
/// The breakpoint validator iterates this list in source order.
pub fn flat_parse(input: &str) -> (r: Result<ParseResult, ParseError>)
    requires
        input@.len() <= u32::MAX,
    ensures
        ({
            let s = input@;
            match r {
                Ok(pr) => {
                    &&& flat_scan(s, 0, ScanMode::Code) == ScanOut::Accept(pr.position)
                    &&& pr.position == pos_at(s, s.len() as int)
                    &&& flat_matches(s, 0, s.len() as int, pr.parse_token_group.token_group@)
                }
                Err(e) => err_matches(e, flat_scan(s, 0, ScanMode::Code)),
            }
        }),
{
    let cv = chars_of(input);
    let mut chars = CharsWithPosition {
        chars: cv,
        idx: 0,
        last_position: Position::new(0, 0),
        position: Position::new(0, 0),
    };
    let ghost s = chars.chars@;
    let mut v: Vec<Token> = Vec::new();
    let mut mode = CommentMode::Code;
    let mut comment_start = Position::new(0, 0);
    let mut buf: Vec<char> = Vec::new();
    let ghost mut cs: int = 0;

    loop
        invariant_except_break
            s == input@,
            chars.wf(),
            chars.chars@ == s,
            chars.idx as int <= s.len(),
            mode matches CommentMode::Code ==> flat_matches(s, 0, chars.idx as int, v@)
                && flat_scan(s, 0, ScanMode::Code) == flat_scan(
                s,
                chars.idx as int,
                ScanMode::Code,
            ),
            mode matches CommentMode::Line ==> {
                &&& 0 <= cs
                &&& cs + 2 <= chars.idx as int
                &&& s[cs] == '/'
                &&& s[cs + 1] == '/'
                &&& comment_start == pos_at(s, cs)
                &&& buf@ == s.subrange(cs, chars.idx as int)
                &&& flat_matches(s, 0, cs, v@)
                &&& forall|k: int|
                    cs + 2 <= k < chars.idx as int ==> !((#[trigger] s[k]) == '\n' || s[k]
                        == '\r')
                &&& flat_scan(s, 0, ScanMode::Code) == flat_scan(
                    s,
                    chars.idx as int,
                    ScanMode::Line(cs),
                )
            },
            mode matches CommentMode::Para ==> {
                &&& 0 <= cs
                &&& cs + 2 <= chars.idx as int
                &&& s[cs] == '/'
                &&& s[cs + 1] == '*'
                &&& comment_start == pos_at(s, cs)
                &&& buf@ == s.subrange(cs, chars.idx as int)
                &&& flat_matches(s, 0, cs, v@)
                &&& forall|k: int|
                    cs + 3 <= k < chars.idx as int ==> !((#[trigger] s[k]) == '/' && s[k - 1]
                        == '*')
                &&& flat_scan(s, 0, ScanMode::Code) == flat_scan(
                    s,
                    chars.idx as int,
                    ScanMode::Para(cs),
                )
            },
        ensures
            s == input@,
            chars.wf(),
            chars.chars@ == s,
            chars.idx as int == s.len(),
            chars.last_position == pos_at(s, s.len() as int),
            chars.position == pos_at(s, s.len() as int),
            mode matches CommentMode::Code ==> flat_matches(s, 0, chars.idx as int, v@)
                && flat_scan(s, 0, ScanMode::Code) == flat_scan(
                s,
                chars.idx as int,
                ScanMode::Code,
            ),
            mode matches CommentMode::Line ==> {
                &&& 0 <= cs
                &&& cs + 2 <= chars.idx as int
                &&& s[cs] == '/'
                &&& s[cs + 1] == '/'
                &&& comment_start == pos_at(s, cs)
                &&& buf@ == s.subrange(cs, chars.idx as int)
                &&& flat_matches(s, 0, cs, v@)
                &&& forall|k: int|
                    cs + 2 <= k < chars.idx as int ==> !((#[trigger] s[k]) == '\n' || s[k]
                        == '\r')
                &&& flat_scan(s, 0, ScanMode::Code) == flat_scan(
                    s,
                    chars.idx as int,
                    ScanMode::Line(cs),
                )
            },
            mode matches CommentMode::Para ==> flat_scan(s, 0, ScanMode::Code) == flat_scan(
                s,
                chars.idx as int,
                ScanMode::Para(cs),
            ),
        decreases s.len() - chars.idx as int,
    {
        let c_opt = chars.next();
        if c_opt.is_none() {
            break;
        }
        let c = c_opt.unwrap();
        let ghost i = chars.idx as int - 1;
        match mode {
            CommentMode::Code => {
                let start = chars.last_position;
                match flat_token_type(c) {
                    Some(tt) => {
                        let tok = Token { range: Range { start, end: chars.position }, token_type: tt };
                        let ghost vold = v@;
                        v.push(tok);
                        proof {
                            assert(flat_token_at(s, i, i + 1, tok));
                            lemma_flat_append(s, 0, i, i + 1, vold, tok);
                            assert(flat_scan(s, i, ScanMode::Code) == flat_scan(
                                s,
                                i + 1,
                                ScanMode::Code,
                            ));
                        }
                    }
                    None => {
                        if c == ' ' || c == '\n' || c == '\t' || c == '\r' {
                            proof {
                                lemma_flat_ws(s, 0, i, v@);
                                assert(flat_scan(s, i, ScanMode::Code) == flat_scan(
                                    s,
                                    i + 1,
                                    ScanMode::Code,
                                ));
                            }
                        } else if c == '/' {
                            let c2 = chars.next();
                            if c2.is_some() && c2.unwrap() == '/' {
                                mode = CommentMode::Line;
                                comment_start = start;
                                let mut nb: Vec<char> = Vec::new();
                                nb.push('/');
                                nb.push('/');
                                buf = nb;
                                proof {
                                    cs = i;
                                    assert(buf@ =~= s.subrange(i, i + 2));
                                    assert(flat_scan(s, i, ScanMode::Code) == flat_scan(
                                        s,
                                        i + 2,
                                        ScanMode::Line(i),
                                    ));
                                }
                            } else if c2.is_some() && c2.unwrap() == '*' {
                                mode = CommentMode::Para;
                                comment_start = start;
                                let mut nb: Vec<char> = Vec::new();
                                nb.push('/');
                                nb.push('*');
                                buf = nb;
                                proof {
                                    cs = i;
                                    assert(buf@ =~= s.subrange(i, i + 2));
                                    assert(flat_scan(s, i, ScanMode::Code) == flat_scan(
                                        s,
                                        i + 2,
                                        ScanMode::Para(i),
                                    ));
                                }
                            } else {
                                let p = chars.last_position;
                                proof {
                                    assert(flat_scan(s, i, ScanMode::Code) == ScanOut::Invalid(
                                        pos_at(s, i + 1),
                                    ));
                                }
                                return Err(ParseError {
                                    range: Range { start: p, end: p },
                                    error_message: "Invalid token".to_owned(),
                                });
                            }
                        } else {
                            let p = chars.last_position;
                            proof {
                                assert(flat_scan(s, i, ScanMode::Code) == ScanOut::Invalid(
                                    pos_at(s, i),
                                ));
                            }
                            return Err(ParseError {
                                range: Range { start: p, end: p },
                                error_message: "Invalid token".to_owned(),
                            });
                        }
                    }
                }
            }
            CommentMode::Line => {
                buf.push(c);
                proof {
                    assert(buf@ =~= s.subrange(cs, i + 1));
                }
                if c == '\n' || c == '\r' {
                    let text = string_from_chars(&buf);
                    let tok = Token {
                        range: Range { start: comment_start, end: chars.position },
                        token_type: TokenType::Comment(text),
                    };
                    let ghost vold = v@;
                    v.push(tok);
                    mode = CommentMode::Code;
                    buf = Vec::new();
                    proof {
                        assert(s.subrange(cs, i + 1)[0] == s[cs]);
                        assert(s.subrange(cs, i + 1)[1] == s[cs + 1]);
                        assert forall|m: int|
                            2 <= m < (i + 1 - cs) - 1 implies !((#[trigger] s.subrange(cs, i + 1)[m]) == '\n'
                            || s.subrange(cs, i + 1)[m] == '\r') by {
                            assert(s.subrange(cs, i + 1)[m] == s[cs + m]);
                        }
                        assert(flat_token_at(s, cs, i + 1, tok));
                        lemma_flat_append(s, 0, cs, i + 1, vold, tok);
                        assert(flat_scan(s, i, ScanMode::Line(cs)) == flat_scan(
                            s,
                            i + 1,
                            ScanMode::Code,
                        ));
                    }
                } else {
                    proof {
                        assert(flat_scan(s, i, ScanMode::Line(cs)) == flat_scan(
                            s,
                            i + 1,
                            ScanMode::Line(cs),
                        ));
                    }
                }
            }
            CommentMode::Para => {
                buf.push(c);
                proof {
                    assert(buf@ =~= s.subrange(cs, i + 1));
                }
                if c == '/' && buf.len() >= 4 && buf[buf.len() - 2] == '*' {
                    let text = string_from_chars(&buf);
                    let tok = Token {
                        range: Range { start: comment_start, end: chars.position },
                        token_type: TokenType::Comment(text),
                    };
                    let ghost vold = v@;
                    v.push(tok);
                    mode = CommentMode::Code;
                    buf = Vec::new();
                    proof {
                        assert(s.subrange(cs, i + 1)[0] == s[cs]);
                        assert(s.subrange(cs, i + 1)[1] == s[cs + 1]);
                        assert(s.subrange(cs, i + 1)[i - cs] == s[i]);
                        assert(s.subrange(cs, i + 1)[i - 1 - cs] == s[i - 1]);
                        assert forall|m: int|
                            3 <= m < (i + 1 - cs) - 1 implies !((#[trigger] s.subrange(cs, i + 1)[m]) == '/'
                            && s.subrange(cs, i + 1)[m - 1] == '*') by {
                            assert(s.subrange(cs, i + 1)[m] == s[cs + m]);
                            assert(s.subrange(cs, i + 1)[m - 1] == s[cs + m - 1]);
                        }
                        assert(flat_token_at(s, cs, i + 1, tok));
                        lemma_flat_append(s, 0, cs, i + 1, vold, tok);
                        assert(s[i - 1] == s.subrange(cs, i + 1)[i - 1 - cs]);
                        assert(flat_scan(s, i, ScanMode::Para(cs)) == flat_scan(
                            s,
                            i + 1,
                            ScanMode::Code,
                        ));
                    }
                } else {
                    proof {
                        if c == '/' && i - cs + 1 >= 4 {
                            assert(s[i - 1] == s.subrange(cs, i + 1)[i - 1 - cs]);
                        }
                        assert(flat_scan(s, i, ScanMode::Para(cs)) == flat_scan(
                            s,
                            i + 1,
                            ScanMode::Para(cs),
                        ));
                    }
                }
            }
        }
    }

    match mode {
        CommentMode::Line => {
            let text = string_from_chars(&buf);
            let tok = Token {
                range: Range { start: comment_start, end: chars.position },
                token_type: TokenType::Comment(text),
            };
            let ghost vold = v@;
            v.push(tok);
            proof {
                assert(s.subrange(cs, s.len() as int)[0] == s[cs]);
                assert(s.subrange(cs, s.len() as int)[1] == s[cs + 1]);
                assert forall|m: int|
                    2 <= m < (s.len() - cs) - 1 implies !((#[trigger] s.subrange(cs, s.len() as int)[m])
                    == '\n' || s.subrange(cs, s.len() as int)[m] == '\r') by {
                    assert(s.subrange(cs, s.len() as int)[m] == s[cs + m]);
                }
                assert(flat_token_at(s, cs, s.len() as int, tok));
                lemma_flat_append(s, 0, cs, s.len() as int, vold, tok);
            }
        }
        CommentMode::Para => {
            let p = chars.last_position;
            proof {
                assert(flat_scan(s, s.len() as int, ScanMode::Para(cs))
                    == ScanOut::Unterminated(pos_at(s, s.len() as int)));
            }
            return Err(ParseError {
                range: Range { start: p, end: p },
                error_message: "Paragraph comment missing end flag.".to_owned(),
            });
        }
        CommentMode::Code => {}
    }
    proof {
        match mode {
            CommentMode::Code => {
                assert(flat_scan(s, s.len() as int, ScanMode::Code) == ScanOut::Accept(
                    pos_at(s, s.len() as int),
                ));
            }
            CommentMode::Line => {
                assert(flat_scan(s, s.len() as int, ScanMode::Line(cs)) == ScanOut::Accept(
                    pos_at(s, s.len() as int),
                ));
            }
            CommentMode::Para => {
                assert(false);
            }
        }
    }
    Ok(ParseResult { position: chars.position, parse_token_group: TokenGroup { token_group: v } })
}

/// The single source character a token stands for; `?` for tokens that do
/// not stand for one (loops, comments, breakpoints).
pub fn token_to_char(token: &Token) -> (r: char)
    ensures
        r == (match flat_lexeme(token.token_type) {
            Some(c) => c,
            None => '?',
        }),
{
    match &token.token_type {
        TokenType::PointerIncrement => '>',
        TokenType::PointerDecrement => '<',
        TokenType::Increment => '+',
        TokenType::Decrement => '-',
        TokenType::Output => '.',
        TokenType::Input => ',',
        TokenType::LoopStart => '[',
        TokenType::LoopEnd => ']',
        _ => '?',
    }
}

} // verus!
