//! Lexer: scans source text into a sequence of tokens with line/column
//! tracking. The mathematical model is [`lex_next`] (one token step) and
//! [`lex_from`] (the whole stream); the executable [`TokenIterator`] is
//! proved to follow the model step by step.
use vstd::prelude::*;
use vstd::string::*;

verus! {

// ----- character classes -----

/// Space or tab: the only characters that form a `Whitespace` token.
pub open spec fn is_space_char(c: char) -> bool {
    c == ' ' || c == '\t'
}

/// An ASCII decimal digit.
pub open spec fn is_digit_char(c: char) -> bool {
    '0' <= c && c <= '9'
}

/// The fixed set of symbol characters that may start an identifier.
pub open spec fn is_symbol_initial_char(c: char) -> bool {
    c == '!' || c == '$' || c == '%' || c == '&' || c == '*' || c == '/' || c == ':' || c == '<'
        || c == '=' || c == '>' || c == '?' || c == '^' || c == '_' || c == '~'
}

/// An ASCII letter.
pub open spec fn is_alpha_char(c: char) -> bool {
    ('a' <= c && c <= 'z') || ('A' <= c && c <= 'Z')
}

/// A character that can start an identifier: a letter, a symbol-initial
/// character, or a sign.
pub open spec fn is_initial_char(c: char) -> bool {
    is_alpha_char(c) || is_symbol_initial_char(c) || c == '+' || c == '-'
}

/// A character that can continue an identifier.
pub open spec fn is_subsequent_char(c: char) -> bool {
    is_initial_char(c) || is_digit_char(c) || c == '.' || c == '@'
}

// ----- run lengths -----

/// Number of consecutive newline characters starting at `i`.
pub open spec fn newline_count(s: Seq<char>, i: int) -> nat
    decreases s.len() - i,
{
    if 0 <= i && i < s.len() && s[i] == '\n' {
        (1 + newline_count(s, i + 1)) as nat
    } else {
        0
    }
}

/// Number of consecutive space/tab characters starting at `i`.
pub open spec fn space_count(s: Seq<char>, i: int) -> nat
    decreases s.len() - i,
{
    if 0 <= i && i < s.len() && is_space_char(s[i]) {
        (1 + space_count(s, i + 1)) as nat
    } else {
        0
    }
}

/// Number of consecutive identifier-subsequent characters starting at `i`.
pub open spec fn subsequent_count(s: Seq<char>, i: int) -> nat
    decreases s.len() - i,
{
    if 0 <= i && i < s.len() && is_subsequent_char(s[i]) {
        (1 + subsequent_count(s, i + 1)) as nat
    } else {
        0
    }
}

/// Number of consecutive digit characters starting at `i`.
pub open spec fn digit_count(s: Seq<char>, i: int) -> nat
    decreases s.len() - i,
{
    if 0 <= i && i < s.len() && is_digit_char(s[i]) {
        (1 + digit_count(s, i + 1)) as nat
    } else {
        0
    }
}

pub proof fn lemma_newline_count_bound(s: Seq<char>, i: int)
    ensures
        i + newline_count(s, i) <= s.len() || newline_count(s, i) == 0,
    decreases s.len() - i,
{
    if 0 <= i && i < s.len() && s[i] == '\n' {
        lemma_newline_count_bound(s, i + 1);
    }
}

pub proof fn lemma_space_count_bound(s: Seq<char>, i: int)
    ensures
        i + space_count(s, i) <= s.len() || space_count(s, i) == 0,
    decreases s.len() - i,
{
    if 0 <= i && i < s.len() && is_space_char(s[i]) {
        lemma_space_count_bound(s, i + 1);
    }
}

pub proof fn lemma_subsequent_count_bound(s: Seq<char>, i: int)
    ensures
        i + subsequent_count(s, i) <= s.len() || subsequent_count(s, i) == 0,
    decreases s.len() - i,
{
    if 0 <= i && i < s.len() && is_subsequent_char(s[i]) {
        lemma_subsequent_count_bound(s, i + 1);
    }
}

pub proof fn lemma_digit_count_bound(s: Seq<char>, i: int)
    ensures
        i + digit_count(s, i) <= s.len() || digit_count(s, i) == 0,
    decreases s.len() - i,
{
    if 0 <= i && i < s.len() && is_digit_char(s[i]) {
        lemma_digit_count_bound(s, i + 1);
    }
}

// ----- digit runs as numbers -----

/// The numeric value of one digit character.
pub open spec fn digit_val(c: char) -> nat {
    ((c as int) - ('0' as int)) as nat
}

/// The number denoted by a run of digit characters, most significant first.
pub open spec fn digit_seq_val(ds: Seq<char>) -> nat
    decreases ds.len(),
{
    if ds.len() == 0 {
        0
    } else {
        digit_seq_val(ds.drop_last()) * 10 + digit_val(ds.last())
    }
}

// ----- tokens, locations, errors -----

/// A position in the source text, both coordinates 0-indexed. The column
/// counts characters already consumed on the current line.
#[derive(Clone, Copy, Debug, PartialEq, Eq, Structural)]
pub struct Location {
    pub line: usize,
    pub column: usize,
}

impl Location {
    pub fn new() -> (r: Self)
        ensures
            r == (Location { line: 0, column: 0 }),
    {
        Location { line: 0, column: 0 }
    }
}

/// A lexing failure, carrying where in the source it happened.
#[derive(Clone, Copy, Debug, PartialEq, Eq, Structural)]
pub enum LexError {
    /// A character that no token class accepts.
    UnexpectedChar(Location, char),
    /// Input ended in the middle of a boolean literal.
    UnexpectedEnd(Location),
    /// A digit run denoting a number too large for `usize`.
    NumberOverflow(Location),
}

/// Mathematical model of a token: identifier text as a character sequence.
pub enum TokenView {
    Open,
    Close,
    Whitespace,
    Boolean(bool),
    Identifier(Seq<char>),
    Integer(usize),
}

/// The smallest lexical unit of source text.
#[derive(Debug, PartialEq, Eq)]
pub enum Token {
    Open,
    Close,
    Whitespace,
    Boolean(bool),
    Identifier(String),
    Integer(usize),
}

impl View for Token {
    type V = TokenView;

    open spec fn view(&self) -> TokenView {
        match self {
            Token::Open => TokenView::Open,
            Token::Close => TokenView::Close,
            Token::Whitespace => TokenView::Whitespace,
            Token::Boolean(b) => TokenView::Boolean(*b),
            Token::Identifier(s) => TokenView::Identifier(s@),
            Token::Integer(n) => TokenView::Integer(*n),
        }
    }
}

// ----- the model of lexing -----

/// Builds a `Location` out of model coordinates.
pub open spec fn loc_at(line: int, col: int) -> Location {
    Location { line: line as usize, column: col as usize }
}

/// One step of the lexer model: what `TokenIterator::next` yields
/// (`None` at end of input) and the position it leaves behind.
pub struct LexStep {
    pub item: Option<Result<TokenView, LexError>>,
    pub i: int,
    pub line: int,
    pub col: int,
}

/// One token step from position `i` at source coordinates `(line, col)`.
/// Newlines are consumed silently (they produce no token and no
/// whitespace); classification order is: parenthesis, boolean literal,
/// whitespace run, identifier run, digit run, error.
pub open spec fn lex_next(s: Seq<char>, i: int, line: int, col: int) -> LexStep {
    let nl = newline_count(s, i) as int;
    let j = i + nl;
    let line1 = line + nl;
    let col1 = if nl > 0 { 0int } else { col };
    if !(0 <= j && j < s.len()) {
        LexStep { item: None, i: j, line: line1, col: col1 }
    } else {
        let c = s[j];
        if c == '(' {
            LexStep { item: Some(Ok(TokenView::Open)), i: j + 1, line: line1, col: col1 + 1 }
        } else if c == ')' {
            LexStep { item: Some(Ok(TokenView::Close)), i: j + 1, line: line1, col: col1 + 1 }
        } else if c == '#' {
            let nl2 = newline_count(s, j + 1) as int;
            let k = j + 1 + nl2;
            let line2 = line1 + nl2;
            let col2 = if nl2 > 0 { 0int } else { col1 + 1 };
            if !(k < s.len()) {
                LexStep {
                    item: Some(Err(LexError::UnexpectedEnd(loc_at(line2, col2)))),
                    i: k,
                    line: line2,
                    col: col2,
                }
            } else if s[k] == 't' {
                LexStep {
                    item: Some(Ok(TokenView::Boolean(true))),
                    i: k + 1,
                    line: line2,
                    col: col2 + 1,
                }
            } else if s[k] == 'f' {
                LexStep {
                    item: Some(Ok(TokenView::Boolean(false))),
                    i: k + 1,
                    line: line2,
                    col: col2 + 1,
                }
            } else {
                LexStep {
                    item: Some(Err(LexError::UnexpectedChar(loc_at(line2, col2), s[k]))),
                    i: k + 1,
                    line: line2,
                    col: col2 + 1,
                }
            }
        } else if is_space_char(c) {
            let k = space_count(s, j + 1) as int;
            LexStep {
                item: Some(Ok(TokenView::Whitespace)),
                i: j + 1 + k,
                line: line1,
                col: col1 + 1 + k,
            }
        } else if is_initial_char(c) {
            let k = subsequent_count(s, j + 1) as int;
            LexStep {
                item: Some(Ok(TokenView::Identifier(s.subrange(j, j + 1 + k)))),
                i: j + 1 + k,
                line: line1,
                col: col1 + 1 + k,
            }
        } else if is_digit_char(c) {
            let k = digit_count(s, j + 1) as int;
            let v = digit_seq_val(s.subrange(j, j + 1 + k));
            if v > usize::MAX as nat {
                LexStep {
                    item: Some(Err(LexError::NumberOverflow(loc_at(line1, col1)))),
                    i: j + 1 + k,
                    line: line1,
                    col: col1 + 1 + k,
                }
            } else {
                LexStep {
                    item: Some(Ok(TokenView::Integer(v as usize))),
                    i: j + 1 + k,
                    line: line1,
                    col: col1 + 1 + k,
                }
            }
        } else {
            LexStep {
                item: Some(Err(LexError::UnexpectedChar(loc_at(line1, col1), c))),
                i: j + 1,
                line: line1,
                col: col1 + 1,
            }
        }
    }
}

pub proof fn lemma_lex_next_advances(s: Seq<char>, i: int, line: int, col: int)
    ensures
        lex_next(s, i, line, col).item matches Some(Ok(_)) ==> i < lex_next(s, i, line, col).i
            <= s.len(),
{
    lemma_newline_count_bound(s, i);
    let nl = newline_count(s, i) as int;
    let j = i + nl;
    lemma_newline_count_bound(s, j + 1);
    lemma_space_count_bound(s, j + 1);
    lemma_subsequent_count_bound(s, j + 1);
    lemma_digit_count_bound(s, j + 1);
}

/// The whole token stream from a position: the tokens produced in order,
/// and the lex error that ends the stream, if one does.
pub open spec fn lex_from(s: Seq<char>, i: int, line: int, col: int) -> (Seq<TokenView>, Option<
    LexError,
>)
    decreases s.len() - i,
        via lex_from_decreases
{
    let st = lex_next(s, i, line, col);
    match st.item {
        None => (Seq::empty(), None),
        Some(Err(e)) => (Seq::empty(), Some(e)),
        Some(Ok(t)) => {
            let rest = lex_from(s, st.i, st.line, st.col);
            (seq![t] + rest.0, rest.1)
        },
    }
}

#[via_fn]
proof fn lex_from_decreases(s: Seq<char>, i: int, line: int, col: int) {
    lemma_lex_next_advances(s, i, line, col);
}

/// The token stream of a whole source text.
pub open spec fn spec_lex(s: Seq<char>) -> (Seq<TokenView>, Option<LexError>) {
    lex_from(s, 0, 0, 0)
}

/// The view of one iterator step.
pub open spec fn step_item_view(r: Option<Result<Token, LexError>>) -> Option<
    Result<TokenView, LexError>,
> {
    match r {
        None => None,
        Some(Ok(t)) => Some(Ok(t@)),
        Some(Err(e)) => Some(Err(e)),
    }
}

// ----- character classification (executable) -----

struct Rules {}

impl Rules {
    fn can_start_identifier(c: char) -> (r: bool)
        ensures
            r == is_initial_char(c),
    {
        ('a' <= c && c <= 'z') || ('A' <= c && c <= 'Z') || c == '!' || c == '$' || c == '%'
            || c == '&' || c == '*' || c == '/' || c == ':' || c == '<' || c == '=' || c == '>'
            || c == '?' || c == '^' || c == '_' || c == '~' || c == '+' || c == '-'
    }

    fn is_identifier(c: char) -> (r: bool)
        ensures
            r == is_subsequent_char(c),
    {
        Rules::can_start_identifier(c) || Rules::is_integer(c) || c == '.' || c == '@'
    }

    fn is_whitespace(c: char) -> (r: bool)
        ensures
            r == is_space_char(c),
    {
        c == ' ' || c == '\t'
    }

    fn is_integer(c: char) -> (r: bool)
        ensures
            r == is_digit_char(c),
    {
        '0' <= c && c <= '9'
    }
}

/// The numeric value of a digit character, as executable code.
fn digit_to_usize(c: char) -> (d: usize)
    requires
        is_digit_char(c),
    ensures
        d as nat == digit_val(c),
        d <= 9,
{
    (c as usize) - ('0' as usize)
}

// ----- the lexer -----

/// Owns the source text; each call of [`Lexer::tokenize`] starts a fresh,
/// independent pass over it.
pub struct Lexer {
    source: String,
}

impl Lexer {
    /// The characters of the owned source text.
    pub closed spec fn src(&self) -> Seq<char> {
        self.source@
    }

    pub fn new(source: &str) -> (r: Self)
        ensures
            r.src() == source@,
    {
        Lexer { source: source.to_owned() }
    }

    /// A fresh token stream over the whole source.
    pub fn tokenize<'a>(&'a self) -> (r: TokenIterator<'a>)
        ensures
            r.wf(),
            r.src() == self.src(),
            r.idx() == 0,
            r.line_no() == 0,
            r.col_no() == 0,
    {
        TokenIterator::new(self)
    }
}

/// A lazy pass over the source: yields one token per [`TokenIterator::next`]
/// call, exactly as the model [`lex_next`] dictates.
pub struct TokenIterator<'a> {
    src: &'a str,
    len: usize,
    i: usize,
    line: usize,
    col: usize,
}

impl<'a> TokenIterator<'a> {
    /// The characters being scanned.
    pub closed spec fn src(&self) -> Seq<char> {
        self.src@
    }

    /// Index of the next character to read.
    pub closed spec fn idx(&self) -> int {
        self.i as int
    }

    /// Current line, 0-indexed.
    pub closed spec fn line_no(&self) -> int {
        self.line as int
    }

    /// Characters consumed on the current line.
    pub closed spec fn col_no(&self) -> int {
        self.col as int
    }

    /// Internal consistency: the cached length is the character count and
    /// the coordinates never run ahead of the scan position.
    pub closed spec fn wf(&self) -> bool {
        &&& self.len == self.src@.len()
        &&& self.i <= self.len
        &&& self.line <= self.i
        &&& self.col <= self.i
    }

    /// Bounds that well-formedness puts on the published coordinates.
    pub proof fn wf_facts(&self)
        requires
            self.wf(),
        ensures
            0 <= self.idx() <= self.src().len(),
            0 <= self.line_no(),
            0 <= self.col_no(),
            self.src().len() <= usize::MAX,
    {
    }

    pub fn new(lexer: &'a Lexer) -> (r: Self)
        ensures
            r.wf(),
            r.src() == lexer.src(),
            r.idx() == 0,
            r.line_no() == 0,
            r.col_no() == 0,
    {
        let src = lexer.source.as_str();
        let len = src.unicode_len();
        let loc = Location::new();
        TokenIterator { src, len, i: 0, line: loc.line, col: loc.column }
    }

    /// Consume the run of newline characters at the scan position,
    /// advancing the line counter.
    fn skip_newlines(&mut self)
        requires
            old(self).wf(),
        ensures
            final(self).wf(),
            final(self).src == old(self).src,
            ({
                let nl = newline_count(old(self).src(), old(self).idx()) as int;
                &&& final(self).idx() == old(self).idx() + nl
                &&& final(self).line_no() == old(self).line_no() + nl
                &&& final(self).col_no() == if nl > 0 {
                    0int
                } else {
                    old(self).col_no()
                }
            }),
    {
        let ghost s = self.src@;
        let ghost i0 = self.i as int;
        let ghost line0 = self.line as int;
        let ghost col0 = self.col as int;
        while self.i < self.len && self.src.get_char(self.i) == '\n'
            invariant
                self.wf(),
                self.src@ == s,
                self.len == old(self).len,
                self.src == old(self).src,
                i0 <= self.i as int,
                newline_count(s, i0) as int == self.i - i0 + newline_count(s, self.i as int) as int,
                self.line as int == line0 + (self.i - i0),
                self.col as int == if self.i > i0 {
                    0int
                } else {
                    col0
                },
            decreases s.len() - self.i,
        {
            self.i = self.i + 1;
            self.line = self.line + 1;
            self.col = 0;
        }
    }

    /// Consume the whitespace run at the scan position, collapsing it into
    /// a single `Whitespace` token.
    fn parse_whitespace(&mut self) -> (t: Token)
        requires
            old(self).wf(),
        ensures
            final(self).wf(),
            final(self).src == old(self).src,
            t == Token::Whitespace,
            ({
                let k = space_count(old(self).src(), old(self).idx()) as int;
                &&& final(self).idx() == old(self).idx() + k
                &&& final(self).line_no() == old(self).line_no()
                &&& final(self).col_no() == old(self).col_no() + k
            }),
    {
        let ghost s = self.src@;
        let ghost i0 = self.i as int;
        let ghost col0 = self.col as int;
        while self.i < self.len && Rules::is_whitespace(self.src.get_char(self.i))
            invariant
                self.wf(),
                self.src@ == s,
                self.len == old(self).len,
                self.src == old(self).src,
                self.line == old(self).line,
                i0 <= self.i as int,
                space_count(s, i0) as int == self.i - i0 + space_count(s, self.i as int) as int,
                self.col as int == col0 + (self.i - i0),
            decreases s.len() - self.i,
        {
            self.i = self.i + 1;
            self.col = self.col + 1;
        }
        Token::Whitespace
    }

    /// Consume the rest of an identifier whose first character the caller
    /// has already consumed, and return the whole identifier token.
    fn parse_identifier(&mut self) -> (t: Token)
        requires
            old(self).wf(),
            old(self).idx() >= 1,
        ensures
            final(self).wf(),
            final(self).src == old(self).src,
            ({
                let s = old(self).src();
                let k = subsequent_count(s, old(self).idx()) as int;
                &&& final(self).idx() == old(self).idx() + k
                &&& final(self).line_no() == old(self).line_no()
                &&& final(self).col_no() == old(self).col_no() + k
                &&& t@ == TokenView::Identifier(s.subrange(old(self).idx() - 1, old(self).idx() + k))
            }),
    {
        let ghost s = self.src@;
        let ghost i0 = self.i as int;
        let ghost col0 = self.col as int;
        let start = self.i - 1;
        while self.i < self.len && Rules::is_identifier(self.src.get_char(self.i))
            invariant
                self.wf(),
                self.src@ == s,
                self.len == old(self).len,
                self.src == old(self).src,
                self.line == old(self).line,
                i0 <= self.i as int,
                subsequent_count(s, i0) as int == self.i - i0 + subsequent_count(
                    s,
                    self.i as int,
                ) as int,
                self.col as int == col0 + (self.i - i0),
            decreases s.len() - self.i,
        {
            self.i = self.i + 1;
            self.col = self.col + 1;
        }
        let name = self.src.substring_char(start, self.i).to_owned();
        Token::Identifier(name)
    }

    /// Consume the rest of a digit run whose first digit the caller has
    /// already consumed, and return the denoted number, or an overflow
    /// error located at the first digit.
    fn parse_integer(&mut self) -> (r: Result<Token, LexError>)
        requires
            old(self).wf(),
            old(self).idx() >= 1,
            old(self).col_no() >= 1,
            is_digit_char(old(self).src()[old(self).idx() - 1]),
        ensures
            final(self).wf(),
            final(self).src == old(self).src,
            ({
                let s = old(self).src();
                let i0 = old(self).idx();
                let k = digit_count(s, i0) as int;
                let v = digit_seq_val(s.subrange(i0 - 1, i0 + k));
                &&& final(self).idx() == i0 + k
                &&& final(self).line_no() == old(self).line_no()
                &&& final(self).col_no() == old(self).col_no() + k
                &&& if v > usize::MAX as nat {
                    r == Err::<Token, LexError>(
                        LexError::NumberOverflow(
                            loc_at(old(self).line_no(), old(self).col_no() - 1),
                        ),
                    )
                } else {
                    r == Ok::<Token, LexError>(Token::Integer(v as usize))
                }
            }),
    {
        let ghost s = self.src@;
        let ghost i0 = self.i as int;
        let ghost col0 = self.col as int;
        let start = self.i - 1;
        let startline = self.line;
        let startcol = self.col - 1;
        let c0 = self.src.get_char(start);
        proof {
            let sub = s.subrange(start as int, i0);
            assert(sub.len() == 1);
            assert(sub.drop_last() =~= Seq::<char>::empty());
            assert(digit_seq_val(Seq::<char>::empty()) == 0);
            assert(sub.last() == c0);
            assert(digit_seq_val(sub) == digit_val(c0));
        }
        let mut val: usize = digit_to_usize(c0);
        let mut overflow: bool = false;
        while self.i < self.len && Rules::is_integer(self.src.get_char(self.i))
            invariant
                self.wf(),
                self.src@ == s,
                self.len == old(self).len,
                self.src == old(self).src,
                self.line == old(self).line,
                start as int == i0 - 1,
                i0 <= self.i as int,
                digit_count(s, i0) as int == self.i - i0 + digit_count(s, self.i as int) as int,
                self.col as int == col0 + (self.i - i0),
                !overflow ==> val as nat == digit_seq_val(s.subrange(start as int, self.i as int)),
                overflow ==> digit_seq_val(s.subrange(start as int, self.i as int)) > usize::MAX
                    as nat,
            decreases s.len() - self.i,
        {
            let c = self.src.get_char(self.i);
            let d = digit_to_usize(c);
            proof {
                assert(s.subrange(start as int, self.i + 1).drop_last() =~= s.subrange(
                    start as int,
                    self.i as int,
                ));
                assert(s.subrange(start as int, self.i + 1).last() == c);
            }
            if !overflow {
                match val.checked_mul(10) {
                    Some(v10) => {
                        match v10.checked_add(d) {
                            Some(v) => {
                                val = v;
                            },
                            None => {
                                overflow = true;
                            },
                        }
                    },
                    None => {
                        overflow = true;
                    },
                }
            }
            self.i = self.i + 1;
            self.col = self.col + 1;
        }
        if overflow {
            Err(LexError::NumberOverflow(Location { line: startline, column: startcol }))
        } else {
            Ok(Token::Integer(val))
        }
    }

    /// Read the character after a `#`, crossing line breaks as the scan
    /// always does, and classify the boolean literal.
    fn parse_boolean(&mut self) -> (r: Result<Token, LexError>)
        requires
            old(self).wf(),
        ensures
            final(self).wf(),
            final(self).src == old(self).src,
            ({
                let s = old(self).src();
                let p = old(self).idx();
                let nl2 = newline_count(s, p) as int;
                let k = p + nl2;
                let line2 = old(self).line_no() + nl2;
                let col2 = if nl2 > 0 {
                    0int
                } else {
                    old(self).col_no()
                };
                &&& final(self).line_no() == line2
                &&& if !(k < s.len()) {
                    &&& r == Err::<Token, LexError>(LexError::UnexpectedEnd(loc_at(line2, col2)))
                    &&& final(self).idx() == k
                    &&& final(self).col_no() == col2
                } else {
                    &&& final(self).idx() == k + 1
                    &&& final(self).col_no() == col2 + 1
                    &&& if s[k] == 't' {
                        r == Ok::<Token, LexError>(Token::Boolean(true))
                    } else if s[k] == 'f' {
                        r == Ok::<Token, LexError>(Token::Boolean(false))
                    } else {
                        r == Err::<Token, LexError>(
                            LexError::UnexpectedChar(loc_at(line2, col2), s[k]),
                        )
                    }
                }
            }),
    {
        self.skip_newlines();
        if self.i >= self.len {
            return Err(LexError::UnexpectedEnd(Location { line: self.line, column: self.col }));
        }
        let c = self.src.get_char(self.i);
        self.i = self.i + 1;
        self.col = self.col + 1;
        if c == 't' {
            Ok(Token::Boolean(true))
        } else if c == 'f' {
            Ok(Token::Boolean(false))
        } else {
            Err(LexError::UnexpectedChar(Location { line: self.line, column: self.col - 1 }, c))
        }
    }

    /// The next token of the stream: exactly what the model [`lex_next`]
    /// yields from the current position, leaving the iterator at the
    /// position the model names.
    pub fn next(&mut self) -> (r: Option<Result<Token, LexError>>)
        requires
            old(self).wf(),
        ensures
            final(self).wf(),
            final(self).src() == old(self).src(),
            ({
                let st = lex_next(
                    old(self).src(),
                    old(self).idx(),
                    old(self).line_no(),
                    old(self).col_no(),
                );
                &&& final(self).idx() == st.i
                &&& final(self).line_no() == st.line
                &&& final(self).col_no() == st.col
                &&& step_item_view(r) == st.item
            }),
    {
        self.skip_newlines();
        if self.i >= self.len {
            return None;
        }
        let c = self.src.get_char(self.i);
        self.i = self.i + 1;
        self.col = self.col + 1;
        if c == '(' {
            Some(Ok(Token::Open))
        } else if c == ')' {
            Some(Ok(Token::Close))
        } else if c == '#' {
            Some(self.parse_boolean())
        } else if Rules::is_whitespace(c) {
            Some(Ok(self.parse_whitespace()))
        } else if Rules::can_start_identifier(c) {
            Some(Ok(self.parse_identifier()))
        } else if Rules::is_integer(c) {
            Some(self.parse_integer())
        } else {
            Some(
                Err(LexError::UnexpectedChar(Location { line: self.line, column: self.col - 1 }, c)),
            )
        }
    }
}

} // verus!
