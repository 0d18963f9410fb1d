//! Parser: groups a token stream into balanced top-level forms and parses
//! each into an [`Expression`] tree. The model is [`build_from`] over the
//! token sequence that the lexer model produces; the executable
//! [`AstBuilder`] is proved to return exactly what the model says.
use vstd::prelude::*;
use vstd::string::*;
use crate::lexer::{lex_from, lex_next, spec_lex, LexError, Token, TokenIterator, TokenView};
use crate::value::{Value, ValueView};

verus! {

/// A token sequence with its whitespace tokens removed.
pub open spec fn non_ws(toks: Seq<TokenView>) -> Seq<TokenView> {
    toks.filter(|t: TokenView| !(t is Whitespace))
}

pub proof fn lemma_non_ws_push(a: Seq<TokenView>, x: TokenView)
    ensures
        non_ws(a.push(x)) == if x is Whitespace {
            non_ws(a)
        } else {
            non_ws(a).push(x)
        },
{
    reveal(Seq::filter);
    assert(a.push(x).drop_last() =~= a);
    assert(a.push(x).last() == x);
}

pub proof fn lemma_non_ws_empty()
    ensures
        non_ws(Seq::<TokenView>::empty()) == Seq::<TokenView>::empty(),
{
    reveal(Seq::filter);
}

// ----- decimal rendering (for error payloads) -----

/// The digit character for one digit value.
pub open spec fn digit_char(d: int) -> char {
    if d == 0 {
        '0'
    } else if d == 1 {
        '1'
    } else if d == 2 {
        '2'
    } else if d == 3 {
        '3'
    } else if d == 4 {
        '4'
    } else if d == 5 {
        '5'
    } else if d == 6 {
        '6'
    } else if d == 7 {
        '7'
    } else if d == 8 {
        '8'
    } else {
        '9'
    }
}

/// The decimal digits of a number, most significant first, no leading zero
/// except for the number zero itself.
pub open spec fn dec_digits(n: int) -> Seq<char>
    decreases n,
{
    if n < 10 {
        seq![digit_char(n)]
    } else {
        dec_digits(n / 10).push(digit_char(n % 10))
    }
}

/// The source text a token stands for; a whitespace run stands for one
/// space, a number for its decimal digits.
pub open spec fn token_text(t: TokenView) -> Seq<char> {
    match t {
        TokenView::Open => seq!['('],
        TokenView::Close => seq![')'],
        TokenView::Whitespace => seq![' '],
        TokenView::Boolean(b) => if b {
            seq!['#', 't']
        } else {
            seq!['#', 'f']
        },
        TokenView::Identifier(name) => name,
        TokenView::Integer(n) => dec_digits(n as int),
    }
}

// ----- errors and expressions -----

/// Mathematical model of a parse failure.
pub enum AstErrorView {
    LexError(LexError),
    UnexpectedEnd,
    UnexpectedToken(Seq<char>),
}

/// A parse failure: a wrapped lex error, input ending before a form is
/// closed, or a token where the grammar allows none (the payload is the
/// text of the offending token).
#[derive(Debug, PartialEq, Eq)]
pub enum AstError {
    LexError(LexError),
    UnexpectedEnd,
    UnexpectedToken(String),
}

impl View for AstError {
    type V = AstErrorView;

    open spec fn view(&self) -> AstErrorView {
        match self {
            AstError::LexError(e) => AstErrorView::LexError(*e),
            AstError::UnexpectedEnd => AstErrorView::UnexpectedEnd,
            AstError::UnexpectedToken(s) => AstErrorView::UnexpectedToken(s@),
        }
    }
}

/// Mathematical model of an expression tree.
pub enum ExpressionView {
    Empty,
    Call(Seq<char>, Seq<ExpressionView>),
    Definition(Seq<char>, Box<ExpressionView>),
    StaticValue(ValueView),
    Variable(Seq<char>),
}

/// A parsed abstract-syntax-tree node: the empty form, a call with its
/// ordered arguments, a definition with its body, a literal, or a
/// variable reference.
#[derive(Debug, PartialEq)]
pub enum Expression {
    Empty,
    Call(String, Vec<Expression>),
    Definition(String, Box<Expression>),
    StaticValue(Value),
    Variable(String),
}

/// The mathematical tree an expression denotes.
pub open spec fn expr_view(e: &Expression) -> ExpressionView
    decreases e, 1int, 0int,
{
    match e {
        Expression::Empty => ExpressionView::Empty,
        Expression::Call(name, args) => ExpressionView::Call(name@, args_view_from(args, 0)),
        Expression::Definition(name, body) => ExpressionView::Definition(
            name@,
            Box::new(expr_view(body)),
        ),
        Expression::StaticValue(v) => ExpressionView::StaticValue(v@),
        Expression::Variable(name) => ExpressionView::Variable(name@),
    }
}

/// The views of the arguments of a call, from index `k` on.
pub open spec fn args_view_from(args: &Vec<Expression>, k: int) -> Seq<ExpressionView>
    decreases args, 0int, args.len() - k,
{
    if 0 <= k && k < args.len() {
        seq![expr_view(&args[k])] + args_view_from(args, k + 1)
    } else {
        Seq::empty()
    }
}

impl View for Expression {
    type V = ExpressionView;

    open spec fn view(&self) -> ExpressionView {
        expr_view(self)
    }
}

/// The views of a token sequence.
pub open spec fn tokens_view(ts: Seq<Token>) -> Seq<TokenView> {
    ts.map_values(|t: Token| t@)
}

/// The views of an expression sequence.
pub open spec fn exprs_view(es: Seq<Expression>) -> Seq<ExpressionView> {
    es.map_values(|e: Expression| expr_view(&e))
}

// ----- the model of parsing -----

/// Index of the closing token matching nesting depth `depth`, scanning
/// from `m`: an `Open` deepens, a `Close` at depth zero is the match.
pub open spec fn find_close(toks: Seq<TokenView>, m: int, depth: int) -> Option<int>
    decreases toks.len() - m,
{
    if !(0 <= m && m < toks.len()) {
        None
    } else {
        match toks[m] {
            TokenView::Open => find_close(toks, m + 1, depth + 1),
            TokenView::Close => if depth == 0 {
                Some(m)
            } else {
                find_close(toks, m + 1, depth - 1)
            },
            _ => find_close(toks, m + 1, depth),
        }
    }
}

pub proof fn lemma_find_close_bounds(toks: Seq<TokenView>, m: int, depth: int)
    ensures
        find_close(toks, m, depth) matches Some(j) ==> m <= j < toks.len() && toks[j]
            is Close,
    decreases toks.len() - m,
{
    if 0 <= m && m < toks.len() {
        lemma_find_close_bounds(toks, m + 1, depth + 1);
        lemma_find_close_bounds(toks, m + 1, depth - 1);
        lemma_find_close_bounds(toks, m + 1, depth);
    }
}

/// The name of the special form that binds a global.
pub open spec fn define_chars() -> Seq<char> {
    seq!['d', 'e', 'f', 'i', 'n', 'e']
}

/// Parses one whitespace-free token run that stands for a single
/// expression: an atom, the empty form `()`, a definition
/// `(define name body)`, or a call `(op args...)`, in that order of
/// preference; any other shape is an `UnexpectedToken` error carrying the
/// text of the first token of the run.
pub open spec fn parse_expr(run: Seq<TokenView>) -> Result<ExpressionView, AstErrorView>
    decreases run.len(), 0int, 0int,
{
    let n = run.len() as int;
    if n == 1 {
        match run[0] {
            TokenView::Boolean(b) => Ok(ExpressionView::StaticValue(ValueView::Boolean(b))),
            TokenView::Integer(v) => Ok(ExpressionView::StaticValue(ValueView::Number(v))),
            TokenView::Identifier(name) => Ok(ExpressionView::Variable(name)),
            _ => Err(AstErrorView::UnexpectedToken(token_text(run[0]))),
        }
    } else if n == 2 && run[0] is Open && run[1] is Close {
        Ok(ExpressionView::Empty)
    } else if n >= 4 && run[0] is Open && run[1] == TokenView::Identifier(define_chars()) && run[2]
        is Identifier && run[n - 1] is Close {
        match parse_expr(run.subrange(3, n - 1)) {
            Ok(body) => Ok(
                ExpressionView::Definition(run[2]->Identifier_0, Box::new(body)),
            ),
            Err(e) => Err(e),
        }
    } else if n >= 3 && run[0] is Open && run[1] is Identifier && run[n - 1] is Close {
        match parse_exprs(run.subrange(2, n - 1), 0) {
            Ok(args) => Ok(ExpressionView::Call(run[1]->Identifier_0, args)),
            Err(e) => Err(e),
        }
    } else if n == 0 {
        Err(AstErrorView::UnexpectedToken(Seq::empty()))
    } else {
        Err(AstErrorView::UnexpectedToken(token_text(run[0])))
    }
}

/// Parses the argument run of a call: one expression per top-level form
/// (skipping past each form's matching close) or per atomic token.
pub open spec fn parse_exprs(run: Seq<TokenView>, k: int) -> Result<
    Seq<ExpressionView>,
    AstErrorView,
>
    decreases run.len(), 1int, run.len() - k,
        via parse_exprs_decreases
{
    if !(0 <= k && k < run.len()) {
        Ok(Seq::empty())
    } else {
        match run[k] {
            TokenView::Open => match find_close(run, k + 1, 0) {
                None => Err(AstErrorView::UnexpectedEnd),
                Some(j) => match parse_expr(run.subrange(k, j + 1)) {
                    Err(e) => Err(e),
                    Ok(e) => match parse_exprs(run, j + 1) {
                        Err(e2) => Err(e2),
                        Ok(rest) => Ok(seq![e] + rest),
                    },
                },
            },
            TokenView::Close => Err(AstErrorView::UnexpectedEnd),
            _ => match parse_expr(run.subrange(k, k + 1)) {
                Err(e) => Err(e),
                Ok(e) => match parse_exprs(run, k + 1) {
                    Err(e2) => Err(e2),
                    Ok(rest) => Ok(seq![e] + rest),
                },
            },
        }
    }
}

#[via_fn]
proof fn parse_exprs_decreases(run: Seq<TokenView>, k: int) {
    lemma_find_close_bounds(run, k + 1, 0);
}

/// The whole top-level parse of a token stream (`trailing` is the lex
/// error that cuts the stream short, if one does): whitespace between
/// forms is skipped, each balanced form is parsed with its whitespace
/// removed, a stray close or a bare atom at top level is an
/// `UnexpectedToken` error, and running out of tokens inside a form is
/// the trailing lex error if there is one, else `UnexpectedEnd`.
pub open spec fn build_from(toks: Seq<TokenView>, trailing: Option<LexError>, i: int) -> Result<
    Seq<ExpressionView>,
    AstErrorView,
>
    decreases toks.len() - i,
        via build_from_decreases
{
    if !(0 <= i && i < toks.len()) {
        match trailing {
            None => Ok(Seq::empty()),
            Some(e) => Err(AstErrorView::LexError(e)),
        }
    } else {
        match toks[i] {
            TokenView::Whitespace => build_from(toks, trailing, i + 1),
            TokenView::Open => match find_close(toks, i + 1, 0) {
                None => match trailing {
                    Some(e) => Err(AstErrorView::LexError(e)),
                    None => Err(AstErrorView::UnexpectedEnd),
                },
                Some(j) => match parse_expr(non_ws(toks.subrange(i, j + 1))) {
                    Err(e) => Err(e),
                    Ok(ex) => match build_from(toks, trailing, j + 1) {
                        Err(e2) => Err(e2),
                        Ok(rest) => Ok(seq![ex] + rest),
                    },
                },
            },
            TokenView::Close => Err(AstErrorView::UnexpectedToken(seq![')'])),
            _ => Err(AstErrorView::UnexpectedToken(token_text(toks[i]))),
        }
    }
}

#[via_fn]
proof fn build_from_decreases(toks: Seq<TokenView>, trailing: Option<LexError>, i: int) {
    lemma_find_close_bounds(toks, i + 1, 0);
}

/// The parse of a whole source text: lex it, then build.
pub open spec fn spec_build(s: Seq<char>) -> Result<Seq<ExpressionView>, AstErrorView> {
    let r = spec_lex(s);
    build_from(r.0, r.1, 0)
}

// ----- supporting lemmas -----

proof fn lemma_args_view_from_index(args: &Vec<Expression>, k: int)
    requires
        0 <= k <= args.len(),
    ensures
        args_view_from(args, k).len() == args.len() - k,
        forall|i: int|
            0 <= i < args.len() - k ==> args_view_from(args, k)[i] == expr_view(&args@[k + i]),
    decreases args.len() - k,
{
    if k < args.len() {
        lemma_args_view_from_index(args, k + 1);
    }
}

pub proof fn lemma_args_view(args: &Vec<Expression>)
    ensures
        args_view_from(args, 0) == exprs_view(args@),
{
    lemma_args_view_from_index(args, 0);
    assert(args_view_from(args, 0) =~= exprs_view(args@));
}

/// A balanced form's tokens start with its `Open`, which filtering keeps.
pub proof fn lemma_non_ws_cons_open(toks: Seq<TokenView>, a: int, b: int)
    requires
        0 <= a < b <= toks.len(),
        !(toks[a] is Whitespace),
    ensures
        non_ws(toks.subrange(a, b)) == seq![toks[a]] + non_ws(toks.subrange(a + 1, b)),
    decreases b - a,
{
    if b == a + 1 {
        lemma_non_ws_empty();
        assert(toks.subrange(a, b).drop_last() =~= Seq::<TokenView>::empty());
        lemma_non_ws_push(Seq::<TokenView>::empty(), toks[a]);
        assert(toks.subrange(a, b) =~= Seq::<TokenView>::empty().push(toks[a]));
        assert(toks.subrange(a + 1, b) =~= Seq::<TokenView>::empty());
        assert(non_ws(toks.subrange(a, b)) =~= seq![toks[a]] + non_ws(toks.subrange(a + 1, b)));
    } else {
        lemma_non_ws_cons_open(toks, a, b - 1);
        assert(toks.subrange(a, b) =~= toks.subrange(a, b - 1).push(toks[b - 1]));
        assert(toks.subrange(a + 1, b) =~= toks.subrange(a + 1, b - 1).push(toks[b - 1]));
        lemma_non_ws_push(toks.subrange(a, b - 1), toks[b - 1]);
        lemma_non_ws_push(toks.subrange(a + 1, b - 1), toks[b - 1]);
        if !(toks[b - 1] is Whitespace) {
            assert(seq![toks[a]] + non_ws(toks.subrange(a + 1, b - 1)).push(toks[b - 1]) =~= (
            seq![toks[a]] + non_ws(toks.subrange(a + 1, b - 1))).push(toks[b - 1]));
        }
    }
}

/// The token stream never holds more tokens than the source has characters.
pub proof fn lemma_lex_from_len(s: Seq<char>, i: int, line: int, col: int)
    requires
        0 <= i,
    ensures
        lex_from(s, i, line, col).0.len() + i <= s.len() || lex_from(s, i, line, col).0.len() == 0,
    decreases s.len() - i,
{
    let st = lex_next(s, i, line, col);
    crate::lexer::lemma_lex_next_advances(s, i, line, col);
    match st.item {
        Some(Ok(t)) => {
            lemma_lex_from_len(s, st.i, st.line, st.col);
        },
        _ => {},
    }
}

/// Reads one step of the lexer model off a stream equation: the next
/// token is the one the token sequence holds at the current position.
proof fn lemma_stream_step(
    s: Seq<char>,
    i: int,
    line: int,
    col: int,
    toks: Seq<TokenView>,
    trailing: Option<LexError>,
    m: int,
)
    requires
        lex_from(s, i, line, col) == (toks.skip(m), trailing),
        0 <= m <= toks.len(),
    ensures
        ({
            let st = lex_next(s, i, line, col);
            match st.item {
                None => m == toks.len() && trailing is None,
                Some(Err(e)) => m == toks.len() && trailing == Some(e),
                Some(Ok(t)) => m < toks.len() && toks[m] == t && lex_from(s, st.i, st.line, st.col)
                    == (toks.skip(m + 1), trailing),
            }
        }),
{
    let st = lex_next(s, i, line, col);
    assert(toks.skip(m).len() == toks.len() - m);
    match st.item {
        None => {},
        Some(Err(e)) => {},
        Some(Ok(t)) => {
            let rest = lex_from(s, st.i, st.line, st.col);
            assert(toks.skip(m) == seq![t] + rest.0);
            assert(toks[m] == (seq![t] + rest.0)[0]);
            assert(rest.0 =~= toks.skip(m + 1)) by {
                assert forall|x: int| 0 <= x < rest.0.len() implies rest.0[x] == toks.skip(m + 1)[x] by {
                    assert(rest.0[x] == (seq![t] + rest.0)[x + 1]);
                    assert(toks.skip(m)[x + 1] == toks[m + 1 + x]);
                }
            }
        },
    }
}

// ----- executable rendering helpers -----

/// The one-character text of a digit.
fn digit_str(d: usize) -> (r: &'static str)
    requires
        d <= 9,
    ensures
        r@ == seq![digit_char(d as int)],
{
    proof {
        reveal_strlit("0");
        reveal_strlit("1");
        reveal_strlit("2");
        reveal_strlit("3");
        reveal_strlit("4");
        reveal_strlit("5");
        reveal_strlit("6");
        reveal_strlit("7");
        reveal_strlit("8");
        reveal_strlit("9");
        assert("0"@ =~= seq!['0']);
        assert("1"@ =~= seq!['1']);
        assert("2"@ =~= seq!['2']);
        assert("3"@ =~= seq!['3']);
        assert("4"@ =~= seq!['4']);
        assert("5"@ =~= seq!['5']);
        assert("6"@ =~= seq!['6']);
        assert("7"@ =~= seq!['7']);
        assert("8"@ =~= seq!['8']);
        assert("9"@ =~= seq!['9']);
    }
    if d == 0 {
        "0"
    } else if d == 1 {
        "1"
    } else if d == 2 {
        "2"
    } else if d == 3 {
        "3"
    } else if d == 4 {
        "4"
    } else if d == 5 {
        "5"
    } else if d == 6 {
        "6"
    } else if d == 7 {
        "7"
    } else if d == 8 {
        "8"
    } else {
        "9"
    }
}

/// Decimal rendering of a number, matching [`dec_digits`].
fn usize_to_string(n: usize) -> (r: String)
    ensures
        r@ == dec_digits(n as int),
    decreases n,
{
    let d = n % 10;
    if n < 10 {
        digit_str(d).to_owned()
    } else {
        let mut prefix = usize_to_string(n / 10);
        prefix.append(digit_str(d));
        proof {
            assert(dec_digits((n / 10) as int).push(digit_char(d as int)) =~= dec_digits(
                (n / 10) as int,
            ) + seq![digit_char(d as int)]);
        }
        prefix
    }
}

/// The text of a token, matching [`token_text`].
fn token_text_exec(t: &Token) -> (r: String)
    ensures
        r@ == token_text(t@),
{
    match t {
        Token::Open => {
            proof {
                reveal_strlit("(");
                assert("("@ =~= seq!['(']);
            }
            "(".to_owned()
        },
        Token::Close => {
            proof {
                reveal_strlit(")");
                assert(")"@ =~= seq![')']);
            }
            ")".to_owned()
        },
        Token::Whitespace => {
            proof {
                reveal_strlit(" ");
                assert(" "@ =~= seq![' ']);
            }
            " ".to_owned()
        },
        Token::Boolean(b) => {
            if *b {
                proof {
                    reveal_strlit("#t");
                    assert("#t"@ =~= seq!['#', 't']);
                }
                "#t".to_owned()
            } else {
                proof {
                    reveal_strlit("#f");
                    assert("#f"@ =~= seq!['#', 'f']);
                }
                "#f".to_owned()
            }
        },
        Token::Identifier(name) => name.clone(),
        Token::Integer(v) => usize_to_string(*v),
    }
}

/// Whether an identifier is the `define` keyword.
fn is_define(name: &String) -> (r: bool)
    ensures
        r == (name@ == define_chars()),
{
    let s = name.as_str();
    if s.unicode_len() != 6 {
        return false;
    }
    let r = s.get_char(0) == 'd' && s.get_char(1) == 'e' && s.get_char(2) == 'f' && s.get_char(3)
        == 'i' && s.get_char(4) == 'n' && s.get_char(5) == 'e';
    proof {
        if r {
            assert(name@ =~= define_chars());
        }
    }
    r
}

// ----- the syntax tree -----

/// The ordered list of top-level expressions of a program.
#[derive(Debug, PartialEq)]
pub struct Ast {
    exprs: Vec<Expression>,
}

impl View for Ast {
    type V = Seq<ExpressionView>;

    closed spec fn view(&self) -> Seq<ExpressionView> {
        exprs_view(self.exprs@)
    }
}

impl Ast {
    fn new() -> (r: Self)
        ensures
            r@ == Seq::<ExpressionView>::empty(),
    {
        let r = Ast { exprs: Vec::new() };
        proof {
            assert(exprs_view(r.exprs@) =~= Seq::<ExpressionView>::empty());
        }
        r
    }

    /// The expressions, for walking in order.
    pub fn iter(&self) -> (r: &Vec<Expression>)
        ensures
            exprs_view(r@) == self@,
    {
        &self.exprs
    }

    /// The expressions, owned.
    pub fn into_iter(self) -> (r: Vec<Expression>)
        ensures
            exprs_view(r@) == self@,
    {
        self.exprs
    }
}

// ----- the executable parser -----

/// Scans for the closing token matching depth 0 from `start` (global
/// indices into `tokens`, bounded by `hi`), as [`find_close`] does over
/// the subrange `sub = tokens[lo..hi]`.
fn index_of_matching_close(
    tokens: &Vec<Token>,
    start: usize,
    hi: usize,
    Ghost(sub): Ghost<Seq<TokenView>>,
    Ghost(lo): Ghost<int>,
) -> (r: Result<usize, AstError>)
    requires
        0 <= lo <= start as int,
        start <= hi,
        hi as int <= tokens@.len(),
        sub == tokens_view(tokens@).subrange(lo, hi as int),
    ensures
        match find_close(sub, start as int - lo, 0) {
            Some(jrel) => r matches Ok(j) && j as int == lo + jrel && j < hi,
            None => r matches Err(e) && e@ == AstErrorView::UnexpectedEnd,
        },
{
    let mut m = start;
    let mut depth: usize = 0;
    loop
        invariant
            0 <= lo <= start as int,
            start <= m <= hi,
            hi as int <= tokens@.len(),
            sub == tokens_view(tokens@).subrange(lo, hi as int),
            depth as int <= m as int - start as int,
            find_close(sub, start as int - lo, 0) == find_close(sub, m as int - lo, depth as int),
        decreases hi - m,
    {
        if m >= hi {
            return Err(AstError::UnexpectedEnd);
        }
        proof {
            assert(sub[m as int - lo] == tokens@[m as int]@);
        }
        match &tokens[m] {
            Token::Open => {
                depth = depth + 1;
                m = m + 1;
            },
            Token::Close => {
                if depth == 0 {
                    return Ok(m);
                } else {
                    depth = depth - 1;
                    m = m + 1;
                }
            },
            _ => {
                m = m + 1;
            },
        }
    }
}

/// Parses the token run `tokens[lo..hi]` into one expression, as
/// [`parse_expr`] does over its views.
fn parse_expression(tokens: &Vec<Token>, lo: usize, hi: usize) -> (r: Result<Expression, AstError>)
    requires
        lo <= hi,
        hi as int <= tokens@.len(),
    ensures
        ({
            let m = parse_expr(tokens_view(tokens@).subrange(lo as int, hi as int));
            match r {
                Ok(e) => m == Ok::<ExpressionView, AstErrorView>(e@),
                Err(err) => m == Err::<ExpressionView, AstErrorView>(err@),
            }
        }),
    decreases hi - lo, 0int,
{
    let ghost run = tokens_view(tokens@).subrange(lo as int, hi as int);
    let n = hi - lo;
    if n == 1 {
        proof {
            assert(run[0] == tokens@[lo as int]@);
        }
        match &tokens[lo] {
            Token::Boolean(b) => Ok(Expression::StaticValue(Value::Boolean(*b))),
            Token::Integer(v) => Ok(Expression::StaticValue(Value::Number(*v))),
            Token::Identifier(name) => Ok(Expression::Variable(name.clone())),
            t => Err(AstError::UnexpectedToken(token_text_exec(t))),
        }
    } else if n >= 2 {
        proof {
            assert(run[0] == tokens@[lo as int]@);
            assert(run[1] == tokens@[lo as int + 1]@);
            assert(run[n as int - 1] == tokens@[hi as int - 1]@);
        }
        let first_open = matches!(&tokens[lo], Token::Open);
        let last_close = matches!(&tokens[hi - 1], Token::Close);
        if n == 2 && first_open && last_close {
            Ok(Expression::Empty)
        } else if n >= 4 && first_open && last_close {
            proof {
                assert(run[2] == tokens@[lo as int + 2]@);
            }
            match (&tokens[lo + 1], &tokens[lo + 2]) {
                (Token::Identifier(head), Token::Identifier(target)) => {
                    if is_define(head) {
                        proof {
                            assert(run.subrange(3, n as int - 1) =~= tokens_view(
                                tokens@,
                            ).subrange(lo as int + 3, hi as int - 1));
                        }
                        match parse_expression(tokens, lo + 3, hi - 1) {
                            Ok(body) => Ok(
                                Expression::Definition(target.clone(), Box::new(body)),
                            ),
                            Err(e) => Err(e),
                        }
                    } else {
                        proof {
                            assert(run.subrange(2, n as int - 1) =~= tokens_view(
                                tokens@,
                            ).subrange(lo as int + 2, hi as int - 1));
                        }
                        match parse_expressions(tokens, lo + 2, hi - 1) {
                            Ok(args) => {
                                proof {
                                    lemma_args_view(&args);
                                }
                                Ok(Expression::Call(head.clone(), args))
                            },
                            Err(e) => Err(e),
                        }
                    }
                },
                (Token::Identifier(head), _) => {
                    proof {
                        assert(run.subrange(2, n as int - 1) =~= tokens_view(tokens@).subrange(
                            lo as int + 2,
                            hi as int - 1,
                        ));
                    }
                    match parse_expressions(tokens, lo + 2, hi - 1) {
                        Ok(args) => {
                            proof {
                                lemma_args_view(&args);
                            }
                            Ok(Expression::Call(head.clone(), args))
                        },
                        Err(e) => Err(e),
                    }
                },
                _ => Err(AstError::UnexpectedToken(token_text_exec(&tokens[lo]))),
            }
        } else if n >= 3 && first_open && last_close {
            match &tokens[lo + 1] {
                Token::Identifier(head) => {
                    proof {
                        assert(run.subrange(2, n as int - 1) =~= tokens_view(tokens@).subrange(
                            lo as int + 2,
                            hi as int - 1,
                        ));
                    }
                    match parse_expressions(tokens, lo + 2, hi - 1) {
                        Ok(args) => {
                            proof {
                                lemma_args_view(&args);
                            }
                            Ok(Expression::Call(head.clone(), args))
                        },
                        Err(e) => Err(e),
                    }
                },
                _ => Err(AstError::UnexpectedToken(token_text_exec(&tokens[lo]))),
            }
        } else {
            Err(AstError::UnexpectedToken(token_text_exec(&tokens[lo])))
        }
    } else {
        Err(AstError::UnexpectedToken(String::new()))
    }
}

/// Parses the argument run `tokens[lo..hi]` into a list of expressions,
/// as [`parse_exprs`] does over its views.
fn parse_expressions(tokens: &Vec<Token>, lo: usize, hi: usize) -> (r: Result<
    Vec<Expression>,
    AstError,
>)
    requires
        lo <= hi,
        hi as int <= tokens@.len(),
    ensures
        ({
            let m = parse_exprs(tokens_view(tokens@).subrange(lo as int, hi as int), 0);
            match r {
                Ok(es) => m == Ok::<Seq<ExpressionView>, AstErrorView>(exprs_view(es@)),
                Err(err) => m == Err::<Seq<ExpressionView>, AstErrorView>(err@),
            }
        }),
    decreases hi - lo, 1int,
{
    let ghost run = tokens_view(tokens@).subrange(lo as int, hi as int);
    let mut exprs: Vec<Expression> = Vec::new();
    let mut k = lo;
    proof {
        assert(exprs_view(exprs@) =~= Seq::<ExpressionView>::empty());
    }
    while k < hi
        invariant
            lo <= k <= hi,
            hi as int <= tokens@.len(),
            run == tokens_view(tokens@).subrange(lo as int, hi as int),
            ({
                let full = parse_exprs(run, 0);
                match parse_exprs(run, k as int - lo as int) {
                    Ok(rest) => full == Ok::<Seq<ExpressionView>, AstErrorView>(
                        exprs_view(exprs@) + rest,
                    ),
                    Err(e) => full == Err::<Seq<ExpressionView>, AstErrorView>(e),
                }
            }),
        decreases hi - k,
    {
        proof {
            assert(run[k as int - lo as int] == tokens@[k as int]@);
        }
        let ghost krel = k as int - lo as int;
        match &tokens[k] {
            Token::Open => {
                let j = match index_of_matching_close(
                    tokens,
                    k + 1,
                    hi,
                    Ghost(run),
                    Ghost(lo as int),
                ) {
                    Ok(j) => j,
                    Err(e) => {
                        return Err(e);
                    },
                };
                proof {
                    lemma_find_close_bounds(run, krel + 1, 0);
                    assert(run.subrange(krel, j as int - lo as int + 1) =~= tokens_view(
                        tokens@,
                    ).subrange(k as int, j as int + 1));
                }
                let e = match parse_expression(tokens, k, j + 1) {
                    Ok(e) => e,
                    Err(err) => {
                        return Err(err);
                    },
                };
                let ghost old_exprs = exprs@;
                exprs.push(e);
                proof {
                    assert(exprs_view(exprs@) =~= exprs_view(old_exprs).push(expr_view(&e)));
                    let rest2 = parse_exprs(run, j as int - lo as int + 1);
                    if rest2 is Ok {
                        assert(exprs_view(old_exprs) + (seq![expr_view(&e)] + rest2->Ok_0) =~=
                        exprs_view(exprs@) + rest2->Ok_0);
                    }
                }
                k = j + 1;
            },
            Token::Close => {
                return Err(AstError::UnexpectedEnd);
            },
            _ => {
                proof {
                    assert(run.subrange(krel, krel + 1) =~= tokens_view(tokens@).subrange(
                        k as int,
                        k as int + 1,
                    ));
                }
                let e = match parse_expression(tokens, k, k + 1) {
                    Ok(e) => e,
                    Err(err) => {
                        return Err(err);
                    },
                };
                let ghost old_exprs = exprs@;
                exprs.push(e);
                proof {
                    assert(exprs_view(exprs@) =~= exprs_view(old_exprs).push(expr_view(&e)));
                    let rest2 = parse_exprs(run, krel + 1);
                    if rest2 is Ok {
                        assert(exprs_view(old_exprs) + (seq![expr_view(&e)] + rest2->Ok_0) =~=
                        exprs_view(exprs@) + rest2->Ok_0);
                    }
                }
                k = k + 1;
            },
        }
    }
    proof {
        assert(exprs_view(exprs@) + Seq::<ExpressionView>::empty() =~= exprs_view(exprs@));
    }
    Ok(exprs)
}

/// Consumes tokens and groups them into the program's expression trees.
pub struct AstBuilder<'a> {
    tokens: TokenIterator<'a>,
}

impl<'a> AstBuilder<'a> {
    /// The characters the underlying token stream scans.
    pub closed spec fn src(&self) -> Seq<char> {
        self.tokens.src()
    }

    pub closed spec fn idx(&self) -> int {
        self.tokens.idx()
    }

    pub closed spec fn line_no(&self) -> int {
        self.tokens.line_no()
    }

    pub closed spec fn col_no(&self) -> int {
        self.tokens.col_no()
    }

    pub closed spec fn wf(&self) -> bool {
        self.tokens.wf()
    }

    pub fn new(tokens: TokenIterator<'a>) -> (r: Self)
        ensures
            r.wf() == tokens.wf(),
            r.src() == tokens.src(),
            r.idx() == tokens.idx(),
            r.line_no() == tokens.line_no(),
            r.col_no() == tokens.col_no(),
    {
        AstBuilder { tokens }
    }

    /// Collects the remaining tokens of one balanced form, whitespace
    /// dropped, after its opening token was consumed at position `start`
    /// of the token sequence `toks`.
    fn read_until_matching_close(
        &mut self,
        Ghost(toks): Ghost<Seq<TokenView>>,
        Ghost(trailing): Ghost<Option<LexError>>,
        Ghost(start): Ghost<int>,
    ) -> (r: Result<Vec<Token>, AstError>)
        requires
            old(self).wf(),
            0 <= start <= toks.len(),
            toks.len() <= usize::MAX,
            lex_from(old(self).src(), old(self).idx(), old(self).line_no(), old(self).col_no())
                == (toks.skip(start), trailing),
        ensures
            final(self).wf(),
            final(self).src() == old(self).src(),
            match find_close(toks, start, 0) {
                Some(j) => ({
                    &&& r matches Ok(buf) && tokens_view(buf@) == seq![TokenView::Open] + non_ws(
                        toks.subrange(start, j + 1),
                    )
                    &&& lex_from(
                        final(self).src(),
                        final(self).idx(),
                        final(self).line_no(),
                        final(self).col_no(),
                    ) == (toks.skip(j + 1), trailing)
                }),
                None => match trailing {
                    Some(e) => r matches Err(err) && err@ == AstErrorView::LexError(e),
                    None => r matches Err(err) && err@ == AstErrorView::UnexpectedEnd,
                },
            },
    {
        let ghost s = self.tokens.src();
        let mut buffer: Vec<Token> = Vec::new();
        buffer.push(Token::Open);
        let mut depth: usize = 0;
        let ghost mut m: int = start;
        proof {
            lemma_non_ws_empty();
            assert(toks.subrange(start, start) =~= Seq::<TokenView>::empty());
            assert(tokens_view(buffer@) =~= seq![TokenView::Open] + non_ws(
                toks.subrange(start, start),
            ));
        }
        loop
            invariant
                self.tokens.wf(),
                self.tokens.src() == s,
                s == old(self).src(),
                0 <= start <= m <= toks.len(),
                toks.len() <= usize::MAX,
                depth as int <= m - start,
                find_close(toks, start, 0) == find_close(toks, m, depth as int),
                lex_from(s, self.tokens.idx(), self.tokens.line_no(), self.tokens.col_no()) == (
                toks.skip(m), trailing),
                tokens_view(buffer@) == seq![TokenView::Open] + non_ws(toks.subrange(start, m)),
            decreases toks.len() - m,
        {
            let ghost pre_idx = self.tokens.idx();
            let ghost pre_line = self.tokens.line_no();
            let ghost pre_col = self.tokens.col_no();
            let item = self.tokens.next();
            proof {
                lemma_stream_step(s, pre_idx, pre_line, pre_col, toks, trailing, m);
            }
            match item {
                None => {
                    return Err(AstError::UnexpectedEnd);
                },
                Some(Err(e)) => {
                    return Err(AstError::LexError(e));
                },
                Some(Ok(token)) => {
                    proof {
                        assert(toks.subrange(start, m + 1) =~= toks.subrange(start, m).push(
                            toks[m],
                        ));
                        lemma_non_ws_push(toks.subrange(start, m), toks[m]);
                    }
                    let is_open = matches!(&token, Token::Open);
                    let is_close = matches!(&token, Token::Close);
                    let is_ws = matches!(&token, Token::Whitespace);
                    if is_open {
                        depth = depth + 1;
                        let ghost old_buf = buffer@;
                        buffer.push(token);
                        proof {
                            assert(tokens_view(buffer@) =~= tokens_view(old_buf).push(toks[m]));
                            assert(tokens_view(buffer@) =~= (seq![TokenView::Open] + non_ws(
                                toks.subrange(start, m),
                            )).push(toks[m]));
                            assert((seq![TokenView::Open] + non_ws(toks.subrange(start, m))).push(
                                toks[m],
                            ) =~= seq![TokenView::Open] + non_ws(toks.subrange(start, m + 1)));
                            m = m + 1;
                        }
                    } else if is_close {
                        let ghost old_buf = buffer@;
                        buffer.push(token);
                        proof {
                            assert(tokens_view(buffer@) =~= tokens_view(old_buf).push(toks[m]));
                            assert((seq![TokenView::Open] + non_ws(toks.subrange(start, m))).push(
                                toks[m],
                            ) =~= seq![TokenView::Open] + non_ws(toks.subrange(start, m + 1)));
                        }
                        if depth == 0 {
                            return Ok(buffer);
                        } else {
                            depth = depth - 1;
                            proof {
                                m = m + 1;
                            }
                        }
                    } else if is_ws {
                        proof {
                            m = m + 1;
                        }
                    } else {
                        let ghost old_buf = buffer@;
                        buffer.push(token);
                        proof {
                            assert(tokens_view(buffer@) =~= tokens_view(old_buf).push(toks[m]));
                            assert((seq![TokenView::Open] + non_ws(toks.subrange(start, m))).push(
                                toks[m],
                            ) =~= seq![TokenView::Open] + non_ws(toks.subrange(start, m + 1)));
                            m = m + 1;
                        }
                    }
                },
            }
        }
    }

    /// Parses the remaining token stream into the ordered list of
    /// top-level expressions, or the first error encountered, exactly as
    /// the model [`build_from`] applied to the model token stream says.
    pub fn build(&mut self) -> (r: Result<Ast, AstError>)
        requires
            old(self).wf(),
        ensures
            final(self).wf(),
            ({
                let stream = lex_from(
                    old(self).src(),
                    old(self).idx(),
                    old(self).line_no(),
                    old(self).col_no(),
                );
                let m = build_from(stream.0, stream.1, 0);
                match r {
                    Ok(ast) => m == Ok::<Seq<ExpressionView>, AstErrorView>(ast@),
                    Err(err) => m == Err::<Seq<ExpressionView>, AstErrorView>(err@),
                }
            }),
    {
        let ghost s = self.tokens.src();
        let ghost stream = lex_from(s, self.tokens.idx(), self.tokens.line_no(), self.tokens.col_no());
        let ghost toks = stream.0;
        let ghost trailing = stream.1;
        proof {
            self.tokens.wf_facts();
            lemma_lex_from_len(s, self.tokens.idx(), self.tokens.line_no(), self.tokens.col_no());
            assert(toks.skip(0) =~= toks);
        }
        let mut exprs: Vec<Expression> = Vec::new();
        let ghost mut pos: int = 0;
        proof {
            assert(exprs_view(exprs@) =~= Seq::<ExpressionView>::empty());
        }
        loop
            invariant
                self.tokens.wf(),
                self.tokens.src() == s,
                s == old(self).src(),
                0 <= pos <= toks.len(),
                toks.len() <= usize::MAX,
                stream == lex_from(
                    old(self).src(),
                    old(self).idx(),
                    old(self).line_no(),
                    old(self).col_no(),
                ),
                toks == stream.0,
                trailing == stream.1,
                lex_from(s, self.tokens.idx(), self.tokens.line_no(), self.tokens.col_no()) == (
                toks.skip(pos), trailing),
                ({
                    let full = build_from(toks, trailing, 0);
                    match build_from(toks, trailing, pos) {
                        Ok(rest) => full == Ok::<Seq<ExpressionView>, AstErrorView>(
                            exprs_view(exprs@) + rest,
                        ),
                        Err(e) => full == Err::<Seq<ExpressionView>, AstErrorView>(e),
                    }
                }),
            decreases toks.len() - pos,
        {
            let ghost pre_idx = self.tokens.idx();
            let ghost pre_line = self.tokens.line_no();
            let ghost pre_col = self.tokens.col_no();
            let item = self.tokens.next();
            proof {
                lemma_stream_step(s, pre_idx, pre_line, pre_col, toks, trailing, pos);
            }
            match item {
                None => {
                    proof {
                        assert(exprs_view(exprs@) + Seq::<ExpressionView>::empty() =~= exprs_view(
                            exprs@,
                        ));
                    }
                    return Ok(Ast { exprs });
                },
                Some(Err(e)) => {
                    return Err(AstError::LexError(e));
                },
                Some(Ok(token)) => {
                    match token {
                        Token::Whitespace => {
                            proof {
                                pos = pos + 1;
                            }
                        },
                        Token::Open => {
                            let buf = match self.read_until_matching_close(
                                Ghost(toks),
                                Ghost(trailing),
                                Ghost(pos + 1),
                            ) {
                                Ok(buf) => buf,
                                Err(e) => {
                                    return Err(e);
                                },
                            };
                            let ghost j: int = match find_close(toks, pos + 1, 0) {
                                Some(jj) => jj,
                                None => 0,
                            };
                            proof {
                                lemma_find_close_bounds(toks, pos + 1, 0);
                                lemma_non_ws_cons_open(toks, pos, j + 1);
                                assert(tokens_view(buf@).subrange(0, buf@.len() as int) =~=
                                tokens_view(buf@));
                                assert(seq![TokenView::Open] + non_ws(toks.subrange(pos + 1, j + 1))
                                    =~= seq![toks[pos]] + non_ws(toks.subrange(pos + 1, j + 1)));
                            }
                            let e = match parse_expression(&buf, 0, buf.len()) {
                                Ok(e) => e,
                                Err(err) => {
                                    return Err(err);
                                },
                            };
                            let ghost old_exprs = exprs@;
                            exprs.push(e);
                            proof {
                                assert(exprs_view(exprs@) =~= exprs_view(old_exprs).push(
                                    expr_view(&e),
                                ));
                                let rest2 = build_from(toks, trailing, j + 1);
                                if rest2 is Ok {
                                    assert(exprs_view(old_exprs) + (seq![expr_view(&e)]
                                        + rest2->Ok_0) =~= exprs_view(exprs@) + rest2->Ok_0);
                                }
                                pos = j + 1;
                            }
                        },
                        Token::Close => {
                            proof {
                                reveal_strlit(")");
                                assert(")"@ =~= seq![')']);
                            }
                            return Err(AstError::UnexpectedToken(")".to_owned()));
                        },
                        _ => {
                            return Err(AstError::UnexpectedToken(token_text_exec(&token)));
                        },
                    }
                },
            }
        }
    }
}

} // verus!
