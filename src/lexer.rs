use vstd::prelude::*;
use vstd::string::StrSliceExecFns;

verus! {

#[derive(Debug, Clone, PartialEq)]
pub enum Token {
    Lparen,
    Rparen,
    Lbracket,
    Rbracket,
    Eq,
    Ampersand,
    Star,
    Comma,
    Semicolon,
    Fn,
    Let,
    Mut,
    Box,
    AssertEq,
    Int(i32),
    Var(String),
}

/// Unrecognized input at a line (from 1) and a column (from 0).
#[derive(Debug, Clone, Copy, PartialEq)]
pub enum Error {
    Unknown(usize, usize),
}

pub type LexResult = Result<Token, Error>;

/// Number of fixed lexemes (punctuation and keywords).
pub const N_FIXED: usize = 14;

/// The text of the fixed lexemes, in the order they are tried.
pub open spec fn fixed_text(i: int) -> Seq<char> {
    if i == 0 {
        seq!['(']
    } else if i == 1 {
        seq![')']
    } else if i == 2 {
        seq!['{']
    } else if i == 3 {
        seq!['}']
    } else if i == 4 {
        seq!['=']
    } else if i == 5 {
        seq!['&']
    } else if i == 6 {
        seq!['*']
    } else if i == 7 {
        seq![',']
    } else if i == 8 {
        seq![';']
    } else if i == 9 {
        seq!['f', 'n']
    } else if i == 10 {
        seq!['l', 'e', 't']
    } else if i == 11 {
        seq!['m', 'u', 't']
    } else if i == 12 {
        seq!['B', 'o', 'x', ':', ':', 'n', 'e', 'w']
    } else {
        seq!['a', 's', 's', 'e', 'r', 't', '_', 'e', 'q', '!']
    }
}

pub open spec fn fixed_token(i: int) -> Token {
    if i == 0 {
        Token::Lparen
    } else if i == 1 {
        Token::Rparen
    } else if i == 2 {
        Token::Lbracket
    } else if i == 3 {
        Token::Rbracket
    } else if i == 4 {
        Token::Eq
    } else if i == 5 {
        Token::Ampersand
    } else if i == 6 {
        Token::Star
    } else if i == 7 {
        Token::Comma
    } else if i == 8 {
        Token::Semicolon
    } else if i == 9 {
        Token::Fn
    } else if i == 10 {
        Token::Let
    } else if i == 11 {
        Token::Mut
    } else if i == 12 {
        Token::Box
    } else {
        Token::AssertEq
    }
}

/// Unicode white space, as `char::is_whitespace` has it.
pub open spec fn is_space(c: char) -> bool {
    c == ' ' || ('\t' <= c && c <= '\r') || c == '\u{85}' || c == '\u{a0}' || c == '\u{1680}' || ('\u{2000}' <= c && c
        <= '\u{200a}') || c == '\u{2028}' || c == '\u{2029}' || c == '\u{202f}' || c == '\u{205f}' || c == '\u{3000}'
}

pub open spec fn is_digit(c: char) -> bool {
    '0' <= c && c <= '9'
}

pub open spec fn is_letter(c: char) -> bool {
    ('a' <= c && c <= 'z') || ('A' <= c && c <= 'Z')
}

pub open spec fn is_alnum(c: char) -> bool {
    is_letter(c) || is_digit(c)
}

/// The first position from `p` on that does not hold whitespace.
pub open spec fn skip_space(s: Seq<char>, p: int) -> int
    decreases s.len() - p,
{
    if 0 <= p < s.len() && is_space(s[p]) {
        skip_space(s, p + 1)
    } else {
        p
    }
}

pub open spec fn starts_with(s: Seq<char>, p: int, t: Seq<char>) -> bool {
    0 <= p && p + t.len() <= s.len() && s.subrange(p, p + t.len()) == t
}

/// The first fixed lexeme, from the `i`-th on, that the input holds at `p`;
/// `N_FIXED` if none.
pub open spec fn first_fixed(s: Seq<char>, p: int, i: int) -> int
    decreases N_FIXED - i,
{
    if i >= N_FIXED {
        N_FIXED as int
    } else if starts_with(s, p, fixed_text(i)) {
        i
    } else {
        first_fixed(s, p, i + 1)
    }
}

/// The end of the run of digits (or of letters and digits) that starts at `p`.
pub open spec fn run_end(s: Seq<char>, p: int, digits: bool) -> int
    decreases s.len() - p,
{
    if 0 <= p < s.len() && (if digits {
        is_digit(s[p])
    } else {
        is_alnum(s[p])
    }) {
        run_end(s, p + 1, digits)
    } else {
        p
    }
}

/// The number that a string of decimal digits writes.
pub open spec fn digits_value(d: Seq<char>) -> int
    decreases d.len(),
{
    if d.len() == 0 {
        0
    } else {
        digits_value(d.drop_last()) * 10 + (d.last() as int - '0' as int)
    }
}

/// Where the lexeme that starts at `p` ends, if the input holds one there.
pub open spec fn lexeme_end(s: Seq<char>, p: int) -> Option<int> {
    let i = first_fixed(s, p, 0);
    if i < N_FIXED {
        Some(p + fixed_text(i).len())
    } else if 0 <= p < s.len() && is_digit(s[p]) {
        let e = run_end(s, p, true);
        if digits_value(s.subrange(p, e)) <= i32::MAX {
            Some(e)
        } else {
            None
        }
    } else if 0 <= p < s.len() && is_letter(s[p]) {
        Some(run_end(s, p + 1, false))
    } else {
        None
    }
}

/// `t` is the token of the lexeme `s[p..e]`.
pub open spec fn token_of(s: Seq<char>, p: int, e: int, t: Token) -> bool {
    let i = first_fixed(s, p, 0);
    if i < N_FIXED {
        t == fixed_token(i)
    } else if is_digit(s[p]) {
        t == Token::Int(digits_value(s.subrange(p, e)) as i32)
    } else {
        t matches Token::Var(x) && x@ == s.subrange(p, e)
    }
}

proof fn lemma_first_fixed(s: Seq<char>, p: int, i: int)
    requires
        0 <= i <= N_FIXED,
    ensures
        i <= first_fixed(s, p, i) <= N_FIXED,
        first_fixed(s, p, i) < N_FIXED ==> starts_with(s, p, fixed_text(first_fixed(s, p, i))),
    decreases N_FIXED - i,
{
    if i < N_FIXED && !starts_with(s, p, fixed_text(i)) {
        lemma_first_fixed(s, p, i + 1);
    }
}

proof fn lemma_run(s: Seq<char>, p: int, digits: bool)
    requires
        0 <= p <= s.len(),
    ensures
        p <= run_end(s, p, digits) <= s.len(),
        forall|k: int|
            p <= k < run_end(s, p, digits) ==> (if digits {
                is_digit(#[trigger] s[k])
            } else {
                is_alnum(s[k])
            }),
    decreases s.len() - p,
{
    if p < s.len() && (if digits {
        is_digit(s[p])
    } else {
        is_alnum(s[p])
    }) {
        lemma_run(s, p + 1, digits);
    }
}

/// Line (from 1) and column (from 0) of position `p`.
pub open spec fn line_col(s: Seq<char>, p: int) -> (int, int)
    decreases p,
{
    if p <= 0 {
        (1, 0)
    } else {
        let (l, c) = line_col(s, p - 1);
        if s[p - 1] == '\n' {
            (l + 1, 0)
        } else {
            (l, c + 1)
        }
    }
}

/// `toks` are the tokens that scanning `s` from `p` yields, and `end` the
/// error that stopped it, if any.
pub open spec fn lexes(s: Seq<char>, p: int, toks: Seq<Token>, end: Option<Error>) -> bool
    decreases toks.len(),
{
    let q = skip_space(s, p);
    if toks.len() == 0 {
        q >= s.len() && end is None || q < s.len() && lexeme_end(s, q) is None && end == Some(
            Error::Unknown(line_col(s, q).0 as usize, line_col(s, q).1 as usize),
        )
    } else {
        q < s.len() && lexeme_end(s, q) is Some && lexeme_end(s, q)->Some_0 > q && token_of(
            s,
            q,
            lexeme_end(s, q)->Some_0,
            toks[0],
        ) && lexes(s, lexeme_end(s, q)->Some_0, toks.drop_first(), end)
    }
}

/// The text with its whitespace taken out.
pub open spec fn strip_space(s: Seq<char>) -> Seq<char>
    decreases s.len(),
{
    if s.len() == 0 {
        seq![]
    } else if is_space(s[0]) {
        strip_space(s.drop_first())
    } else {
        seq![s[0]] + strip_space(s.drop_first())
    }
}

/// The source text of the first `n` lexemes that scanning `s` from `p` reads,
/// put together.
pub open spec fn scanned_text(s: Seq<char>, p: int, n: nat) -> Seq<char>
    decreases n,
{
    if n == 0 {
        seq![]
    } else {
        let q = skip_space(s, p);
        let e = lexeme_end(s, q)->Some_0;
        s.subrange(q, e) + scanned_text(s, e, (n - 1) as nat)
    }
}

proof fn lemma_strip_concat(a: Seq<char>, b: Seq<char>)
    ensures
        strip_space(a + b) == strip_space(a) + strip_space(b),
    decreases a.len(),
{
    if a.len() == 0 {
        assert(a + b =~= b);
        assert(strip_space(a) + strip_space(b) =~= strip_space(b));
    } else {
        assert((a + b)[0] == a[0]);
        assert((a + b).drop_first() =~= a.drop_first() + b);
        lemma_strip_concat(a.drop_first(), b);
        if !is_space(a[0]) {
            assert(seq![a[0]] + strip_space(a.drop_first()) + strip_space(b) =~= seq![a[0]] + (
            strip_space(a.drop_first()) + strip_space(b)));
        }
    }
}

/// Text without whitespace is left as it is.
proof fn lemma_strip_none(t: Seq<char>)
    requires
        forall|k: int| 0 <= k < t.len() ==> !is_space(#[trigger] t[k]),
    ensures
        strip_space(t) == t,
    decreases t.len(),
{
    if t.len() > 0 {
        assert(forall|k: int| 0 <= k < t.drop_first().len() ==> t.drop_first()[k] == t[k + 1]);
        lemma_strip_none(t.drop_first());
        assert(seq![t[0]] + t.drop_first() =~= t);
    }
}

/// Skipping whitespace loses no other text.
proof fn lemma_skip(s: Seq<char>, p: int)
    requires
        0 <= p <= s.len(),
    ensures
        p <= skip_space(s, p) <= s.len(),
        strip_space(s.subrange(p, s.len() as int)) == strip_space(
            s.subrange(skip_space(s, p), s.len() as int),
        ),
    decreases s.len() - p,
{
    if p < s.len() && is_space(s[p]) {
        lemma_skip(s, p + 1);
        let t = s.subrange(p, s.len() as int);
        assert(t[0] == s[p]);
        assert(t.drop_first() =~= s.subrange(p + 1, s.len() as int));
    }
}

/// A lexeme holds no whitespace and ends within the input.
proof fn lemma_lexeme(s: Seq<char>, q: int)
    requires
        0 <= q < s.len(),
        lexeme_end(s, q) is Some,
    ensures
        q < lexeme_end(s, q)->Some_0 <= s.len(),
        forall|k: int| q <= k < lexeme_end(s, q)->Some_0 ==> !is_space(#[trigger] s[k]),
{
    let i = first_fixed(s, q, 0);
    lemma_first_fixed(s, q, 0);
    if i < N_FIXED {
        let t = fixed_text(i);
        assert(t.len() > 0);
        assert(forall|k: int| 0 <= k < t.len() ==> !is_space(#[trigger] t[k]));
        assert forall|k: int| q <= k < q + t.len() implies !is_space(#[trigger] s[k]) by {
            assert(s.subrange(q, q + t.len())[k - q] == s[k]);
        }
    } else if is_digit(s[q]) {
        lemma_run(s, q, true);
        lemma_run(s, q + 1, true);
    } else {
        lemma_run(s, q + 1, false);
    }
}

/// Scanning loses nothing but whitespace: when a scan reads the input to its
/// end, the text of its lexemes put together is the input without whitespace.
pub proof fn lemma_scan_round_trip(s: Seq<char>, p: int, toks: Seq<Token>)
    requires
        0 <= p <= s.len(),
        lexes(s, p, toks, None),
    ensures
        scanned_text(s, p, toks.len()) == strip_space(s.subrange(p, s.len() as int)),
    decreases toks.len(),
{
    lemma_skip(s, p);
    let q = skip_space(s, p);
    if toks.len() == 0 {
        assert(s.subrange(q, s.len() as int) =~= Seq::<char>::empty());
    } else {
        let e = lexeme_end(s, q)->Some_0;
        lemma_lexeme(s, q);
        lemma_scan_round_trip(s, e, toks.drop_first());
        assert(s.subrange(q, s.len() as int) =~= s.subrange(q, e) + s.subrange(e, s.len() as int));
        lemma_strip_concat(s.subrange(q, e), s.subrange(e, s.len() as int));
        lemma_strip_none(s.subrange(q, e));
    }
}

/// The ten decimal digits, in order.
pub open spec fn digit_chars() -> Seq<char> {
    seq!['0', '1', '2', '3', '4', '5', '6', '7', '8', '9']
}

/// The decimal digits of `n`, without leading zeros.
pub open spec fn decimal(n: nat) -> Seq<char>
    decreases n,
{
    if n < 10 {
        seq![digit_chars()[n as int]]
    } else {
        decimal(n / 10) + seq![digit_chars()[(n % 10) as int]]
    }
}

/// Which fixed lexeme a token is; `N_FIXED` for a number or a name.
pub open spec fn fixed_index(t: Token) -> int {
    match t {
        Token::Lparen => 0,
        Token::Rparen => 1,
        Token::Lbracket => 2,
        Token::Rbracket => 3,
        Token::Eq => 4,
        Token::Ampersand => 5,
        Token::Star => 6,
        Token::Comma => 7,
        Token::Semicolon => 8,
        Token::Fn => 9,
        Token::Let => 10,
        Token::Mut => 11,
        Token::Box => 12,
        Token::AssertEq => 13,
        _ => N_FIXED as int,
    }
}

/// The text that writes a token: a number in decimal, a name as it is, and
/// any other token as its lexeme.
pub open spec fn token_text(t: Token) -> Seq<char> {
    match t {
        Token::Int(n) => decimal(n as nat),
        Token::Var(x) => x@,
        _ => fixed_text(fixed_index(t)),
    }
}

/// The texts of the tokens, put together.
pub open spec fn tokens_text(toks: Seq<Token>) -> Seq<char>
    decreases toks.len(),
{
    if toks.len() == 0 {
        seq![]
    } else {
        token_text(toks[0]) + tokens_text(toks.drop_first())
    }
}

/// The first `n` lexemes that scanning `s` from `p` reads write every number
/// without leading zeros.
pub open spec fn plain_numbers(s: Seq<char>, p: int, n: nat) -> bool
    decreases n,
{
    if n == 0 {
        true
    } else {
        let q = skip_space(s, p);
        let e = lexeme_end(s, q)->Some_0;
        (first_fixed(s, q, 0) < N_FIXED || !is_digit(s[q]) || e == q + 1 || s[q] != '0') && plain_numbers(
            s,
            e,
            (n - 1) as nat,
        )
    }
}

proof fn lemma_digit(c: char)
    requires
        is_digit(c),
    ensures
        0 <= c as int - '0' as int <= 9,
        digit_chars()[c as int - '0' as int] == c,
{
}

/// A string of digits without leading zeros is the decimal writing of its value.
proof fn lemma_decimal(d: Seq<char>)
    requires
        d.len() >= 1,
        forall|k: int| 0 <= k < d.len() ==> is_digit(#[trigger] d[k]),
        d.len() == 1 || d[0] != '0',
    ensures
        digits_value(d) >= 0,
        d.len() == 1 ==> digits_value(d) < 10,
        d.len() >= 2 ==> digits_value(d) >= 10,
        decimal(digits_value(d) as nat) == d,
    decreases d.len(),
{
    let c = d.last();
    lemma_digit(c);
    let r = c as int - '0' as int;
    let d1 = d.drop_last();
    if d.len() == 1 {
        assert(d1 =~= Seq::<char>::empty());
        assert(digits_value(d1) == 0);
        assert(decimal(r as nat) =~= d);
    } else {
        assert(d1[0] == d[0]);
        assert(forall|k: int| 0 <= k < d1.len() ==> d1[k] == d[k]);
        lemma_decimal(d1);
        let v1 = digits_value(d1);
        if d1.len() == 1 {
            lemma_digit(d[0]);
            assert(d1.drop_last() =~= Seq::<char>::empty());
            assert(v1 == d[0] as int - '0' as int);
            assert(v1 >= 1);
        }
        let v = v1 * 10 + r;
        assert(v == digits_value(d));
        assert(v / 10 == v1 && v % 10 == r) by (nonlinear_arith)
            requires
                v == v1 * 10 + r,
                0 <= r < 10,
                v1 >= 1,
        ;
        assert(decimal(v as nat) == decimal(v1 as nat) + seq![digit_chars()[r]]);
        assert(d1 + seq![c] =~= d);
    }
}

/// The text of a scanned token is its lexeme, when a number has no leading zero.
proof fn lemma_token_text(s: Seq<char>, q: int, t: Token)
    requires
        0 <= q < s.len(),
        lexeme_end(s, q) is Some,
        token_of(s, q, lexeme_end(s, q)->Some_0, t),
        first_fixed(s, q, 0) < N_FIXED || !is_digit(s[q]) || lexeme_end(s, q)->Some_0 == q + 1 || s[q]
            != '0',
    ensures
        token_text(t) == s.subrange(q, lexeme_end(s, q)->Some_0),
{
    let e = lexeme_end(s, q)->Some_0;
    let i = first_fixed(s, q, 0);
    lemma_first_fixed(s, q, 0);
    if i < N_FIXED {
        assert(fixed_index(fixed_token(i)) == i);
    } else if is_digit(s[q]) {
        lemma_run(s, q, true);
        lemma_run(s, q + 1, true);
        let d = s.subrange(q, e);
        assert(forall|k: int| 0 <= k < d.len() ==> #[trigger] d[k] == s[q + k]);
        lemma_decimal(d);
    }
}

proof fn lemma_tokens_scanned(s: Seq<char>, p: int, toks: Seq<Token>)
    requires
        0 <= p <= s.len(),
        lexes(s, p, toks, None),
        plain_numbers(s, p, toks.len()),
    ensures
        tokens_text(toks) == scanned_text(s, p, toks.len()),
    decreases toks.len(),
{
    if toks.len() > 0 {
        lemma_skip(s, p);
        let q = skip_space(s, p);
        let e = lexeme_end(s, q)->Some_0;
        lemma_lexeme(s, q);
        lemma_token_text(s, q, toks[0]);
        lemma_tokens_scanned(s, e, toks.drop_first());
    }
}

/// Scanning and writing the tokens back agree: when a scan reads the input to
/// its end and every number in it is written without leading zeros, the texts
/// of its tokens put together are the input without whitespace.
pub proof fn lemma_token_round_trip(s: Seq<char>, toks: Seq<Token>)
    requires
        lexes(s, 0, toks, None),
        plain_numbers(s, 0, toks.len()),
    ensures
        tokens_text(toks) == strip_space(s),
{
    lemma_scan_round_trip(s, 0, toks);
    lemma_tokens_scanned(s, 0, toks);
    assert(s.subrange(0, s.len() as int) =~= s);
}

/// Two tokens are the same: equal, or names with the same text.
pub open spec fn same_token(a: Token, b: Token) -> bool {
    match (a, b) {
        (Token::Var(x), Token::Var(y)) => x@ == y@,
        _ => a == b,
    }
}

/// Scanning is deterministic: two scans of the same input from the same
/// position yield the same tokens and end the same way.
pub proof fn lemma_scan_deterministic(
    s: Seq<char>,
    p: int,
    t1: Seq<Token>,
    e1: Option<Error>,
    t2: Seq<Token>,
    e2: Option<Error>,
)
    requires
        lexes(s, p, t1, e1),
        lexes(s, p, t2, e2),
    ensures
        t1.len() == t2.len(),
        e1 == e2,
        forall|i: int| 0 <= i < t1.len() ==> same_token(#[trigger] t1[i], t2[i]),
    decreases t1.len(),
{
    if t1.len() > 0 && t2.len() > 0 {
        let q = skip_space(s, p);
        let e = lexeme_end(s, q)->Some_0;
        lemma_scan_deterministic(s, e, t1.drop_first(), e1, t2.drop_first(), e2);
        assert forall|i: int| 0 <= i < t1.len() implies same_token(#[trigger] t1[i], t2[i]) by {
            if i > 0 {
                assert(t1[i] == t1.drop_first()[i - 1]);
                assert(t2[i] == t2.drop_first()[i - 1]);
            }
        }
    }
}

/// A scanner over the characters of a source text.
pub struct Lexer {
    source: String,
    chars: Vec<char>,
    pos: usize,
}

impl Lexer {
    pub closed spec fn text(&self) -> Seq<char> {
        self.chars@
    }

    pub closed spec fn position(&self) -> int {
        self.pos as int
    }

    pub closed spec fn wf(&self) -> bool {
        &&& self.chars@ == self.source@
        &&& self.pos <= self.chars@.len()
    }

    pub fn new(input: &str) -> (r: Lexer)
        ensures
            r.wf(),
            r.text() == input@,
            r.position() == 0,
    {
        let source = String::from_str(input);
        let n = source.as_str().unicode_len();
        let mut chars: Vec<char> = Vec::new();
        let mut i: usize = 0;
        while i < n
            invariant
                n == source@.len(),
                i <= n,
                chars@ == source@.subrange(0, i as int),
            decreases n - i,
        {
            chars.push(source.as_str().get_char(i));
            i += 1;
            assert(chars@ =~= source@.subrange(0, i as int));
        }
        assert(chars@ =~= source@);
        Lexer { source, chars, pos: 0 }
    }

    fn unknown(&self, p: usize) -> (r: Error)
        requires
            self.wf(),
            p < self.chars@.len(),
        ensures
            r == Error::Unknown(line_col(self.text(), p as int).0 as usize, line_col(self.text(), p as int).1 as usize),
    {
        let n = self.chars.len();
        let mut line: usize = 1;
        let mut col: usize = 0;
        let mut i: usize = 0;
        while i < p
            invariant
                self.wf(),
                n == self.chars@.len(),
                p < n,
                i <= p,
                line <= i + 1,
                col <= i,
                (line as int, col as int) == line_col(self.text(), i as int),
            decreases p - i,
        {
            if self.chars[i] == '\n' {
                line += 1;
                col = 0;
            } else {
                col += 1;
            }
            i += 1;
        }
        Error::Unknown(line, col)
    }

    /// Moves past whitespace.
    fn skip_whitespace(&mut self)
        requires
            old(self).wf(),
        ensures
            final(self).wf(),
            final(self).text() == old(self).text(),
            final(self).position() == skip_space(old(self).text(), old(self).position()),
            final(self).position() >= old(self).position(),
    {
        while self.pos < self.chars.len() && is_space_char(self.chars[self.pos])
            invariant
                self.wf(),
                self.text() == old(self).text(),
                skip_space(self.text(), self.position()) == skip_space(old(self).text(), old(self).position()),
                self.pos >= old(self).pos,
            decreases self.chars@.len() - self.pos,
        {
            self.pos += 1;
        }
    }

    /// The first fixed lexeme that the input holds at `p`.
    fn symbol_or_keyword(&self, p: usize) -> (r: usize)
        requires
            self.wf(),
            p <= self.chars@.len(),
        ensures
            r == first_fixed(self.text(), p as int, 0),
    {
        let mut i: usize = 0;
        while i < N_FIXED
            invariant
                self.wf(),
                p <= self.chars@.len(),
                i <= N_FIXED,
                first_fixed(self.text(), p as int, i as int) == first_fixed(self.text(), p as int, 0),
            decreases N_FIXED - i,
        {
            let lexeme = fixed_chars(i);
            if self.holds_at(p, &lexeme) {
                return i;
            }
            i += 1;
        }
        N_FIXED
    }

    /// Whether the input holds `t` at `p`.
    fn holds_at(&self, p: usize, t: &Vec<char>) -> (r: bool)
        requires
            self.wf(),
            p <= self.chars@.len(),
        ensures
            r == starts_with(self.text(), p as int, t@),
    {
        let n = self.chars.len();
        if t.len() > n - p {
            return false;
        }
        let mut j: usize = 0;
        while j < t.len()
            invariant
                self.wf(),
                n == self.chars@.len(),
                p + t@.len() <= self.chars@.len(),
                j <= t@.len(),
                forall|k: int| 0 <= k < j ==> self.chars@[p + k] == t@[k],
            decreases t@.len() - j,
        {
            if self.chars[p + j] != t[j] {
                assert(self.chars@.subrange(p as int, p + t@.len())[j as int] != t@[j as int]);
                return false;
            }
            j += 1;
        }
        assert(self.chars@.subrange(p as int, p + t@.len()) =~= t@);
        true
    }

    /// The end of the run of digits (or letters and digits) from `p`.
    fn run(&self, p: usize, digits: bool) -> (r: usize)
        requires
            self.wf(),
            p <= self.chars@.len(),
        ensures
            r == run_end(self.text(), p as int, digits),
            p <= r <= self.chars@.len(),
    {
        let mut e = p;
        while e < self.chars.len() && in_run(self.chars[e], digits)
            invariant
                self.wf(),
                p <= e <= self.chars@.len(),
                run_end(self.text(), e as int, digits) == run_end(self.text(), p as int, digits),
            decreases self.chars@.len() - e,
        {
            e += 1;
        }
        e
    }

    /// The name that starts with the letter at `p`, and where it ends.
    fn variable(&self, p: usize) -> (r: (String, usize))
        requires
            self.wf(),
            p < self.chars@.len(),
        ensures
            r.1 == run_end(self.text(), p + 1, false),
            p < r.1 <= self.chars@.len(),
            r.0@ == self.text().subrange(p as int, r.1 as int),
    {
        let n = self.chars.len();
        assert(p + 1 <= n);
        let e = self.run(p + 1, false);
        proof {
            lemma_run(self.text(), p as int + 1, false);
        }
        (String::from_str(self.source.as_str().substring_char(p, e)), e)
    }

    /// The value of the digits `p..e`, or `None` past `i32::MAX`.
    fn int_value(&self, p: usize, e: usize) -> (r: Option<i32>)
        requires
            self.wf(),
            p <= e <= self.chars@.len(),
            forall|k: int| p <= k < e ==> is_digit(#[trigger] self.chars@[k]),
        ensures
            match r {
                Some(v) => digits_value(self.text().subrange(p as int, e as int)) == v as int,
                None => digits_value(self.text().subrange(p as int, e as int)) > i32::MAX,
            },
    {
        let cap: u64 = 2147483648;
        let mut acc: u64 = 0;
        let mut k: usize = p;
        while k < e
            invariant
                self.wf(),
                p <= k <= e <= self.chars@.len(),
                forall|q: int| p <= q < e ==> is_digit(#[trigger] self.chars@[q]),
                cap == 2147483648,
                acc <= cap,
                acc as int == if digits_value(self.text().subrange(p as int, k as int)) < cap {
                    digits_value(self.text().subrange(p as int, k as int))
                } else {
                    cap as int
                },
                digits_value(self.text().subrange(p as int, k as int)) >= 0,
            decreases e - k,
        {
            let c = self.chars[k];
            assert(is_digit(c));
            assert('0' as u32 <= c as u32 <= '9' as u32);
            let d = (c as u32 - '0' as u32) as u64;
            assert(d <= 9);
            assert(self.text().subrange(p as int, k + 1).drop_last() =~= self.text().subrange(p as int, k as int));
            let next = acc * 10 + d;
            acc = if next < cap { next } else { cap };
            k += 1;
        }
        if acc < cap {
            Some(acc as i32)
        } else {
            None
        }
    }

    /// The next token, an error at unrecognized input (which is not consumed),
    /// or `None` when only whitespace is left.
    pub fn next(&mut self) -> (r: Option<LexResult>)
        requires
            old(self).wf(),
        ensures
            final(self).wf(),
            final(self).text() == old(self).text(),
            old(self).position() <= final(self).position() <= final(self).text().len(),
            r is Some && r->Some_0 is Ok ==> final(self).position() > skip_space(old(self).text(), old(self).position()),
            r is Some && r->Some_0 is Ok ==> final(self).position() > old(self).position(),
            ({
                let s = old(self).text();
                let p = skip_space(s, old(self).position());
                match r {
                    None => p == s.len() && final(self).position() == p,
                    Some(Ok(t)) => p < s.len() && lexeme_end(s, p) == Some(final(self).position())
                        && token_of(s, p, final(self).position(), t),
                    Some(Err(err)) => p < s.len() && lexeme_end(s, p) is None && final(self).position()
                        == p && err == Error::Unknown(line_col(s, p).0 as usize, line_col(s, p).1 as usize),
                }
            }),
    {
        self.skip_whitespace();
        let p = self.pos;
        let len = self.chars.len();
        if p == len {
            return None;
        }
        let i = self.symbol_or_keyword(p);
        if i < N_FIXED {
            let n = fixed_chars(i).len();
            proof {
                lemma_first_fixed(self.text(), p as int, 0);
                assert(fixed_text(i as int).len() > 0);
            }
            self.pos = p + n;
            return Some(Ok(fixed_tok(i)));
        }
        let c = self.chars[p];
        if is_digit_char(c) {
            let e = self.run(p, true);
            proof {
                lemma_run(self.text(), p as int, true);
                lemma_run(self.text(), p as int + 1, true);
            }
            match self.int_value(p, e) {
                Some(v) => {
                    self.pos = e;
                    return Some(Ok(Token::Int(v)));
                },
                None => return Some(Err(self.unknown(p))),
            }
        }
        if is_letter_char(c) {
            let (ident, e) = self.variable(p);
            self.pos = e;
            return Some(Ok(Token::Var(ident)));
        }
        Some(Err(self.unknown(p)))
    }
}

fn is_space_char(c: char) -> (r: bool)
    ensures
        r == is_space(c),
{
    c == ' ' || ('\t' <= c && c <= '\r') || c == '\u{85}' || c == '\u{a0}' || c == '\u{1680}' || ('\u{2000}' <= c && c
        <= '\u{200a}') || c == '\u{2028}' || c == '\u{2029}' || c == '\u{202f}' || c == '\u{205f}' || c == '\u{3000}'
}

fn is_digit_char(c: char) -> (r: bool)
    ensures
        r == is_digit(c),
{
    '0' <= c && c <= '9'
}

fn is_letter_char(c: char) -> (r: bool)
    ensures
        r == is_letter(c),
{
    ('a' <= c && c <= 'z') || ('A' <= c && c <= 'Z')
}

fn in_run(c: char, digits: bool) -> (r: bool)
    ensures
        r == if digits {
            is_digit(c)
        } else {
            is_alnum(c)
        },
{
    if digits {
        is_digit_char(c)
    } else {
        is_alnum_char(c)
    }
}

fn is_alnum_char(c: char) -> (r: bool)
    ensures
        r == is_alnum(c),
{
    is_letter_char(c) || is_digit_char(c)
}

/// The characters of the `i`-th fixed lexeme.
fn fixed_chars(i: usize) -> (r: Vec<char>)
    requires
        i < N_FIXED,
    ensures
        r@ == fixed_text(i as int),
{
    let r = if i == 0 {
        vec!['(']
    } else if i == 1 {
        vec![')']
    } else if i == 2 {
        vec!['{']
    } else if i == 3 {
        vec!['}']
    } else if i == 4 {
        vec!['=']
    } else if i == 5 {
        vec!['&']
    } else if i == 6 {
        vec!['*']
    } else if i == 7 {
        vec![',']
    } else if i == 8 {
        vec![';']
    } else if i == 9 {
        vec!['f', 'n']
    } else if i == 10 {
        vec!['l', 'e', 't']
    } else if i == 11 {
        vec!['m', 'u', 't']
    } else if i == 12 {
        vec!['B', 'o', 'x', ':', ':', 'n', 'e', 'w']
    } else {
        vec!['a', 's', 's', 'e', 'r', 't', '_', 'e', 'q', '!']
    };
    assert(r@ =~= fixed_text(i as int));
    r
}

/// The token of the `i`-th fixed lexeme.
fn fixed_tok(i: usize) -> (r: Token)
    requires
        i < N_FIXED,
    ensures
        r == fixed_token(i as int),
{
    if i == 0 {
        Token::Lparen
    } else if i == 1 {
        Token::Rparen
    } else if i == 2 {
        Token::Lbracket
    } else if i == 3 {
        Token::Rbracket
    } else if i == 4 {
        Token::Eq
    } else if i == 5 {
        Token::Ampersand
    } else if i == 6 {
        Token::Star
    } else if i == 7 {
        Token::Comma
    } else if i == 8 {
        Token::Semicolon
    } else if i == 9 {
        Token::Fn
    } else if i == 10 {
        Token::Let
    } else if i == 11 {
        Token::Mut
    } else if i == 12 {
        Token::Box
    } else {
        Token::AssertEq
    }
}

} // verus!
