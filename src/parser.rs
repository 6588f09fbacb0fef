use vstd::prelude::*;
use vstd::string::StrSliceExecFns;
use crate::lexer::{Lexer, Token, lexeme_end, lexes, skip_space, token_of};
use crate::types::{shape_eq, shape_eq_stmt};
use crate::utils::{Expr, Lifetime, Lval, Stmt};

verus! {

#[derive(Debug, Clone, PartialEq)]
pub enum Error {
    EndOfFile,
    Lexer(crate::lexer::Error),
    Unexpected(Token),
}

pub type ParseResult<T> = Result<T, Error>;

pub open spec fn lval_tokens(lv: Lval) -> Seq<Token> {
    Seq::new(lv.derefs as nat, |i: int| Token::Star) + seq![Token::Var(lv.ident)]
}

/// The tokens that write an expression.
pub open spec fn expr_tokens(e: Expr) -> Seq<Token>
    decreases e,
{
    match e {
        Expr::Unit => seq![],
        Expr::Int(n) => seq![Token::Int(n)],
        Expr::Lval(lv, _) => lval_tokens(lv),
        Expr::Box(x) => seq![Token::Box, Token::Lparen] + expr_tokens(*x) + seq![Token::Rparen],
        Expr::Borrow(lv, m) => seq![Token::Ampersand] + (if m {
            seq![Token::Mut]
        } else {
            seq![]
        }) + lval_tokens(lv),
        Expr::Block(ss, fin, _) => seq![Token::Lbracket] + stmts_tokens(ss@) + expr_tokens(*fin)
            + seq![Token::Rbracket],
        Expr::AssertEq(a, b) => seq![Token::AssertEq, Token::Lparen] + expr_tokens(*a) + seq![
            Token::Comma,
        ] + expr_tokens(*b) + seq![Token::Rparen],
    }
}

pub open spec fn stmt_tokens(s: Stmt) -> Seq<Token>
    decreases s,
{
    match s {
        Stmt::LetMut(x, e) => seq![Token::Let, Token::Mut, Token::Var(x), Token::Eq] + expr_tokens(e),
        Stmt::Assign(lv, e) => lval_tokens(lv) + seq![Token::Eq] + expr_tokens(e),
        Stmt::Expr(e) => expr_tokens(e),
    }
}

/// The tokens of statements, each followed by a semicolon.
pub open spec fn stmts_tokens(ss: Seq<Stmt>) -> Seq<Token>
    decreases ss,
{
    if ss.len() == 0 {
        seq![]
    } else {
        stmts_tokens(ss.drop_last()) + stmt_tokens(ss.last()) + seq![Token::Semicolon]
    }
}

/// Number of blocks in an expression.
pub open spec fn blocks(e: Expr) -> nat
    decreases e,
{
    match e {
        Expr::Box(x) => blocks(*x),
        Expr::Block(ss, fin, _) => 1 + blocks_stmts(ss@) + blocks(*fin),
        Expr::AssertEq(a, b) => blocks(*a) + blocks(*b),
        _ => 0,
    }
}

pub open spec fn blocks_stmt(s: Stmt) -> nat
    decreases s,
{
    match s {
        Stmt::LetMut(_, e) => blocks(e),
        Stmt::Assign(_, e) => blocks(e),
        Stmt::Expr(e) => blocks(e),
    }
}

pub open spec fn blocks_stmts(ss: Seq<Stmt>) -> nat
    decreases ss,
{
    if ss.len() == 0 {
        0
    } else {
        blocks_stmts(ss.drop_last()) + blocks_stmt(ss.last())
    }
}

/// `e` has the form the parser builds, and its blocks carry the lifetimes
/// `f`, `f + 1`, ... in the order they open: every variable use is unmarked,
/// `()` stands only at the end of a block, and every block ends in it.
pub open spec fn numbered(e: Expr, f: nat) -> bool
    decreases e,
{
    match e {
        Expr::Unit => false,
        Expr::Lval(_, c) => !c,
        Expr::Box(x) => numbered(*x, f),
        Expr::Block(ss, fin, l) => l.0 == f && numbered_stmts(ss@, f + 1) && *fin == Expr::Unit,
        Expr::AssertEq(a, b) => numbered(*a, f) && numbered(*b, f + blocks(*a)),
        _ => true,
    }
}

pub open spec fn numbered_stmt(s: Stmt, f: nat) -> bool
    decreases s,
{
    match s {
        Stmt::LetMut(_, e) => numbered(e, f),
        Stmt::Assign(_, e) => numbered(e, f),
        Stmt::Expr(e) => numbered(e, f) && !(e is Lval),
    }
}

pub open spec fn numbered_stmts(ss: Seq<Stmt>, f: nat) -> bool
    decreases ss,
{
    if ss.len() == 0 {
        true
    } else {
        numbered_stmts(ss.drop_last(), f) && numbered_stmt(ss.last(), f + blocks_stmts(ss.drop_last()))
    }
}

/// The tokens from `p` on start with those of the lvalue `lv`.
pub open spec fn lval_at(toks: Seq<Token>, p: int, lv: Lval, rest: Seq<Token>) -> bool {
    0 <= p <= toks.len() && toks.subrange(p, toks.len() as int) == lval_tokens(lv) + rest
}

/// The tokens from `p` on start with those of the parsed expression `e`, whose
/// blocks are numbered from `f` and stay below the largest lifetime.
pub open spec fn expr_at(toks: Seq<Token>, p: int, e: Expr, rest: Seq<Token>, f: nat) -> bool {
    &&& 0 <= p <= toks.len()
    &&& toks.subrange(p, toks.len() as int) == expr_tokens(e) + rest
    &&& numbered(e, f)
    &&& f + blocks(e) < usize::MAX
}

/// The tokens from `p` on start with those of the parsed statement `s`.
pub open spec fn stmt_at(toks: Seq<Token>, p: int, s: Stmt, rest: Seq<Token>, f: nat) -> bool {
    &&& 0 <= p <= toks.len()
    &&& toks.subrange(p, toks.len() as int) == stmt_tokens(s) + rest
    &&& numbered_stmt(s, f)
    &&& f + blocks_stmt(s) < usize::MAX
}

/// `toks` write `fn main () { ... }` with `e` as the block.
pub open spec fn program_tokens(toks: Seq<Token>, e: Expr) -> bool {
    &&& toks.len() >= 4
    &&& toks[0] == Token::Fn
    &&& toks[1] matches Token::Var(x) && x@ == seq!['m', 'a', 'i', 'n']
    &&& toks[2] == Token::Lparen
    &&& toks[3] == Token::Rparen
    &&& toks.subrange(4, toks.len() as int) == expr_tokens(e)
    &&& e is Block
}

/// The tokens from `p` on start with `fn main ( )` and then the parsed block `e`.
pub open spec fn program_at(toks: Seq<Token>, p: int, e: Expr, rest: Seq<Token>, f: nat) -> bool {
    &&& 0 <= p && p + 4 <= toks.len()
    &&& toks[p] == Token::Fn
    &&& toks[p + 1] matches Token::Var(x) && x@ == seq!['m', 'a', 'i', 'n']
    &&& toks[p + 2] == Token::Lparen
    &&& toks[p + 3] == Token::Rparen
    &&& expr_at(toks, p + 4, e, rest, f)
    &&& e is Block
}

/// The tokens from `p` on run out before `full` is complete, agreeing with it
/// as far as they go.
pub open spec fn cut_at(toks: Seq<Token>, p: int, full: Seq<Token>) -> bool {
    &&& 0 <= p <= toks.len()
    &&& toks.len() - p < full.len()
    &&& toks.subrange(p, toks.len() as int) == full.subrange(0, toks.len() - p)
}

/// The tokens from `p` on run out inside the parsed expression `e`.
pub open spec fn expr_cut(toks: Seq<Token>, p: int, e: Expr, f: nat) -> bool {
    cut_at(toks, p, expr_tokens(e)) && numbered(e, f) && f + blocks(e) < usize::MAX
}

/// The tokens from `p` on run out inside the parsed statement `s`.
pub open spec fn stmt_cut(toks: Seq<Token>, p: int, s: Stmt, f: nat) -> bool {
    cut_at(toks, p, stmt_tokens(s)) && numbered_stmt(s, f) && f + blocks_stmt(s) < usize::MAX
}

/// The tokens from `p` on run out inside `fn main ( )` followed by the parsed
/// block `e`, where `w` is the name `main`.
pub open spec fn program_cut(toks: Seq<Token>, p: int, e: Expr, w: Token, f: nat) -> bool {
    &&& w matches Token::Var(x) && x@ == seq!['m', 'a', 'i', 'n']
    &&& cut_at(toks, p, seq![Token::Fn, w, Token::Lparen, Token::Rparen] + expr_tokens(e))
    &&& numbered(e, f)
    &&& e is Block
    &&& f + blocks(e) < usize::MAX
}

/// A recursive-descent parser over the tokens of a source text.
pub struct Parser {
    pub tokens: Vec<Token>,
    /// The scanning error that ended the tokens, if any.
    pub end: Option<crate::lexer::Error>,
    pub pos: usize,
    /// The lifetime the next block opened gets.
    pub fresh: usize,
}

impl Token {
    pub fn duplicate(&self) -> (r: Token)
        ensures
            r == *self,
    {
        match self {
            Token::Lparen => Token::Lparen,
            Token::Rparen => Token::Rparen,
            Token::Lbracket => Token::Lbracket,
            Token::Rbracket => Token::Rbracket,
            Token::Eq => Token::Eq,
            Token::Ampersand => Token::Ampersand,
            Token::Star => Token::Star,
            Token::Comma => Token::Comma,
            Token::Semicolon => Token::Semicolon,
            Token::Fn => Token::Fn,
            Token::Let => Token::Let,
            Token::Mut => Token::Mut,
            Token::Box => Token::Box,
            Token::AssertEq => Token::AssertEq,
            Token::Int(n) => Token::Int(*n),
            Token::Var(s) => Token::Var(s.clone()),
        }
    }
}

/// Whether two tokens are equal, the second not being a name.
fn same_token(a: &Token, b: &Token) -> (r: bool)
    requires
        !(b is Var),
    ensures
        r == (*a == *b),
{
    match (a, b) {
        (Token::Lparen, Token::Lparen) => true,
        (Token::Rparen, Token::Rparen) => true,
        (Token::Lbracket, Token::Lbracket) => true,
        (Token::Rbracket, Token::Rbracket) => true,
        (Token::Eq, Token::Eq) => true,
        (Token::Ampersand, Token::Ampersand) => true,
        (Token::Star, Token::Star) => true,
        (Token::Comma, Token::Comma) => true,
        (Token::Semicolon, Token::Semicolon) => true,
        (Token::Fn, Token::Fn) => true,
        (Token::Let, Token::Let) => true,
        (Token::Mut, Token::Mut) => true,
        (Token::Box, Token::Box) => true,
        (Token::AssertEq, Token::AssertEq) => true,
        (Token::Int(x), Token::Int(y)) => *x == *y,
        _ => false,
    }
}

/// Whether a name is `main`.
fn is_main(s: &String) -> (r: bool)
    ensures
        r == (s@ == seq!['m', 'a', 'i', 'n']),
{
    let t = s.as_str();
    if t.unicode_len() != 4 {
        return false;
    }
    let r = t.get_char(0) == 'm' && t.get_char(1) == 'a' && t.get_char(2) == 'i' && t.get_char(3) == 'n';
    assert(r ==> s@ =~= seq!['m', 'a', 'i', 'n']);
    r
}

impl Parser {
    pub open spec fn wf(&self) -> bool {
        self.pos <= self.tokens@.len()
    }

    /// The error reported when the tokens run out.
    pub open spec fn end_error(&self) -> Error {
        match self.end {
            Some(x) => Error::Lexer(x),
            None => Error::EndOfFile,
        }
    }

    /// The same tokens to parse.
    pub open spec fn same_input(&self, o: &Parser) -> bool {
        self.tokens@ == o.tokens@ && self.end == o.end
    }

    pub fn new(input: &str) -> (r: Parser)
        ensures
            r.wf(),
            lexes(input@, 0, r.tokens@, r.end),
            r.pos == 0,
            r.fresh == 1,
    {
        let mut lexer = Lexer::new(input);
        let mut tokens: Vec<Token> = Vec::new();
        let mut end: Option<crate::lexer::Error> = None;
        loop
            invariant_except_break
                lexer.wf(),
                lexer.text() == input@,
                0 <= lexer.position() <= input@.len(),
                forall|rest: Seq<Token>, e: Option<crate::lexer::Error>|
                    lexes(input@, lexer.position(), rest, e) ==> #[trigger] lexes(input@, 0, tokens@ + rest, e),
            ensures
                lexes(input@, 0, tokens@, end),
            decreases input@.len() - lexer.position(),
        {
            let ghost p0 = lexer.position();
            let ghost t0 = tokens@;
            match lexer.next() {
                None => {
                    end = None;
                    proof {
                        assert(lexes(input@, p0, Seq::<Token>::empty(), None));
                        assert(lexes(input@, 0, t0 + Seq::<Token>::empty(), None));
                        assert(tokens@ + Seq::<Token>::empty() =~= tokens@);
                    }
                    break;
                },
                Some(Err(e)) => {
                    end = Some(e);
                    proof {
                        assert(lexes(input@, p0, Seq::<Token>::empty(), Some(e)));
                        assert(lexes(input@, 0, t0 + Seq::<Token>::empty(), Some(e)));
                        assert(tokens@ + Seq::<Token>::empty() =~= tokens@);
                    }
                    break;
                },
                Some(Ok(t)) => {
                    tokens.push(t);
                    proof {
                        assert forall|rest: Seq<Token>, e: Option<crate::lexer::Error>|
                            lexes(input@, lexer.position(), rest, e) implies #[trigger] lexes(input@, 0, tokens@ + rest, e) by {
                            let full = seq![t] + rest;
                            assert(full.drop_first() =~= rest);
                            assert(full[0] == t);
                            let q = skip_space(input@, p0);
                            assert(q < input@.len());
                            assert(lexeme_end(input@, q) == Some(lexer.position()));
                            assert(token_of(input@, q, lexer.position(), t));
                            assert(lexes(input@, p0, full, e));
                            assert(lexes(input@, 0, t0 + full, e));
                            assert(t0 + full =~= tokens@ + rest);
                        }
                    }
                },
            }
        }
        Parser { tokens, end, pos: 0, fresh: 1 }
    }

    fn next_token(&mut self) -> (r: ParseResult<Token>)
        requires
            old(self).wf(),
        ensures
            final(self).wf(),
            final(self).same_input(old(self)),
            final(self).fresh == old(self).fresh,
            r is Ok ==> old(self).pos < old(self).tokens@.len(),
            r is Ok ==> final(self).pos == old(self).pos + 1,
            r is Ok ==> r->Ok_0 == old(self).tokens@[old(self).pos as int],
            match r {
                Ok(_) => true,
                Err(e) => old(self).pos == old(self).tokens@.len() && final(self).pos == old(self).pos
                    && e == match old(self).end {
                    Some(x) => Error::Lexer(x),
                    None => Error::EndOfFile,
                },
            },
    {
        if self.pos < self.tokens.len() {
            let t = self.tokens[self.pos].duplicate();
            assert(t == old(self).tokens@[old(self).pos as int]);
            self.pos += 1;
            Ok(t)
        } else {
            match &self.end {
                Some(x) => Err(Error::Lexer(*x)),
                None => Err(Error::EndOfFile),
            }
        }
    }

    fn next_token_match(&mut self, expected: Token) -> (r: ParseResult<Token>)
        requires
            old(self).wf(),
            !(expected is Var),
        ensures
            final(self).wf(),
            final(self).same_input(old(self)),
            final(self).fresh == old(self).fresh,
            r is Ok ==> old(self).pos < old(self).tokens@.len() && old(self).tokens@[old(self).pos as int]
                == expected && final(self).pos == old(self).pos + 1 && r == Ok::<Token, Error>(expected),
            old(self).pos < old(self).tokens@.len() && old(self).tokens@[old(self).pos as int] == expected
                ==> r is Ok,
            old(self).pos < old(self).tokens@.len() && old(self).tokens@[old(self).pos as int] != expected
                ==> r == Err::<Token, Error>(Error::Unexpected(old(self).tokens@[old(self).pos as int])),
            old(self).pos == old(self).tokens@.len() ==> r == Err::<Token, Error>(old(self).end_error()),
    {
        let tok = self.next_token()?;
        if same_token(&tok, &expected) {
            Ok(tok)
        } else {
            Err(Error::Unexpected(tok))
        }
    }

    fn peek_token(&self) -> (r: ParseResult<&Token>)
        requires
            self.wf(),
        ensures
            match r {
                Ok(t) => self.pos < self.tokens@.len() && *t == self.tokens@[self.pos as int],
                Err(e) => self.pos == self.tokens@.len() && e == self.end_error(),
            },
    {
        if self.pos < self.tokens.len() {
            Ok(&self.tokens[self.pos])
        } else {
            match &self.end {
                Some(x) => Err(Error::Lexer(*x)),
                None => Err(Error::EndOfFile),
            }
        }
    }

    fn parse_lval(&mut self) -> (r: ParseResult<Lval>)
        requires
            old(self).wf(),
        ensures
            final(self).wf(),
            final(self).same_input(old(self)),
            final(self).fresh == old(self).fresh,
            r matches Ok(lv) ==> old(self).pos < final(self).pos && final(self).tokens@.subrange(
                old(self).pos as int,
                final(self).pos as int,
            ) == lval_tokens(lv),
            (exists|lv: Lval, rest: Seq<Token>|
                #[trigger] lval_at(old(self).tokens@, old(self).pos as int, lv, rest)) ==> r is Ok,
            (exists|lv: Lval| #[trigger] cut_at(old(self).tokens@, old(self).pos as int, lval_tokens(lv)))
                ==> r == Err::<Lval, Error>(old(self).end_error()),
    {
        let start = self.pos;
        let ghost has_c = exists|lv: Lval| #[trigger] cut_at(self.tokens@, start as int, lval_tokens(lv));
        let ghost mut wc: Lval = arbitrary();
        proof {
            if has_c {
                wc = choose|lv: Lval| #[trigger] cut_at(self.tokens@, start as int, lval_tokens(lv));
            }
        }
        let ghost has_w = exists|lv: Lval, rest: Seq<Token>| #[trigger] lval_at(self.tokens@, start as int, lv, rest);
        let ghost mut w: (Lval, Seq<Token>) = arbitrary();
        proof {
            if has_w {
                w = choose|lv: Lval, rest: Seq<Token>| #[trigger] lval_at(self.tokens@, start as int, lv, rest);
            }
        }
        let mut derefs: usize = 0;
        loop
            invariant
                self.wf(),
                self.same_input(old(self)),
                self.fresh == old(self).fresh,
                start == old(self).pos,
                self.pos == start + derefs,
                forall|k: int| start <= k < self.pos ==> self.tokens@[k] == Token::Star,
                has_w ==> lval_at(self.tokens@, start as int, w.0, w.1) && derefs <= w.0.derefs,
                has_w == exists|lv: Lval, rest: Seq<Token>|
                    #[trigger] lval_at(old(self).tokens@, old(self).pos as int, lv, rest),
                has_c == exists|lv: Lval| #[trigger] cut_at(old(self).tokens@, old(self).pos as int, lval_tokens(lv)),
                has_c ==> cut_at(self.tokens@, start as int, lval_tokens(wc)),
            ensures
                has_w ==> derefs == w.0.derefs,
                !has_c,
            decreases self.tokens@.len() - self.pos,
        {
            assert(has_w ==> self.pos < self.tokens@.len() && (self.tokens@[self.pos as int] == Token::Star
                <==> derefs < w.0.derefs)) by {
                if has_w {
                    let t = self.tokens@.subrange(start as int, self.tokens@.len() as int);
                    assert((lval_tokens(w.0) + w.1).len() == w.0.derefs + 1 + w.1.len());
                    assert(t[derefs as int] == self.tokens@[self.pos as int]);
                    assert((lval_tokens(w.0) + w.1)[w.0.derefs as int] == Token::Var(w.0.ident));
                    if derefs < w.0.derefs {
                        assert((lval_tokens(w.0) + w.1)[derefs as int] == Token::Star);
                    }
                }
            }
            assert(has_c ==> (self.pos < self.tokens@.len() ==> self.tokens@[self.pos as int] == Token::Star)) by {
                if has_c && self.pos < self.tokens@.len() {
                    let full = lval_tokens(wc);
                    let m = self.tokens@.len() - start;
                    assert(self.tokens@.subrange(start as int, self.tokens@.len() as int)[derefs as int]
                        == full.subrange(0, m)[derefs as int]);
                    assert(full[derefs as int] == Token::Star);
                }
            }
            let star = match self.peek_token()? {
                Token::Star => true,
                _ => false,
            };
            if !star {
                break;
            }
            self.next_token()?;
            derefs += 1;
        }
        assert(has_w ==> self.pos < self.tokens@.len() && self.tokens@[self.pos as int] is Var) by {
            if has_w {
                let t = self.tokens@.subrange(start as int, self.tokens@.len() as int);
                assert((lval_tokens(w.0) + w.1).len() == w.0.derefs + 1 + w.1.len());
                assert(t[derefs as int] == self.tokens@[self.pos as int]);
                assert((lval_tokens(w.0) + w.1)[w.0.derefs as int] == Token::Var(w.0.ident));
            }
        }
        match self.next_token()? {
            Token::Var(s) => {
                let lv = Lval { ident: s, derefs };
                assert(self.tokens@.subrange(start as int, self.pos as int) =~= lval_tokens(lv));
                Ok(lv)
            },
            t => Err(Error::Unexpected(t)),
        }
    }

    /// Parses an expression.
    #[verifier::rlimit(100)]
    fn parse_expr(&mut self) -> (r: ParseResult<Expr>)
        requires
            old(self).wf(),
        ensures
            final(self).wf(),
            final(self).same_input(old(self)),
            r matches Ok(e) ==> old(self).pos < final(self).pos && final(self).tokens@.subrange(
                old(self).pos as int,
                final(self).pos as int,
            ) == expr_tokens(e) && numbered(e, old(self).fresh as nat) && final(self).fresh
                == old(self).fresh + blocks(e),
            (exists|e: Expr, rest: Seq<Token>|
                #[trigger] expr_at(old(self).tokens@, old(self).pos as int, e, rest, old(self).fresh as nat))
                ==> r is Ok,
            (exists|e: Expr| #[trigger] expr_cut(old(self).tokens@, old(self).pos as int, e, old(self).fresh as nat))
                ==> r == Err::<Expr, Error>(old(self).end_error()),
        decreases old(self).tokens@.len() - old(self).pos, 2nat,
    {
        let start = self.pos;
        let ghost toks = self.tokens@;
        let ghost f = self.fresh as nat;
        let ghost has_w = exists|e: Expr, rest: Seq<Token>| #[trigger] expr_at(toks, start as int, e, rest, f);
        let ghost mut w: (Expr, Seq<Token>) = arbitrary();
        proof {
            if has_w {
                w = choose|e: Expr, rest: Seq<Token>| #[trigger] expr_at(toks, start as int, e, rest, f);
            }
        }
        let ghost we = w.0;
        let ghost wr = w.1;
        let ghost has_c = exists|e: Expr| #[trigger] expr_cut(toks, start as int, e, f);
        let ghost mut wc: Expr = arbitrary();
        proof {
            if has_c {
                wc = choose|e: Expr| #[trigger] expr_cut(toks, start as int, e, f);
            }
        }
        let ghost ce = expr_tokens(wc);
        assert(has_w ==> start < toks.len() && toks[start as int] == head(we)) by {
            if has_w {
                lemma_head(we, f, wr);
                lemma_skip_prefix(toks, start as int, expr_tokens(we), wr);
                assert((expr_tokens(we) + wr)[0] == expr_tokens(we)[0]);
            }
        }
        assert(has_c && start < toks.len() ==> toks[start as int] == head(wc) && !(wc is Int)) by {
            if has_c && start < toks.len() {
                lemma_head(wc, f, Seq::<Token>::empty());
                lemma_cut_head(toks, start as int, ce);
                assert((ce + Seq::<Token>::empty())[0] == ce[0]);
            }
        }
        let kind: u8 = match self.peek_token()? {
            Token::Int(_) => 0,
            Token::Var(_) | Token::Star => 1,
            Token::Box => 2,
            Token::Ampersand => 3,
            Token::Lbracket => 4,
            Token::AssertEq => 5,
            t => return Err(Error::Unexpected(t.duplicate())),
        };
        if kind == 0 {
            match self.next_token()? {
                Token::Int(n) => {
                    assert(self.tokens@.subrange(start as int, self.pos as int) =~= seq![Token::Int(n)]);
                    Ok(Expr::Int(n))
                },
                t => Err(Error::Unexpected(t)),
            }
        } else if kind == 1 {
            assert(has_w ==> we is Lval && lval_at(toks, start as int, we->Lval_0, wr));
            assert(has_c ==> wc is Lval && cut_at(toks, start as int, lval_tokens(wc->Lval_0)));
            let lval = self.parse_lval()?;
            Ok(Expr::Lval(lval, false))
        } else if kind == 2 {
            assert(has_w ==> expr_at(toks, start as int, we, wr, f) && we is Box);
            assert(has_c ==> expr_cut(toks, start as int, wc, f) && wc is Box);
            self.parse_box()
        } else if kind == 3 {
            assert(has_w ==> expr_at(toks, start as int, we, wr, f) && we is Borrow);
            assert(has_c ==> expr_cut(toks, start as int, wc, f) && wc is Borrow);
            self.parse_borrow()
        } else if kind == 4 {
            assert(has_w ==> we is Block && expr_at(toks, start as int, we, wr, f));
            assert(has_c ==> wc is Block && expr_cut(toks, start as int, wc, f));
            self.parse_block()
        } else {
            assert(has_w ==> expr_at(toks, start as int, we, wr, f) && we is AssertEq);
            assert(has_c ==> expr_cut(toks, start as int, wc, f) && wc is AssertEq);
            self.parse_assert_eq()
        }
    }

    /// Parses `Box::new ( e )`.
    #[verifier::rlimit(100)]
    fn parse_box(&mut self) -> (r: ParseResult<Expr>)
        requires
            old(self).wf(),
            old(self).pos < old(self).tokens@.len(),
            old(self).tokens@[old(self).pos as int] == Token::Box,
        ensures
            final(self).wf(),
            final(self).same_input(old(self)),
            r matches Ok(e) ==> old(self).pos < final(self).pos && final(self).tokens@.subrange(
                old(self).pos as int,
                final(self).pos as int,
            ) == expr_tokens(e) && numbered(e, old(self).fresh as nat) && final(self).fresh
                == old(self).fresh + blocks(e),
            (exists|e: Expr, rest: Seq<Token>|
                #[trigger] expr_at(old(self).tokens@, old(self).pos as int, e, rest, old(self).fresh as nat) && e is Box)
                ==> r is Ok,
            (exists|e: Expr| #[trigger] expr_cut(old(self).tokens@, old(self).pos as int, e, old(self).fresh as nat) && e is Box)
                ==> r == Err::<Expr, Error>(old(self).end_error()),
        decreases old(self).tokens@.len() - old(self).pos, 0nat,
    {
        let start = self.pos;
        let ghost toks = self.tokens@;
        let ghost f = self.fresh as nat;
        let ghost has_w = exists|e: Expr, rest: Seq<Token>| #[trigger] expr_at(toks, start as int, e, rest, f) && e is Box;
        let ghost mut w: (Expr, Seq<Token>) = arbitrary();
        proof {
            if has_w {
                w = choose|e: Expr, rest: Seq<Token>| #[trigger] expr_at(toks, start as int, e, rest, f) && e is Box;
            }
        }
        let ghost we = w.0;
        let ghost wr = w.1;
        let ghost has_c = exists|e: Expr| #[trigger] expr_cut(toks, start as int, e, f) && e is Box;
        let ghost mut wc: Expr = arbitrary();
        proof {
            if has_c {
                wc = choose|e: Expr| #[trigger] expr_cut(toks, start as int, e, f) && e is Box;
            }
        }
        let ghost ce = expr_tokens(wc);
        let ghost x = *we->Box_0;
        assert(has_w ==> toks[start + 1] == Token::Lparen && expr_at(toks, start + 2, x, seq![Token::Rparen] + wr, f)) by {
            if has_w {
                assert(expr_tokens(we) + wr =~= seq![Token::Box, Token::Lparen] + (expr_tokens(x) + (seq![Token::Rparen] + wr)));
                lemma_skip_prefix(toks, start as int, seq![Token::Box, Token::Lparen], expr_tokens(x) + (seq![Token::Rparen] + wr));
            }
        }
        let ghost cx = *wc->Box_0;
        let ghost xt = expr_tokens(cx);
        assert(has_c ==> start + 1 == toks.len() || (toks[start + 1] == Token::Lparen && cut_at(toks, start + 2, xt
            + seq![Token::Rparen]))) by {
            if has_c {
                assert(ce =~= seq![Token::Box, Token::Lparen] + (xt + seq![Token::Rparen]));
                lemma_cut_split(toks, start as int, seq![Token::Box, Token::Lparen], xt + seq![Token::Rparen]);
                if toks.len() - start >= 2 {
                    assert(toks.subrange(start as int, toks.len() as int)[1] == toks[start + 1]);
                }
            }
        }
        self.next_token()?;
        self.next_token_match(Token::Lparen)?;
        let p2 = self.pos;
        let ghost crest = toks.subrange(p2 + xt.len(), toks.len() as int);
        assert(has_c ==> expr_cut(toks, p2 as int, cx, f) || (expr_at(toks, p2 as int, cx, crest, f) && cut_at(
            toks,
            p2 + xt.len(),
            seq![Token::Rparen],
        ))) by {
            if has_c {
                lemma_cut_split(toks, p2 as int, xt, seq![Token::Rparen]);
            }
        }
        let inner = self.parse_expr()?;
        let p3 = self.pos;
        assert(has_c ==> p3 == toks.len()) by {
            if has_c {
                lemma_expr_found(toks, p2 as int, p3 as int, inner, cx, crest, f);
            }
        }
        assert(has_w ==> p3 < toks.len() && toks[p3 as int] == Token::Rparen) by {
            if has_w {
                assert(p2 == start + 2);
                assert(self.tokens@ == toks);
                assert(expr_at(toks, p2 as int, x, seq![Token::Rparen] + wr, f));
                assert(toks.subrange(p2 as int, p3 as int) == expr_tokens(inner));
                assert(numbered(inner, f));
                lemma_expr_found(toks, p2 as int, p3 as int, inner, x, seq![Token::Rparen] + wr, f);
                lemma_skip_prefix(toks, p3 as int, seq![Token::Rparen], wr);
                assert(seq![Token::Rparen][0] == Token::Rparen);
            }
        }
        self.next_token_match(Token::Rparen)?;
        assert(self.tokens@.subrange(start as int, self.pos as int) =~= seq![Token::Box, Token::Lparen]
            + self.tokens@.subrange(p2 as int, p3 as int) + seq![Token::Rparen]);
        Ok(Expr::Box(Box::new(inner)))
    }

    /// Parses `& [mut] lvalue`.
    #[verifier::rlimit(100)]
    fn parse_borrow(&mut self) -> (r: ParseResult<Expr>)
        requires
            old(self).wf(),
            old(self).pos < old(self).tokens@.len(),
            old(self).tokens@[old(self).pos as int] == Token::Ampersand,
        ensures
            final(self).wf(),
            final(self).same_input(old(self)),
            r matches Ok(e) ==> old(self).pos < final(self).pos && final(self).tokens@.subrange(
                old(self).pos as int,
                final(self).pos as int,
            ) == expr_tokens(e) && numbered(e, old(self).fresh as nat) && final(self).fresh
                == old(self).fresh + blocks(e),
            (exists|e: Expr, rest: Seq<Token>|
                #[trigger] expr_at(old(self).tokens@, old(self).pos as int, e, rest, old(self).fresh as nat) && e is Borrow)
                ==> r is Ok,
            (exists|e: Expr| #[trigger] expr_cut(old(self).tokens@, old(self).pos as int, e, old(self).fresh as nat) && e is Borrow)
                ==> r == Err::<Expr, Error>(old(self).end_error()),
        decreases old(self).tokens@.len() - old(self).pos, 0nat,
    {
        let start = self.pos;
        let ghost toks = self.tokens@;
        let ghost f = self.fresh as nat;
        let ghost has_w = exists|e: Expr, rest: Seq<Token>| #[trigger] expr_at(toks, start as int, e, rest, f) && e is Borrow;
        let ghost mut w: (Expr, Seq<Token>) = arbitrary();
        proof {
            if has_w {
                w = choose|e: Expr, rest: Seq<Token>| #[trigger] expr_at(toks, start as int, e, rest, f) && e is Borrow;
            }
        }
        let ghost we = w.0;
        let ghost wr = w.1;
        let ghost has_c = exists|e: Expr| #[trigger] expr_cut(toks, start as int, e, f) && e is Borrow;
        let ghost mut wc: Expr = arbitrary();
        proof {
            if has_c {
                wc = choose|e: Expr| #[trigger] expr_cut(toks, start as int, e, f) && e is Borrow;
            }
        }
        let ghost ce = expr_tokens(wc);
        let ghost lv = we->Borrow_0;
        let ghost m = we->Borrow_1;
        let ghost k: int = if m { 2 } else { 1 };
        assert(has_w ==> start + 1 < toks.len() && (toks[start + 1] == Token::Mut) == m && lval_at(toks, start + k, lv, wr)) by {
            if has_w {
                let pre = seq![Token::Ampersand] + (if m { seq![Token::Mut] } else { seq![] });
                assert(expr_tokens(we) + wr =~= pre + (lval_tokens(lv) + wr));
                lemma_skip_prefix(toks, start as int, pre, lval_tokens(lv) + wr);
                lemma_skip_prefix(toks, start + k, lval_tokens(lv), wr);
                assert(lval_tokens(lv)[0] == Token::Star || lval_tokens(lv)[0] is Var);
                if m {
                    assert(pre[1] == Token::Mut);
                }
            }
        }
        let ghost clv = wc->Borrow_0;
        let ghost cm = wc->Borrow_1;
        let ghost ck: int = if cm { 2 } else { 1 };
        let ghost cpre = seq![Token::Ampersand] + (if cm { seq![Token::Mut] } else { seq![] });
        assert(has_c ==> start + 1 == toks.len() || ((toks[start + 1] == Token::Mut) == cm && cut_at(toks, start
            + ck, lval_tokens(clv)))) by {
            if has_c {
                assert(ce =~= cpre + lval_tokens(clv));
                lemma_cut_split(toks, start as int, cpre, lval_tokens(clv));
                assert(lval_tokens(clv)[0] == Token::Star || lval_tokens(clv)[0] is Var);
                if start + 1 < toks.len() {
                    if toks.len() - start >= cpre.len() {
                        assert(toks.subrange(start as int, toks.len() as int)[1] == toks[start + 1]);
                        if !cm {
                            lemma_cut_head(toks, start + 1, lval_tokens(clv));
                        }
                    } else {
                        assert(cm);
                    }
                }
            }
        }
        self.next_token()?;
        let is_mut = match self.peek_token()? {
            Token::Mut => true,
            _ => false,
        };
        if is_mut {
            self.next_token()?;
        }
        let p2 = self.pos;
        let lval = self.parse_lval()?;
        assert(self.tokens@.subrange(start as int, self.pos as int) =~= seq![Token::Ampersand] + (if is_mut {
            seq![Token::Mut]
        } else {
            seq![]
        }) + self.tokens@.subrange(p2 as int, self.pos as int));
        Ok(Expr::Borrow(lval, is_mut))
    }

    /// Parses `assert_eq! ( a , b )`.
    #[verifier::rlimit(100)]
    fn parse_assert_eq(&mut self) -> (r: ParseResult<Expr>)
        requires
            old(self).wf(),
            old(self).pos < old(self).tokens@.len(),
            old(self).tokens@[old(self).pos as int] == Token::AssertEq,
        ensures
            final(self).wf(),
            final(self).same_input(old(self)),
            r matches Ok(e) ==> old(self).pos < final(self).pos && final(self).tokens@.subrange(
                old(self).pos as int,
                final(self).pos as int,
            ) == expr_tokens(e) && numbered(e, old(self).fresh as nat) && final(self).fresh
                == old(self).fresh + blocks(e),
            (exists|e: Expr, rest: Seq<Token>|
                #[trigger] expr_at(old(self).tokens@, old(self).pos as int, e, rest, old(self).fresh as nat) && e is AssertEq)
                ==> r is Ok,
            (exists|e: Expr| #[trigger] expr_cut(old(self).tokens@, old(self).pos as int, e, old(self).fresh as nat) && e is AssertEq)
                ==> r == Err::<Expr, Error>(old(self).end_error()),
        decreases old(self).tokens@.len() - old(self).pos, 0nat,
    {
        let start = self.pos;
        let ghost toks = self.tokens@;
        let ghost f = self.fresh as nat;
        let ghost has_w = exists|e: Expr, rest: Seq<Token>| #[trigger] expr_at(toks, start as int, e, rest, f) && e is AssertEq;
        let ghost mut w: (Expr, Seq<Token>) = arbitrary();
        proof {
            if has_w {
                w = choose|e: Expr, rest: Seq<Token>| #[trigger] expr_at(toks, start as int, e, rest, f) && e is AssertEq;
            }
        }
        let ghost we = w.0;
        let ghost wr = w.1;
        let ghost has_c = exists|e: Expr| #[trigger] expr_cut(toks, start as int, e, f) && e is AssertEq;
        let ghost mut wc: Expr = arbitrary();
        proof {
            if has_c {
                wc = choose|e: Expr| #[trigger] expr_cut(toks, start as int, e, f) && e is AssertEq;
            }
        }
        let ghost ce = expr_tokens(wc);
        let ghost a = *we->AssertEq_0;
        let ghost bb = *we->AssertEq_1;
        let ghost after_a = seq![Token::Comma] + expr_tokens(bb) + seq![Token::Rparen] + wr;
        assert(has_w ==> toks[start + 1] == Token::Lparen && expr_at(toks, start + 2, a, after_a, f)) by {
            if has_w {
                assert(expr_tokens(we) + wr =~= seq![Token::AssertEq, Token::Lparen] + (expr_tokens(a) + after_a));
                lemma_skip_prefix(toks, start as int, seq![Token::AssertEq, Token::Lparen], expr_tokens(a) + after_a);
            }
        }
        let ghost ca = *wc->AssertEq_0;
        let ghost cb = *wc->AssertEq_1;
        let ghost at = expr_tokens(ca);
        let ghost bt = expr_tokens(cb);
        let ghost tail_a = seq![Token::Comma] + (bt + seq![Token::Rparen]);
        assert(has_c ==> start + 1 == toks.len() || (toks[start + 1] == Token::Lparen && cut_at(toks, start + 2, at
            + tail_a))) by {
            if has_c {
                assert(ce =~= seq![Token::AssertEq, Token::Lparen] + (at + tail_a));
                lemma_cut_split(toks, start as int, seq![Token::AssertEq, Token::Lparen], at + tail_a);
                if toks.len() - start >= 2 {
                    assert(toks.subrange(start as int, toks.len() as int)[1] == toks[start + 1]);
                }
            }
        }
        self.next_token()?;
        self.next_token_match(Token::Lparen)?;
        let p2 = self.pos;
        let ghost arest = toks.subrange(p2 + at.len(), toks.len() as int);
        assert(has_c ==> expr_cut(toks, p2 as int, ca, f) || (expr_at(toks, p2 as int, ca, arest, f) && cut_at(
            toks,
            p2 + at.len(),
            tail_a,
        ))) by {
            if has_c {
                lemma_cut_split(toks, p2 as int, at, tail_a);
            }
        }
        let left = self.parse_expr()?;
        let p3 = self.pos;
        assert(has_c ==> p3 == p2 + at.len() && blocks(left) == blocks(ca) && cut_at(toks, p3 as int, tail_a)) by {
            if has_c {
                lemma_expr_found(toks, p2 as int, p3 as int, left, ca, arest, f);
            }
        }
        assert(has_c ==> p3 == toks.len() || (toks[p3 as int] == Token::Comma && cut_at(toks, p3 + 1, bt + seq![
            Token::Rparen,
        ]))) by {
            if has_c {
                lemma_cut_split(toks, p3 as int, seq![Token::Comma], bt + seq![Token::Rparen]);
                if p3 < toks.len() {
                    assert(toks.subrange(p3 as int, toks.len() as int)[0] == toks[p3 as int]);
                }
            }
        }
        assert(has_w ==> p3 < toks.len() && toks[p3 as int] == Token::Comma && expr_at(toks, p3 + 1, bb, seq![Token::Rparen] + wr, f + blocks(left))) by {
            if has_w {
                lemma_expr_found(toks, p2 as int, p3 as int, left, a, after_a, f);
                assert(after_a =~= seq![Token::Comma] + (expr_tokens(bb) + (seq![Token::Rparen] + wr)));
                lemma_skip_prefix(toks, p3 as int, seq![Token::Comma], expr_tokens(bb) + (seq![Token::Rparen] + wr));
                assert(seq![Token::Comma][0] == Token::Comma);
            }
        }
        self.next_token_match(Token::Comma)?;
        let p4 = self.pos;
        let ghost brest = toks.subrange(p4 + bt.len(), toks.len() as int);
        let ghost g = f + blocks(left);
        assert(has_c ==> expr_cut(toks, p4 as int, cb, g) || (expr_at(toks, p4 as int, cb, brest, g) && cut_at(
            toks,
            p4 + bt.len(),
            seq![Token::Rparen],
        ))) by {
            if has_c {
                lemma_cut_split(toks, p4 as int, bt, seq![Token::Rparen]);
            }
        }
        let right = self.parse_expr()?;
        let p5 = self.pos;
        assert(has_c ==> p5 == toks.len()) by {
            if has_c {
                lemma_expr_found(toks, p4 as int, p5 as int, right, cb, brest, g);
            }
        }
        assert(has_w ==> p5 < toks.len() && toks[p5 as int] == Token::Rparen) by {
            if has_w {
                lemma_expr_found(toks, p4 as int, p5 as int, right, bb, seq![Token::Rparen] + wr, f + blocks(left));
                lemma_skip_prefix(toks, p5 as int, seq![Token::Rparen], wr);
                assert(seq![Token::Rparen][0] == Token::Rparen);
            }
        }
        self.next_token_match(Token::Rparen)?;
        assert(self.tokens@.subrange(start as int, self.pos as int) =~= seq![Token::AssertEq, Token::Lparen]
            + self.tokens@.subrange(p2 as int, p3 as int) + seq![Token::Comma]
            + self.tokens@.subrange(p4 as int, p5 as int) + seq![Token::Rparen]);
        Ok(Expr::AssertEq(Box::new(left), Box::new(right)))
    }

    /// Parses a statement, without its semicolon.
    #[verifier::rlimit(100)]
    fn parse_stmt(&mut self) -> (r: ParseResult<Stmt>)
        requires
            old(self).wf(),
        ensures
            final(self).wf(),
            final(self).same_input(old(self)),
            r matches Ok(st) ==> old(self).pos < final(self).pos && final(self).tokens@.subrange(
                old(self).pos as int,
                final(self).pos as int,
            ) == stmt_tokens(st) && numbered_stmt(st, old(self).fresh as nat) && final(self).fresh
                == old(self).fresh + blocks_stmt(st),
            (exists|st: Stmt, rest: Seq<Token>|
                #[trigger] stmt_at(old(self).tokens@, old(self).pos as int, st, rest, old(self).fresh as nat))
                ==> r is Ok,
            (exists|st: Stmt| #[trigger] stmt_cut(old(self).tokens@, old(self).pos as int, st, old(self).fresh as nat))
                ==> r == Err::<Stmt, Error>(old(self).end_error()),
        decreases old(self).tokens@.len() - old(self).pos, 3nat,
    {
        let start = self.pos;
        let ghost toks = self.tokens@;
        let ghost f = self.fresh as nat;
        let ghost has_w = exists|st: Stmt, rest: Seq<Token>| #[trigger] stmt_at(toks, start as int, st, rest, f);
        let ghost mut w: (Stmt, Seq<Token>) = arbitrary();
        proof {
            if has_w {
                w = choose|st: Stmt, rest: Seq<Token>| #[trigger] stmt_at(toks, start as int, st, rest, f);
            }
        }
        let ghost ws = w.0;
        let ghost wr = w.1;
        assert(has_w ==> start < toks.len() && (toks[start as int] == Token::Let <==> ws is LetMut) && (
        (toks[start as int] == Token::Star || toks[start as int] is Var) <==> ws is Assign)) by {
            if has_w {
                lemma_skip_prefix(toks, start as int, stmt_tokens(ws), wr);
                lemma_stmt_head(ws, f, wr);
                assert((stmt_tokens(ws) + wr)[0] == stmt_tokens(ws)[0]);
                match ws {
                    Stmt::Assign(lv, e) => {
                        assert(lval_tokens(lv)[0] == Token::Star || lval_tokens(lv)[0] is Var);
                        assert(stmt_tokens(ws)[0] == lval_tokens(lv)[0]);
                    },
                    Stmt::Expr(e) => {
                        lemma_head(e, f, wr);
                        assert(stmt_tokens(ws)[0] == (expr_tokens(e) + wr)[0]);
                    },
                    _ => {},
                }
            }
        }
        let ghost has_c = exists|st: Stmt| #[trigger] stmt_cut(toks, start as int, st, f);
        let ghost mut wsc: Stmt = arbitrary();
        proof {
            if has_c {
                wsc = choose|st: Stmt| #[trigger] stmt_cut(toks, start as int, st, f);
            }
        }
        let ghost cst = stmt_tokens(wsc);
        assert(has_c && start < toks.len() ==> (toks[start as int] == Token::Let <==> wsc is LetMut) && (
        (toks[start as int] == Token::Star || toks[start as int] is Var) <==> wsc is Assign)) by {
            if has_c && start < toks.len() {
                lemma_cut_head(toks, start as int, cst);
                lemma_stmt_head(wsc, f, Seq::<Token>::empty());
                assert((cst + Seq::<Token>::empty())[0] == cst[0]);
                match wsc {
                    Stmt::Assign(lv, e) => {
                        assert(lval_tokens(lv)[0] == Token::Star || lval_tokens(lv)[0] is Var);
                        assert(cst[0] == lval_tokens(lv)[0]);
                    },
                    Stmt::Expr(e) => {
                        lemma_head(e, f, Seq::<Token>::empty());
                        assert(cst[0] == (expr_tokens(e) + Seq::<Token>::empty())[0]);
                    },
                    _ => {},
                }
            }
        }
        let kind: u8 = match self.peek_token()? {
            Token::Let => 0,
            Token::Star | Token::Var(_) => 1,
            _ => 2,
        };
        if kind == 0 {
            let ghost x = ws->LetMut_0;
            let ghost e = ws->LetMut_1;
            let ghost pre = seq![Token::Let, Token::Mut, Token::Var(x), Token::Eq];
            assert(has_w ==> toks[start + 1] == Token::Mut && toks[start + 2] == Token::Var(x) && toks[start
                + 3] == Token::Eq && expr_at(toks, start + 4, e, wr, f)) by {
                if has_w {
                    assert(stmt_tokens(ws) + wr =~= pre + (expr_tokens(e) + wr));
                    lemma_skip_prefix(toks, start as int, pre, expr_tokens(e) + wr);
                    assert(pre[1] == Token::Mut && pre[2] == Token::Var(x) && pre[3] == Token::Eq);
                }
            }
            let ghost cx = wsc->LetMut_0;
            let ghost cex = wsc->LetMut_1;
            let ghost cpre = seq![Token::Let, Token::Mut, Token::Var(cx), Token::Eq];
            assert(has_c ==> (start + 1 < toks.len() ==> toks[start + 1] == Token::Mut) && (start + 2 < toks.len()
                ==> toks[start + 2] == Token::Var(cx)) && (start + 3 < toks.len() ==> toks[start + 3] == Token::Eq)
                && (start + 4 <= toks.len() ==> expr_cut(toks, start + 4, cex, f))) by {
                if has_c {
                    assert(cst =~= cpre + expr_tokens(cex));
                    lemma_cut_split(toks, start as int, cpre, expr_tokens(cex));
                    let m = toks.len() - start;
                    assert forall|k: int| 1 <= k < 4 && start + k < toks.len() implies toks[start + k] == cpre[k] by {
                        assert(toks.subrange(start as int, toks.len() as int)[k] == cst.subrange(0, m)[k]);
                    }
                }
            }
            self.next_token()?;
            self.next_token_match(Token::Mut)?;
            let ident = match self.next_token()? {
                Token::Var(s) => s,
                t => return Err(Error::Unexpected(t)),
            };
            self.next_token_match(Token::Eq)?;
            let p2 = self.pos;
            let e = self.parse_expr()?;
            assert(self.tokens@.subrange(start as int, self.pos as int) =~= seq![Token::Let, Token::Mut, Token::Var(ident), Token::Eq]
                + self.tokens@.subrange(p2 as int, self.pos as int));
            Ok(Stmt::LetMut(ident, e))
        } else if kind == 1 {
            let ghost lv = ws->Assign_0;
            let ghost e = ws->Assign_1;
            let ghost after = seq![Token::Eq] + expr_tokens(e) + wr;
            assert(has_w ==> lval_at(toks, start as int, lv, after)) by {
                if has_w {
                    assert(stmt_tokens(ws) + wr =~= lval_tokens(lv) + after);
                }
            }
            let ghost clv = wsc->Assign_0;
            let ghost cex = wsc->Assign_1;
            let ghost lt = lval_tokens(clv);
            let ghost ctail = seq![Token::Eq] + expr_tokens(cex);
            let ghost lrest = toks.subrange(start + lt.len(), toks.len() as int);
            assert(has_c ==> cut_at(toks, start as int, lt) || (lval_at(toks, start as int, clv, lrest) && cut_at(
                toks,
                start + lt.len(),
                ctail,
            ))) by {
                if has_c {
                    assert(cst =~= lt + ctail);
                    lemma_cut_split(toks, start as int, lt, ctail);
                }
            }
            let lval = self.parse_lval()?;
            let p1 = self.pos;
            assert(has_c ==> p1 == start + lt.len() && (p1 == toks.len() || (toks[p1 as int] == Token::Eq
                && expr_cut(toks, p1 + 1, cex, f)))) by {
                if has_c {
                    lemma_lval_found(toks, start as int, p1 as int, lval, clv, lrest);
                    lemma_cut_split(toks, p1 as int, seq![Token::Eq], expr_tokens(cex));
                    if p1 < toks.len() {
                        assert(toks.subrange(p1 as int, toks.len() as int)[0] == toks[p1 as int]);
                    }
                }
            }
            assert(has_w ==> p1 < toks.len() && toks[p1 as int] == Token::Eq && expr_at(toks, p1 + 1, e, wr, f)) by {
                if has_w {
                    lemma_lval_found(toks, start as int, p1 as int, lval, lv, after);
                    assert(after =~= seq![Token::Eq] + (expr_tokens(e) + wr));
                    lemma_skip_prefix(toks, p1 as int, seq![Token::Eq], expr_tokens(e) + wr);
                    assert(seq![Token::Eq][0] == Token::Eq);
                }
            }
            self.next_token_match(Token::Eq)?;
            let p2 = self.pos;
            let e = self.parse_expr()?;
            assert(self.tokens@.subrange(start as int, self.pos as int) =~= self.tokens@.subrange(start as int, p1 as int)
                + seq![Token::Eq] + self.tokens@.subrange(p2 as int, self.pos as int));
            Ok(Stmt::Assign(lval, e))
        } else {
            assert(has_w ==> ws is Expr && expr_at(toks, start as int, ws->Expr_0, wr, f));
            assert(has_c ==> wsc is Expr && expr_cut(toks, start as int, wsc->Expr_0, f));
            let e = self.parse_expr()?;
            proof {
                lemma_head(e, old(self).fresh as nat, Seq::<Token>::empty());
                assert(self.tokens@.subrange(start as int, self.pos as int)[0] == self.tokens@[start as int]);
            }
            Ok(Stmt::Expr(e))
        }
    }

    /// Parses a block, giving it the next lifetime.
    #[verifier::rlimit(100)]
    fn parse_block(&mut self) -> (r: ParseResult<Expr>)
        requires
            old(self).wf(),
        ensures
            final(self).wf(),
            final(self).same_input(old(self)),
            r matches Ok(e) ==> e is Block && old(self).pos < final(self).pos && final(self).tokens@.subrange(
                old(self).pos as int,
                final(self).pos as int,
            ) == expr_tokens(e) && numbered(e, old(self).fresh as nat) && final(self).fresh
                == old(self).fresh + blocks(e),
            (exists|e: Expr, rest: Seq<Token>|
                #[trigger] expr_at(old(self).tokens@, old(self).pos as int, e, rest, old(self).fresh as nat)
                    && e is Block) ==> r is Ok,
            (exists|e: Expr|
                #[trigger] expr_cut(old(self).tokens@, old(self).pos as int, e, old(self).fresh as nat) && e is Block)
                ==> r == Err::<Expr, Error>(old(self).end_error()),
        decreases old(self).tokens@.len() - old(self).pos, 1nat,
    {
        let start = self.pos;
        let ghost toks = self.tokens@;
        let ghost f = self.fresh as nat;
        let ghost has_w = exists|e: Expr, rest: Seq<Token>| #[trigger] expr_at(toks, start as int, e, rest, f) && e is Block;
        let ghost mut w: (Expr, Seq<Token>) = arbitrary();
        proof {
            if has_w {
                w = choose|e: Expr, rest: Seq<Token>| #[trigger] expr_at(toks, start as int, e, rest, f) && e is Block;
            }
        }
        let ghost we = w.0;
        let ghost wr = w.1;
        let ghost close = seq![Token::Rbracket] + wr;
        let ghost mut suf: Seq<Stmt> = we->Block_0@;
        assert(has_w ==> start < toks.len() && toks[start as int] == Token::Lbracket && toks.subrange(start + 1, toks.len() as int) == stmts_tokens(suf) + close && numbered_stmts(suf, f + 1) && f + 1 + blocks_stmts(suf) < usize::MAX) by {
            if has_w {
                assert(expr_tokens(*we->Block_1) == Seq::<Token>::empty());
                assert(blocks(*we->Block_1) == 0);
                assert(expr_tokens(we) + wr =~= seq![Token::Lbracket] + (stmts_tokens(suf) + close));
                lemma_skip_prefix(toks, start as int, seq![Token::Lbracket], stmts_tokens(suf) + close);
                assert(seq![Token::Lbracket][0] == Token::Lbracket);
            }
        }
        let ghost has_c = exists|e: Expr| #[trigger] expr_cut(toks, start as int, e, f) && e is Block;
        let ghost mut wc: Expr = arbitrary();
        proof {
            if has_c {
                wc = choose|e: Expr| #[trigger] expr_cut(toks, start as int, e, f) && e is Block;
            }
        }
        let ghost cclose = seq![Token::Rbracket];
        let ghost mut csuf: Seq<Stmt> = wc->Block_0@;
        assert(has_c ==> start == toks.len() || (toks[start as int] == Token::Lbracket && cut_at(toks, start + 1,
            stmts_tokens(csuf) + cclose) && numbered_stmts(csuf, f + 1) && f + 1 + blocks_stmts(csuf) < usize::MAX)) by {
            if has_c {
                assert(expr_tokens(*wc->Block_1) == Seq::<Token>::empty());
                assert(blocks(*wc->Block_1) == 0);
                assert(expr_tokens(wc) =~= seq![Token::Lbracket] + (stmts_tokens(csuf) + cclose));
                lemma_cut_split(toks, start as int, seq![Token::Lbracket], stmts_tokens(csuf) + cclose);
                if start < toks.len() {
                    lemma_cut_head(toks, start as int, expr_tokens(wc));
                }
            }
        }
        self.next_token_match(Token::Lbracket)?;
        if self.fresh == usize::MAX {
            return Err(Error::Unexpected(Token::Lbracket));
        }
        let l = Lifetime(self.fresh);
        self.fresh += 1;
        let mut stmts: Vec<Stmt> = Vec::new();
        loop
            invariant
                self.wf(),
                self.same_input(old(self)),
                toks == old(self).tokens@,
                start == old(self).pos,
                f == old(self).fresh,
                l.0 == old(self).fresh,
                self.pos > start,
                self.tokens@.subrange(start as int + 1, self.pos as int) == stmts_tokens(stmts@),
                numbered_stmts(stmts@, l.0 as nat + 1),
                self.fresh == l.0 + 1 + blocks_stmts(stmts@),
                has_w == exists|e: Expr, rest: Seq<Token>|
                    #[trigger] expr_at(old(self).tokens@, old(self).pos as int, e, rest, old(self).fresh as nat) && e is Block,
                close == seq![Token::Rbracket] + wr,
                has_w ==> toks.subrange(self.pos as int, toks.len() as int) == stmts_tokens(suf) + close
                    && numbered_stmts(suf, self.fresh as nat) && self.fresh + blocks_stmts(suf) < usize::MAX,
                has_c == exists|e: Expr|
                    #[trigger] expr_cut(old(self).tokens@, old(self).pos as int, e, old(self).fresh as nat) && e is Block,
                cclose == seq![Token::Rbracket],
                has_c ==> cut_at(toks, self.pos as int, stmts_tokens(csuf) + cclose) && numbered_stmts(
                    csuf,
                    self.fresh as nat,
                ) && self.fresh + blocks_stmts(csuf) < usize::MAX,
            ensures
                self.pos < self.tokens@.len() && self.tokens@[self.pos as int] == Token::Rbracket,
                !has_c,
            decreases self.tokens@.len() - self.pos,
        {
            let ghost g = self.fresh as nat;
            let ghost p0 = self.pos as int;
            assert(has_w ==> p0 < toks.len() && (toks[p0] == Token::Rbracket <==> suf.len() == 0)) by {
                if has_w {
                    if suf.len() == 0 {
                        assert(stmts_tokens(suf) == Seq::<Token>::empty());
                        assert(stmts_tokens(suf) + close =~= close + Seq::<Token>::empty());
                        lemma_skip_prefix(toks, p0, close, Seq::<Token>::empty());
                        assert(seq![Token::Rbracket][0] == Token::Rbracket);
                        assert(close[0] == Token::Rbracket);
                    } else {
                        lemma_stmts_front(suf, g);
                        let tail = seq![Token::Semicolon] + stmts_tokens(suf.drop_first()) + close;
                        assert(stmts_tokens(suf) + close =~= stmt_tokens(suf[0]) + tail);
                        lemma_stmt_head(suf[0], g, tail);
                        assert((stmts_tokens(suf) + close) + Seq::<Token>::empty() =~= stmts_tokens(suf) + close);
                        lemma_skip_prefix(toks, p0, stmts_tokens(suf) + close, Seq::<Token>::empty());
                        assert(toks[p0 + 0] == (stmts_tokens(suf) + close)[0]);
                    }
                }
            }
            assert(has_c ==> p0 == toks.len() || (csuf.len() > 0 && toks[p0] != Token::Rbracket)) by {
                if has_c && p0 < toks.len() {
                    if csuf.len() == 0 {
                        assert(stmts_tokens(csuf) == Seq::<Token>::empty());
                        assert(stmts_tokens(csuf) + cclose =~= cclose);
                    } else {
                        lemma_stmts_front(csuf, g);
                        let ctail = seq![Token::Semicolon] + stmts_tokens(csuf.drop_first()) + cclose;
                        assert(stmts_tokens(csuf) + cclose =~= stmt_tokens(csuf[0]) + ctail);
                        lemma_stmt_head(csuf[0], g, ctail);
                        lemma_cut_head(toks, p0, stmts_tokens(csuf) + cclose);
                    }
                }
            }
            let close_now = match self.peek_token()? {
                Token::Rbracket => true,
                _ => false,
            };
            if close_now {
                break;
            }
            let ghost before = stmts@;
            let ghost s0 = suf[0];
            let ghost tail = seq![Token::Semicolon] + stmts_tokens(suf.drop_first()) + close;
            assert(has_w ==> stmt_at(toks, p0, s0, tail, g) && numbered_stmts(suf.drop_first(), g + blocks_stmt(s0))
                && blocks_stmts(suf) == blocks_stmt(s0) + blocks_stmts(suf.drop_first())) by {
                if has_w {
                    lemma_stmts_front(suf, g);
                    assert(stmts_tokens(suf) + close =~= stmt_tokens(s0) + tail);
                }
            }
            let ghost c0 = csuf[0];
            let ghost c0t = stmt_tokens(c0);
            let ghost ctail = seq![Token::Semicolon] + (stmts_tokens(csuf.drop_first()) + cclose);
            let ghost srest = toks.subrange(p0 + c0t.len(), toks.len() as int);
            assert(has_c ==> (stmt_cut(toks, p0, c0, g) || (stmt_at(toks, p0, c0, srest, g) && cut_at(toks, p0
                + c0t.len(), ctail))) && numbered_stmts(csuf.drop_first(), g + blocks_stmt(c0)) && blocks_stmts(csuf)
                == blocks_stmt(c0) + blocks_stmts(csuf.drop_first())) by {
                if has_c {
                    lemma_stmts_front(csuf, g);
                    assert(stmts_tokens(csuf) + cclose =~= c0t + ctail);
                    lemma_cut_split(toks, p0, c0t, ctail);
                }
            }
            let p1 = self.pos;
            let stmt = self.parse_stmt()?;
            let p2 = self.pos;
            assert(has_c ==> blocks_stmt(stmt) == blocks_stmt(c0) && (p2 == toks.len() || (toks[p2 as int]
                == Token::Semicolon && cut_at(toks, p2 + 1, stmts_tokens(csuf.drop_first()) + cclose)))) by {
                if has_c {
                    lemma_stmt_found(toks, p1 as int, p2 as int, stmt, c0, srest, g);
                    lemma_cut_split(toks, p2 as int, seq![Token::Semicolon], stmts_tokens(csuf.drop_first()) + cclose);
                    if p2 < toks.len() {
                        assert(toks.subrange(p2 as int, toks.len() as int)[0] == toks[p2 as int]);
                    }
                }
            }
            assert(has_w ==> p2 < toks.len() && toks[p2 as int] == Token::Semicolon && toks.subrange(p2 + 1, toks.len() as int)
                == stmts_tokens(suf.drop_first()) + close && blocks_stmt(stmt) == blocks_stmt(s0)) by {
                if has_w {
                    lemma_stmt_found(toks, p1 as int, p2 as int, stmt, s0, tail, g);
                    assert(tail =~= seq![Token::Semicolon] + (stmts_tokens(suf.drop_first()) + close));
                    lemma_skip_prefix(toks, p2 as int, seq![Token::Semicolon], stmts_tokens(suf.drop_first()) + close);
                    assert(seq![Token::Semicolon][0] == Token::Semicolon);
                }
            }
            self.next_token_match(Token::Semicolon)?;
            stmts.push(stmt);
            proof {
                assert(stmts@.drop_last() =~= before);
                assert(self.tokens@.subrange(start as int + 1, self.pos as int) =~= self.tokens@.subrange(start as int + 1, p1 as int)
                    + self.tokens@.subrange(p1 as int, p2 as int) + seq![Token::Semicolon]);
                if has_w {
                    suf = suf.drop_first();
                }
                if has_c {
                    csuf = csuf.drop_first();
                }
            }
        }
        self.next_token_match(Token::Rbracket)?;
        let ghost ss = stmts@;
        let e = Expr::Block(stmts, Box::new(Expr::Unit), l);
        assert(expr_tokens(Expr::Unit) == Seq::<Token>::empty());
        assert(expr_tokens(e) == seq![Token::Lbracket] + stmts_tokens(ss) + Seq::<Token>::empty() + seq![Token::Rbracket]);
        assert(expr_tokens(e) =~= seq![Token::Lbracket] + stmts_tokens(ss) + seq![Token::Rbracket]);
        assert(blocks(Expr::Unit) == 0);
        assert(blocks(e) == 1 + blocks_stmts(ss));
        assert(numbered(e, l.0 as nat));
        assert(self.tokens@.subrange(start as int, self.pos as int) =~= seq![Token::Lbracket]
            + self.tokens@.subrange(start as int + 1, self.pos - 1) + seq![Token::Rbracket]);
        Ok(e)
    }

    /// Parses `fn main () { ... }`; the body is the program's outermost block.
    #[verifier::rlimit(100)]
    pub fn parse(&mut self) -> (r: ParseResult<Expr>)
        requires
            old(self).wf(),
        ensures
            final(self).wf(),
            final(self).same_input(old(self)),
            r matches Ok(e) ==> program_tokens(
                final(self).tokens@.subrange(old(self).pos as int, final(self).pos as int),
                e,
            ) && numbered(e, old(self).fresh as nat) && final(self).fresh == old(self).fresh + blocks(e),
            (exists|e: Expr, rest: Seq<Token>|
                #[trigger] program_at(old(self).tokens@, old(self).pos as int, e, rest, old(self).fresh as nat))
                ==> r is Ok,
            (exists|e: Expr, w: Token|
                #[trigger] program_cut(old(self).tokens@, old(self).pos as int, e, w, old(self).fresh as nat))
                ==> r == Err::<Expr, Error>(old(self).end_error()),
            ({
                let t = old(self).tokens@;
                let p = old(self).pos as int;
                &&& p == t.len() ==> r == Err::<Expr, Error>(old(self).end_error())
                &&& p < t.len() && t[p] != Token::Fn ==> r == Err::<Expr, Error>(Error::Unexpected(t[p]))
                &&& p + 1 == t.len() && t[p] == Token::Fn ==> r == Err::<Expr, Error>(old(self).end_error())
                &&& p + 1 < t.len() && t[p] == Token::Fn && !(t[p + 1] matches Token::Var(x) && x@ == seq![
                    'm',
                    'a',
                    'i',
                    'n',
                ]) ==> r == Err::<Expr, Error>(Error::Unexpected(t[p + 1]))
            }),
    {
        let start = self.pos;
        let ghost toks = self.tokens@;
        let ghost f = self.fresh as nat;
        let ghost has_w = exists|e: Expr, rest: Seq<Token>| #[trigger] program_at(toks, start as int, e, rest, f);
        let ghost mut w: (Expr, Seq<Token>) = arbitrary();
        proof {
            if has_w {
                w = choose|e: Expr, rest: Seq<Token>| #[trigger] program_at(toks, start as int, e, rest, f);
            }
        }
        assert(has_w ==> expr_at(toks, start + 4, w.0, w.1, f) && w.0 is Block);
        let ghost has_c = exists|e: Expr, w: Token| #[trigger] program_cut(toks, start as int, e, w, f);
        let ghost mut c: (Expr, Token) = arbitrary();
        proof {
            if has_c {
                c = choose|e: Expr, w: Token| #[trigger] program_cut(toks, start as int, e, w, f);
            }
        }
        let ghost cpre = seq![Token::Fn, c.1, Token::Lparen, Token::Rparen];
        assert(has_c ==> (forall|k: int| 0 <= k < 4 && start + k < toks.len() ==> toks[start + k] == #[trigger] cpre[k])
            && (start + 4 <= toks.len() ==> expr_cut(toks, start + 4, c.0, f) && c.0 is Block)) by {
            if has_c {
                lemma_cut_split(toks, start as int, cpre, expr_tokens(c.0));
                let full = cpre + expr_tokens(c.0);
                let m = toks.len() - start;
                assert forall|k: int| 0 <= k < 4 && start + k < toks.len() implies toks[start + k] == #[trigger] cpre[k] by {
                    assert(toks.subrange(start as int, toks.len() as int)[k] == full.subrange(0, m)[k]);
                }
            }
        }
        assert(has_c ==> cpre[0] == Token::Fn && cpre[1] == c.1 && cpre[2] == Token::Lparen && cpre[3] == Token::Rparen);
        self.next_token_match(Token::Fn)?;
        match self.next_token()? {
            Token::Var(s) => {
                if !is_main(&s) {
                    return Err(Error::Unexpected(Token::Var(s)));
                }
            },
            t => return Err(Error::Unexpected(t)),
        }
        self.next_token_match(Token::Lparen)?;
        self.next_token_match(Token::Rparen)?;
        let p4 = self.pos;
        let e = self.parse_block()?;
        assert(self.tokens@.subrange(start as int, self.pos as int).subrange(4, self.pos - start) =~= self.tokens@.subrange(p4 as int, self.pos as int));
        Ok(e)
    }
}

/// The first token that writes an expression.
pub open spec fn head(e: Expr) -> Token {
    match e {
        Expr::Int(n) => Token::Int(n),
        Expr::Lval(lv, _) => if lv.derefs > 0 {
            Token::Star
        } else {
            Token::Var(lv.ident)
        },
        Expr::Box(_) => Token::Box,
        Expr::Borrow(_, _) => Token::Ampersand,
        Expr::Block(_, _, _) => Token::Lbracket,
        _ => Token::AssertEq,
    }
}

proof fn lemma_head(e: Expr, f: nat, r: Seq<Token>)
    requires
        numbered(e, f),
    ensures
        expr_tokens(e).len() > 0,
        (expr_tokens(e) + r)[0] == head(e),
{
    match e {
        Expr::Lval(lv, _) => {
            assert(lval_tokens(lv)[0] == head(e));
        },
        _ => {},
    }
}

proof fn lemma_stmt_head(s: Stmt, f: nat, r: Seq<Token>)
    requires
        numbered_stmt(s, f),
    ensures
        stmt_tokens(s).len() > 0,
        (stmt_tokens(s) + r)[0] != Token::Rbracket,
{
    match s {
        Stmt::LetMut(_, e) => {},
        Stmt::Assign(lv, e) => {
            assert(lval_tokens(lv)[0] == Token::Star || lval_tokens(lv)[0] is Var);
        },
        Stmt::Expr(e) => lemma_head(e, f, r),
    }
}

proof fn lemma_stmts_front(ss: Seq<Stmt>, f: nat)
    requires
        ss.len() > 0,
    ensures
        stmts_tokens(ss) == stmt_tokens(ss[0]) + seq![Token::Semicolon] + stmts_tokens(ss.drop_first()),
        blocks_stmts(ss) == blocks_stmt(ss[0]) + blocks_stmts(ss.drop_first()),
        numbered_stmts(ss, f) == (numbered_stmt(ss[0], f) && numbered_stmts(
            ss.drop_first(),
            f + blocks_stmt(ss[0]),
        )),
    decreases ss.len(),
{
    let d = ss.drop_last();
    if ss.len() == 1 {
        assert(d =~= Seq::<Stmt>::empty());
        assert(ss.drop_first() =~= Seq::<Stmt>::empty());
        assert(ss.last() == ss[0]);
        assert(stmts_tokens(d) == Seq::<Token>::empty());
        assert(blocks_stmts(d) == 0);
        assert(numbered_stmts(d, f));
        assert(stmts_tokens(ss.drop_first()) == Seq::<Token>::empty());
        assert(blocks_stmts(ss.drop_first()) == 0);
        assert(numbered_stmts(ss.drop_first(), f + blocks_stmt(ss[0])));
        assert(stmts_tokens(ss) =~= stmt_tokens(ss[0]) + seq![Token::Semicolon] + Seq::<Token>::empty());
    } else {
        lemma_stmts_front(d, f);
        let rest = ss.drop_first();
        assert(d.drop_first() =~= rest.drop_last());
        assert(d[0] == ss[0]);
        assert(rest.last() == ss.last());
        assert(rest.len() > 0);
        assert(stmts_tokens(rest) == stmts_tokens(rest.drop_last()) + stmt_tokens(rest.last()) + seq![Token::Semicolon]);
        assert(blocks_stmts(rest) == blocks_stmts(rest.drop_last()) + blocks_stmt(rest.last()));
        assert(numbered_stmts(rest, f + blocks_stmt(ss[0])) == (numbered_stmts(rest.drop_last(), f + blocks_stmt(ss[0])) && numbered_stmt(rest.last(), f + blocks_stmt(ss[0]) + blocks_stmts(rest.drop_last()))));
        assert(stmts_tokens(ss) =~= stmt_tokens(ss[0]) + seq![Token::Semicolon] + stmts_tokens(rest));
    }
}

proof fn lemma_lval_prefix(l1: Lval, l2: Lval, r1: Seq<Token>, r2: Seq<Token>)
    requires
        lval_tokens(l1) + r1 == lval_tokens(l2) + r2,
    ensures
        l1 == l2,
        r1 == r2,
{
    let t = lval_tokens(l1) + r1;
    let d1 = l1.derefs as int;
    let d2 = l2.derefs as int;
    assert(t[d1] == Token::Var(l1.ident));
    assert((lval_tokens(l2) + r2)[d2] == Token::Var(l2.ident));
    if d1 < d2 {
        assert((lval_tokens(l2) + r2)[d1] == Token::Star);
    }
    if d2 < d1 {
        assert(t[d2] == Token::Star);
    }
    assert(r1 =~= t.subrange(d1 + 1, t.len() as int));
    assert(r2 =~= (lval_tokens(l2) + r2).subrange(d2 + 1, t.len() as int));
}

/// Parsed expressions write their tokens without ambiguity: if one parsed
/// expression's tokens followed by some rest are another's followed by some
/// rest, the two are the same expression and the rests are equal.
pub proof fn lemma_expr_prefix(e1: Expr, e2: Expr, f: nat, r1: Seq<Token>, r2: Seq<Token>)
    requires
        numbered(e1, f),
        numbered(e2, f),
        expr_tokens(e1) + r1 == expr_tokens(e2) + r2,
    ensures
        shape_eq(e1, e2),
        r1 == r2,
        blocks(e1) == blocks(e2),
    decreases e1, 1nat,
{
    let t = expr_tokens(e1) + r1;
    lemma_head(e1, f, r1);
    lemma_head(e2, f, r2);
    assert(head(e1) == head(e2));
    match (e1, e2) {
        (Expr::Int(n), Expr::Int(m)) => {
            assert(r1 =~= t.drop_first());
            assert(r2 =~= t.drop_first());
        },
        (Expr::Lval(l1, _), Expr::Lval(l2, _)) => {
            lemma_lval_prefix(l1, l2, r1, r2);
        },
        (Expr::Box(x1), Expr::Box(x2)) => {
            let a1 = seq![Token::Rparen] + r1;
            let a2 = seq![Token::Rparen] + r2;
            assert(t.subrange(2, t.len() as int) =~= expr_tokens(*x1) + a1);
            assert(t.subrange(2, t.len() as int) =~= expr_tokens(*x2) + a2);
            lemma_expr_prefix(*x1, *x2, f, a1, a2);
            assert(r1 =~= a1.drop_first());
            assert(r2 =~= a2.drop_first());
        },
        (Expr::Borrow(l1, m1), Expr::Borrow(l2, m2)) => {
            let k1: int = if m1 { 2 } else { 1 };
            let k2: int = if m2 { 2 } else { 1 };
            assert(t.subrange(k1, t.len() as int) =~= lval_tokens(l1) + r1);
            assert(t.subrange(k2, t.len() as int) =~= lval_tokens(l2) + r2);
            assert(lval_tokens(l1)[0] == Token::Star || lval_tokens(l1)[0] is Var);
            assert(lval_tokens(l2)[0] == Token::Star || lval_tokens(l2)[0] is Var);
            if m1 != m2 {
                assert(t[1] == Token::Mut);
                if m1 {
                    assert(t[1] == (lval_tokens(l2) + r2)[0]);
                } else {
                    assert(t[1] == (lval_tokens(l1) + r1)[0]);
                }
            }
            lemma_lval_prefix(l1, l2, r1, r2);
        },
        (Expr::AssertEq(a1, b1), Expr::AssertEq(a2, b2)) => {
            lemma_assert_prefix(e1, e2, f, r1, r2);
        },
        (Expr::Block(s1, fin1, l1), Expr::Block(s2, fin2, l2)) => {
            lemma_block_prefix(e1, e2, f, r1, r2);
        },
        _ => {},
    }
}

proof fn lemma_assert_prefix(e1: Expr, e2: Expr, f: nat, r1: Seq<Token>, r2: Seq<Token>)
    requires
        e1 is AssertEq,
        e2 is AssertEq,
        numbered(e1, f),
        numbered(e2, f),
        expr_tokens(e1) + r1 == expr_tokens(e2) + r2,
    ensures
        shape_eq(e1, e2),
        r1 == r2,
        blocks(e1) == blocks(e2),
    decreases e1, 0nat,
{
    let t = expr_tokens(e1) + r1;
    match (e1, e2) {
        (Expr::AssertEq(a1, b1), Expr::AssertEq(a2, b2)) => {
            let c1 = seq![Token::Comma] + expr_tokens(*b1) + seq![Token::Rparen] + r1;
            let c2 = seq![Token::Comma] + expr_tokens(*b2) + seq![Token::Rparen] + r2;
            assert(t.subrange(2, t.len() as int) =~= expr_tokens(*a1) + c1);
            assert(t.subrange(2, t.len() as int) =~= expr_tokens(*a2) + c2);
            lemma_expr_prefix(*a1, *a2, f, c1, c2);
            let d1 = seq![Token::Rparen] + r1;
            let d2 = seq![Token::Rparen] + r2;
            assert(c1.drop_first() =~= expr_tokens(*b1) + d1);
            assert(c2.drop_first() =~= expr_tokens(*b2) + d2);
            lemma_expr_prefix(*b1, *b2, f + blocks(*a1), d1, d2);
            assert(r1 =~= d1.drop_first());
            assert(r2 =~= d2.drop_first());
        },
        _ => {},
    }
}

proof fn lemma_block_prefix(e1: Expr, e2: Expr, f: nat, r1: Seq<Token>, r2: Seq<Token>)
    requires
        e1 is Block,
        e2 is Block,
        numbered(e1, f),
        numbered(e2, f),
        expr_tokens(e1) + r1 == expr_tokens(e2) + r2,
    ensures
        shape_eq(e1, e2),
        r1 == r2,
        blocks(e1) == blocks(e2),
    decreases e1, 0nat,
{
    let t = expr_tokens(e1) + r1;
    match (e1, e2) {
        (Expr::Block(s1, fin1, l1), Expr::Block(s2, fin2, l2)) => {
            let a1 = seq![Token::Rbracket] + r1;
            let a2 = seq![Token::Rbracket] + r2;
            assert(expr_tokens(Expr::Unit) == Seq::<Token>::empty());
            assert(t.drop_first() =~= stmts_tokens(s1@) + a1);
            assert(t.drop_first() =~= stmts_tokens(s2@) + a2);
            lemma_stmts_prefix(s1@, s2@, f + 1, r1, r2);
            assert(blocks(Expr::Unit) == 0);
            assert(shape_eq(Expr::Unit, Expr::Unit));
            assert(l1.0 == l2.0);
            assert(l1 == l2);
            assert(*fin1 == Expr::Unit && *fin2 == Expr::Unit);
        },
        _ => {},
    }
}

#[verifier::rlimit(60)]
proof fn lemma_stmt_prefix(s1: Stmt, s2: Stmt, f: nat, r1: Seq<Token>, r2: Seq<Token>)
    requires
        numbered_stmt(s1, f),
        numbered_stmt(s2, f),
        stmt_tokens(s1) + r1 == stmt_tokens(s2) + r2,
    ensures
        shape_eq_stmt(s1, s2),
        r1 == r2,
        blocks_stmt(s1) == blocks_stmt(s2),
    decreases s1, 0nat,
{
    let t = stmt_tokens(s1) + r1;
    match (s1, s2) {
        (Stmt::LetMut(x1, e1), Stmt::LetMut(x2, e2)) => {
            assert(t[2] == Token::Var(x1));
            assert((stmt_tokens(s2) + r2)[2] == Token::Var(x2));
            assert(t.subrange(4, t.len() as int) =~= expr_tokens(e1) + r1);
            assert(t.subrange(4, t.len() as int) =~= expr_tokens(e2) + r2);
            lemma_expr_prefix(e1, e2, f, r1, r2);
        },
        (Stmt::LetMut(_, _), Stmt::Assign(l2, _)) => {
            assert(lval_tokens(l2)[0] == Token::Star || lval_tokens(l2)[0] is Var);
            assert((stmt_tokens(s2) + r2)[0] == lval_tokens(l2)[0]);
        },
        (Stmt::LetMut(_, _), Stmt::Expr(e2)) => {
            lemma_head(e2, f, r2);
        },
        (Stmt::Assign(l1, _), Stmt::LetMut(_, _)) => {
            assert(lval_tokens(l1)[0] == Token::Star || lval_tokens(l1)[0] is Var);
            assert(t[0] == lval_tokens(l1)[0]);
        },
        (Stmt::Expr(e1), Stmt::LetMut(_, _)) => {
            lemma_head(e1, f, r1);
        },
        (Stmt::Assign(l1, e1), Stmt::Assign(l2, e2)) => {
            let a1 = seq![Token::Eq] + expr_tokens(e1) + r1;
            let a2 = seq![Token::Eq] + expr_tokens(e2) + r2;
            assert(t =~= lval_tokens(l1) + a1);
            assert(stmt_tokens(s2) + r2 =~= lval_tokens(l2) + a2);
            lemma_lval_prefix(l1, l2, a1, a2);
            assert(a1.drop_first() =~= expr_tokens(e1) + r1);
            assert(a2.drop_first() =~= expr_tokens(e2) + r2);
            lemma_expr_prefix(e1, e2, f, r1, r2);
        },
        (Stmt::Assign(l1, e1), Stmt::Expr(e2)) => {
            let a1 = seq![Token::Eq] + expr_tokens(e1) + r1;
            assert(t =~= lval_tokens(l1) + a1);
            lemma_head(e2, f, r2);
            assert(lval_tokens(l1)[0] == Token::Star || lval_tokens(l1)[0] is Var);
            assert(t[0] == lval_tokens(l1)[0]);
        },
        (Stmt::Expr(e1), Stmt::Assign(l2, e2)) => {
            let a2 = seq![Token::Eq] + expr_tokens(e2) + r2;
            assert(stmt_tokens(s2) + r2 =~= lval_tokens(l2) + a2);
            lemma_head(e1, f, r1);
            assert(lval_tokens(l2)[0] == Token::Star || lval_tokens(l2)[0] is Var);
            assert((stmt_tokens(s2) + r2)[0] == lval_tokens(l2)[0]);
        },
        (Stmt::Expr(e1), Stmt::Expr(e2)) => {
            lemma_expr_prefix(e1, e2, f, r1, r2);
        },
    }
}

proof fn lemma_stmts_prefix(ss1: Seq<Stmt>, ss2: Seq<Stmt>, f: nat, r1: Seq<Token>, r2: Seq<Token>)
    requires
        numbered_stmts(ss1, f),
        numbered_stmts(ss2, f),
        stmts_tokens(ss1) + (seq![Token::Rbracket] + r1) == stmts_tokens(ss2) + (seq![Token::Rbracket]
            + r2),
    ensures
        ss1.len() == ss2.len(),
        forall|i: int| 0 <= i < ss1.len() ==> shape_eq_stmt(#[trigger] ss1[i], ss2[i]),
        r1 == r2,
        blocks_stmts(ss1) == blocks_stmts(ss2),
    decreases ss1, 0nat,
{
    let a1 = seq![Token::Rbracket] + r1;
    let a2 = seq![Token::Rbracket] + r2;
    let t = stmts_tokens(ss1) + a1;
    if ss1.len() == 0 && ss2.len() == 0 {
        assert(t =~= a1);
        assert(stmts_tokens(ss2) + a2 =~= a2);
        assert(r1 =~= a1.drop_first());
        assert(r2 =~= a2.drop_first());
    } else if ss1.len() == 0 {
        lemma_stmts_front(ss2, f);
        lemma_stmt_head(ss2[0], f, seq![Token::Semicolon] + stmts_tokens(ss2.drop_first()) + a2);
        assert(t =~= a1);
        assert(stmts_tokens(ss2) + a2 =~= stmt_tokens(ss2[0]) + (seq![Token::Semicolon] + stmts_tokens(ss2.drop_first()) + a2));
    } else if ss2.len() == 0 {
        lemma_stmts_front(ss1, f);
        lemma_stmt_head(ss1[0], f, seq![Token::Semicolon] + stmts_tokens(ss1.drop_first()) + a1);
        assert(stmts_tokens(ss2) + a2 =~= a2);
        assert(t =~= stmt_tokens(ss1[0]) + (seq![Token::Semicolon] + stmts_tokens(ss1.drop_first()) + a1));
    } else {
        lemma_stmts_front(ss1, f);
        lemma_stmts_front(ss2, f);
        let rest1 = ss1.subrange(1, ss1.len() as int);
        let rest2 = ss2.subrange(1, ss2.len() as int);
        let c1 = seq![Token::Semicolon] + stmts_tokens(rest1) + a1;
        let c2 = seq![Token::Semicolon] + stmts_tokens(rest2) + a2;
        assert(t =~= stmt_tokens(ss1[0]) + c1);
        assert(stmts_tokens(ss2) + a2 =~= stmt_tokens(ss2[0]) + c2);
        lemma_stmt_prefix(ss1[0], ss2[0], f, c1, c2);
        assert(c1.drop_first() =~= stmts_tokens(rest1) + a1);
        assert(c2.drop_first() =~= stmts_tokens(rest2) + a2);
        lemma_stmts_prefix(rest1, rest2, f + blocks_stmt(ss1[0]), r1, r2);
        assert forall|i: int| 0 <= i < ss1.len() implies shape_eq_stmt(#[trigger] ss1[i], ss2[i]) by {
            if i > 0 {
                assert(ss1[i] == rest1[i - 1]);
                assert(ss2[i] == rest2[i - 1]);
            }
        }
    }
}

/// Parsing is deterministic: two parses of the same tokens, started with the
/// same block counter, build the same tree with the same lifetimes.
pub proof fn lemma_parse_unique(toks: Seq<Token>, e1: Expr, e2: Expr, f: nat)
    requires
        program_tokens(toks, e1),
        program_tokens(toks, e2),
        numbered(e1, f),
        numbered(e2, f),
    ensures
        shape_eq(e1, e2),
{
    let empty = Seq::<Token>::empty();
    assert(expr_tokens(e1) + empty =~= expr_tokens(e1));
    assert(expr_tokens(e2) + empty =~= expr_tokens(e2));
    lemma_expr_prefix(e1, e2, f, empty, empty);
}

/// A parsed expression found where another was expected is that one.
proof fn lemma_expr_found(toks: Seq<Token>, p: int, q: int, e: Expr, w: Expr, rest: Seq<Token>, f: nat)
    requires
        0 <= p <= q <= toks.len(),
        toks.subrange(p, q) == expr_tokens(e),
        numbered(e, f),
        expr_at(toks, p, w, rest, f),
    ensures
        toks.subrange(q, toks.len() as int) == rest,
        blocks(e) == blocks(w),
{
    assert(toks.subrange(p, toks.len() as int) =~= toks.subrange(p, q) + toks.subrange(q, toks.len() as int));
    lemma_expr_prefix(e, w, f, toks.subrange(q, toks.len() as int), rest);
}

proof fn lemma_stmt_found(toks: Seq<Token>, p: int, q: int, s: Stmt, w: Stmt, rest: Seq<Token>, f: nat)
    requires
        0 <= p <= q <= toks.len(),
        toks.subrange(p, q) == stmt_tokens(s),
        numbered_stmt(s, f),
        stmt_at(toks, p, w, rest, f),
    ensures
        toks.subrange(q, toks.len() as int) == rest,
        blocks_stmt(s) == blocks_stmt(w),
{
    assert(toks.subrange(p, toks.len() as int) =~= toks.subrange(p, q) + toks.subrange(q, toks.len() as int));
    lemma_stmt_prefix(s, w, f, toks.subrange(q, toks.len() as int), rest);
}

proof fn lemma_lval_found(toks: Seq<Token>, p: int, q: int, lv: Lval, w: Lval, rest: Seq<Token>)
    requires
        0 <= p <= q <= toks.len(),
        toks.subrange(p, q) == lval_tokens(lv),
        lval_at(toks, p, w, rest),
    ensures
        toks.subrange(q, toks.len() as int) == rest,
{
    assert(toks.subrange(p, toks.len() as int) =~= toks.subrange(p, q) + toks.subrange(q, toks.len() as int));
    lemma_lval_prefix(lv, w, toks.subrange(q, toks.len() as int), rest);
}

/// The tokens `toks[p..]` start with `pre` and then `rest`.
proof fn lemma_skip_prefix(toks: Seq<Token>, p: int, pre: Seq<Token>, rest: Seq<Token>)
    requires
        0 <= p <= toks.len(),
        toks.subrange(p, toks.len() as int) == pre + rest,
    ensures
        p + pre.len() <= toks.len(),
        forall|k: int| 0 <= k < pre.len() ==> toks[p + k] == #[trigger] pre[k],
        toks.subrange(p + pre.len(), toks.len() as int) == rest,
{
    assert(toks.subrange(p, toks.len() as int).len() == toks.len() - p);
    assert((pre + rest).len() == pre.len() + rest.len());
    assert forall|k: int| 0 <= k < pre.len() implies toks[p + k] == #[trigger] pre[k] by {
        assert((pre + rest)[k] == pre[k]);
        assert(toks.subrange(p, toks.len() as int)[k] == toks[p + k]);
    }
    assert(toks.subrange(p + pre.len(), toks.len() as int) =~= (pre + rest).subrange(pre.len() as int, (pre + rest).len() as int));
    assert((pre + rest).subrange(pre.len() as int, (pre + rest).len() as int) =~= rest);
}

/// Where tokens run out inside `a + b`, they run out inside `a`, or they hold
/// all of `a` and run out inside `b`.
proof fn lemma_cut_split(toks: Seq<Token>, p: int, a: Seq<Token>, b: Seq<Token>)
    requires
        cut_at(toks, p, a + b),
    ensures
        toks.len() - p < a.len() ==> cut_at(toks, p, a),
        toks.len() - p >= a.len() ==> toks.subrange(p, toks.len() as int) == a + toks.subrange(
            p + a.len(),
            toks.len() as int,
        ) && cut_at(toks, p + a.len(), b),
{
    let n = toks.len() - p;
    assert(toks.subrange(p, toks.len() as int).len() == n);
    if n < a.len() {
        assert((a + b).subrange(0, n) =~= a.subrange(0, n));
    } else {
        assert(toks.subrange(p, toks.len() as int) =~= toks.subrange(p, p + a.len()) + toks.subrange(
            p + a.len(),
            toks.len() as int,
        ));
        assert forall|k: int| 0 <= k < a.len() implies toks.subrange(p, p + a.len())[k] == a[k] by {
            assert(toks.subrange(p, toks.len() as int)[k] == (a + b).subrange(0, n)[k]);
        }
        assert(toks.subrange(p, p + a.len()) =~= a);
        assert(toks.subrange(p + a.len(), toks.len() as int) =~= (a + b).subrange(0, n).subrange(
            a.len() as int,
            n,
        ));
        assert((a + b).subrange(0, n).subrange(a.len() as int, n) =~= b.subrange(0, n - a.len()));
    }
}

/// Where tokens run out inside `full` but not at `p`, the token at `p` is the
/// first of `full`.
proof fn lemma_cut_head(toks: Seq<Token>, p: int, full: Seq<Token>)
    requires
        cut_at(toks, p, full),
        p < toks.len(),
    ensures
        toks[p] == full[0],
{
    assert(toks.subrange(p, toks.len() as int)[0] == full.subrange(0, toks.len() - p)[0]);
}

} // verus!
