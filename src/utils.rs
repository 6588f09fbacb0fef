use vstd::prelude::*;

verus! {

/// A variable name.
pub type Ident = String;

#[derive(Clone, Copy, Debug, PartialEq, Eq, Structural)]
pub enum Copyable {
    Yes,
    No,
}

#[derive(Clone, Copy, Debug, PartialEq, Eq, Structural)]
pub enum Mutable {
    Yes,
    No,
}

/// The tag of a lexical block; tag 0 is the global lifetime.
#[derive(Clone, Copy, Debug, PartialEq, Eq, Structural, Hash)]
pub struct Lifetime(pub usize);

impl Lifetime {
    pub open spec fn spec_global() -> Lifetime {
        Lifetime(0)
    }

    pub fn global() -> (r: Lifetime)
        ensures
            r == Lifetime::spec_global(),
    {
        Lifetime(0)
    }
}

/// A variable followed through `derefs` indirections.
#[derive(Clone, Debug, PartialEq, Eq, Hash)]
pub struct Lval {
    pub ident: Ident,
    pub derefs: usize,
}

impl Lval {
    pub fn new(name: &str, derefs: usize) -> (r: Lval)
        ensures
            r.ident@ == name@,
            r.derefs == derefs,
    {
        Lval { ident: String::from_str(name), derefs }
    }

    pub fn var(name: &str) -> (r: Lval)
        ensures
            r.ident@ == name@,
            r.derefs == 0,
    {
        Lval::new(name, 0)
    }

    /// A copy that is equal to the original.
    pub fn duplicate(&self) -> (r: Lval)
        ensures
            r == *self,
    {
        Lval { ident: self.ident.clone(), derefs: self.derefs }
    }
}

#[derive(Debug, PartialEq)]
pub enum Expr {
    Unit,
    Int(i32),
    /// A use of an lvalue; the flag is set when the use copies rather than moves.
    Lval(Lval, bool),
    Box(Box<Expr>),
    Borrow(Lval, bool),
    Block(Vec<Stmt>, Box<Expr>, Lifetime),
    AssertEq(Box<Expr>, Box<Expr>),
}

#[derive(Debug, PartialEq)]
pub enum Stmt {
    Assign(Lval, Expr),
    LetMut(Ident, Expr),
    Expr(Expr),
}

} // verus!
