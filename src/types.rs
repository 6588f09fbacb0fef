use vstd::prelude::*;
use crate::table::{Scoped, keys_unique, table_view, drop_by, find, put_at, bind, drop_scope};
use crate::utils::{Expr, Ident, Lifetime, Lval, Stmt};

verus! {

/// Static type of a slot; `Undefined` is the tombstone left by a move.
#[derive(Debug, PartialEq)]
pub enum Type {
    Unit,
    Int,
    Box(Box<Type>),
    Ref(Lval, bool),
    Undefined(Box<Type>),
}

#[derive(Clone, Debug, PartialEq)]
pub enum Error {
    Dummy,
    UnboundVar(String),
    InvalidMove,
    InvalidWrite,
    /// An operand of `assert_eq!` is not an integer.
    Mismatch,
}

pub type TypeResult<T> = Result<T, Error>;

#[derive(Debug)]
pub struct Slot {
    pub tipe: Type,
    pub lifetime: Lifetime,
}

/// Variables in scope, one entry per name.
#[derive(Debug, Default)]
pub struct Env(pub Vec<(Ident, Slot)>);

pub type EnvMap = Map<Seq<char>, Slot>;

impl Type {
    pub fn duplicate(&self) -> (r: Type)
        ensures
            r == *self,
        decreases self,
    {
        match self {
            Type::Unit => Type::Unit,
            Type::Int => Type::Int,
            Type::Box(t) => Type::Box(Box::new((**t).duplicate())),
            Type::Ref(lv, m) => Type::Ref(lv.duplicate(), *m),
            Type::Undefined(t) => Type::Undefined(Box::new((**t).duplicate())),
        }
    }

    pub fn is_undefined(&self) -> (r: bool)
        ensures
            r == self is Undefined,
    {
        match self {
            Type::Undefined(_) => true,
            _ => false,
        }
    }
}

impl Slot {
    pub fn duplicate(&self) -> (r: Slot)
        ensures
            r == *self,
    {
        Slot { tipe: self.tipe.duplicate(), lifetime: self.lifetime }
    }
}

/// The type with every tombstone layer taken off.
pub fn peel(t: &Type) -> (r: &Type)
    ensures
        *r == strip(*t),
    decreases t,
{
    match t {
        Type::Undefined(inner) => peel(&**inner),
        _ => t,
    }
}

/// The error of a chain that cannot go on past a slot of type `t`.
fn chain_error(t: &Type, writing: bool) -> (r: Error)
    ensures
        r == broken_chain(*t, writing),
{
    if writing {
        Error::InvalidWrite
    } else if t.is_undefined() {
        Error::InvalidMove
    } else {
        Error::Mismatch
    }
}

/// Whether a slot of this type may not be written to.
pub fn forbids_write(t: &Type) -> (r: bool)
    ensures
        r == write_forbidden(*t),
{
    match t {
        Type::Undefined(_) => true,
        Type::Ref(_, m) => !*m,
        _ => false,
    }
}

/// The type with every tombstone layer taken off.
pub open spec fn strip(t: Type) -> Type
    decreases t,
{
    match t {
        Type::Undefined(inner) => strip(*inner),
        _ => t,
    }
}

pub open spec fn is_copy(t: Type) -> bool {
    t is Unit || t is Int
}

/// Types that may not be written to: moved-from slots and shared references.
pub open spec fn write_forbidden(t: Type) -> bool {
    t is Undefined || (t matches Type::Ref(_, m) && !m)
}

pub open spec fn compatible_spec(t1: Type, t2: Type) -> bool
    decreases t1,
{
    match (t1, t2) {
        (Type::Int, Type::Int) => true,
        (Type::Unit, Type::Unit) => true,
        (Type::Box(b1), Type::Box(b2)) => compatible_spec(*b1, *b2),
        (Type::Ref(_, m1), Type::Ref(_, m2)) => m1 == m2,
        _ => false,
    }
}

/// How many references resolving an lvalue follows at most, nested
/// resolutions included. A reference whose stored lvalue leads back to itself
/// (after `let mut r = &mut *r;`) would be followed forever; resolution stops
/// there with an error instead.
pub const CHAIN_LIMIT: usize = 256;

/// The error of a chain that cannot go on: a write fails as an invalid write;
/// a read stops on a moved-from slot as an invalid move, and on a value that is
/// no reference as a mismatch.
pub open spec fn broken_chain(t: Type, writing: bool) -> Error {
    if writing {
        Error::InvalidWrite
    } else if t is Undefined {
        Error::InvalidMove
    } else {
        Error::Mismatch
    }
}

/// The variable whose slot `lv` denotes, following at most `fuel` references.
pub open spec fn resolve_in(m: EnvMap, lv: Lval, writing: bool, fuel: nat) -> Result<String, Error>
    decreases fuel, 1nat,
{
    if m.contains_key(lv.ident@) {
        walk(m, lv.ident, lv.derefs as nat, writing, fuel)
    } else {
        Err(Error::UnboundVar(lv.ident))
    }
}

/// Follows `n` indirections from the bound variable `cur`. Each indirection
/// goes through a `Ref(inner, _)` type to the slot that `inner`, dereferences
/// included, denotes. A write may only pass through exclusive references.
pub open spec fn walk(m: EnvMap, cur: String, n: nat, writing: bool, fuel: nat) -> Result<String, Error>
    decreases fuel, 0nat,
{
    if n == 0 {
        Ok(cur)
    } else if fuel == 0 {
        Err(broken_chain(m[cur@].tipe, writing))
    } else {
        match m[cur@].tipe {
            Type::Ref(inner, is_mut) => if writing && !is_mut {
                Err(Error::InvalidWrite)
            } else {
                match resolve_in(m, inner, writing, (fuel - 1) as nat) {
                    Ok(next) => walk(m, next, (n - 1) as nat, writing, (fuel - 1) as nat),
                    Err(e) => if writing {
                        Err(Error::InvalidWrite)
                    } else {
                        Err(e)
                    },
                }
            },
            t => Err(broken_chain(t, writing)),
        }
    }
}

/// The variable whose slot an lvalue denotes. A reference type keeps the
/// lvalue it was borrowed from, which is resolved anew at each use: if a
/// reference on that lvalue's path is later pointed elsewhere, this follows the
/// new target, while at run time the borrow still holds the old location.
pub open spec fn resolve(m: EnvMap, lv: Lval, writing: bool) -> Result<String, Error> {
    resolve_in(m, lv, writing, CHAIN_LIMIT as nat)
}

pub open spec fn set_type(m: EnvMap, k: Seq<char>, t: Type) -> EnvMap {
    m.insert(k, Slot { tipe: t, lifetime: m[k].lifetime })
}

/// The environment after a write of `t` to `lv`, and whether it succeeded.
pub open spec fn write_spec(m: EnvMap, lv: Lval, t: Type) -> (EnvMap, Result<(), Error>) {
    match resolve(m, lv, true) {
        Ok(k) => if write_forbidden(m[k@].tipe) {
            (m, Err(Error::InvalidWrite))
        } else {
            (set_type(m, k@, t), Ok(()))
        },
        Err(e) => (m, Err(e)),
    }
}

/// The environment after a move out of `lv`, and whether it succeeded.
pub open spec fn move_spec(m: EnvMap, lv: Lval) -> (EnvMap, Result<(), Error>) {
    match resolve(m, lv, false) {
        Ok(k) => if m[k@].tipe is Undefined {
            (m, Err(Error::InvalidMove))
        } else {
            (set_type(m, k@, Type::Undefined(Box::new(strip(m[k@].tipe)))), Ok(()))
        },
        Err(e) => (m, Err(e)),
    }
}

impl Scoped for Slot {
    open spec fn scope(&self) -> Lifetime {
        self.lifetime
    }

    fn lifetime(&self) -> (r: Lifetime) {
        self.lifetime
    }
}

impl View for Env {
    type V = EnvMap;

    open spec fn view(&self) -> EnvMap {
        table_view(self.0@)
    }
}

impl Env {
    /// Names are unique.
    pub open spec fn wf(&self) -> bool {
        keys_unique(self.0@)
    }

    pub fn insert(&mut self, var: &str, tipe: Type, lifetime: Lifetime)
        requires
            old(self).wf(),
        ensures
            final(self).wf(),
            final(self)@ == old(self)@.insert(var@, Slot { tipe, lifetime }),
    {
        bind(&mut self.0, String::from_str(var), Slot { tipe, lifetime });
    }

    /// Index and name of the slot that `lv` denotes.
    fn resolve_at(&self, lv: &Lval, writing: bool) -> (r: TypeResult<(usize, String)>)
        requires
            self.wf(),
        ensures
            match r {
                Ok((i, k)) => i < self.0@.len() && resolve(self@, *lv, writing) == Ok::<String, Error>(k)
                    && k@ == self.0@[i as int].0@ && self@.contains_key(k@) && self@[k@]
                    == self.0@[i as int].1,
                Err(e) => resolve(self@, *lv, writing) == Err::<String, Error>(e),
            },
    {
        self.resolve_fuel(lv, writing, CHAIN_LIMIT)
    }

    fn resolve_fuel(&self, lv: &Lval, writing: bool, fuel: usize) -> (r: TypeResult<(usize, String)>)
        requires
            self.wf(),
        ensures
            match r {
                Ok((i, k)) => i < self.0@.len() && resolve_in(self@, *lv, writing, fuel as nat)
                    == Ok::<String, Error>(k) && k@ == self.0@[i as int].0@ && self@.contains_key(k@)
                    && self@[k@] == self.0@[i as int].1,
                Err(e) => resolve_in(self@, *lv, writing, fuel as nat) == Err::<String, Error>(e),
            },
        decreases fuel, 1nat,
    {
        match find(&self.0, &lv.ident) {
            Some(i) => self.walk_fuel(i, lv.ident.clone(), lv.derefs, writing, fuel),
            None => Err(Error::UnboundVar(lv.ident.clone())),
        }
    }

    fn walk_fuel(&self, i: usize, cur: String, n: usize, writing: bool, fuel: usize) -> (r: TypeResult<
        (usize, String),
    >)
        requires
            self.wf(),
            i < self.0@.len(),
            self.0@[i as int].0@ == cur@,
            self@.contains_key(cur@),
            self@[cur@] == self.0@[i as int].1,
        ensures
            match r {
                Ok((j, k)) => j < self.0@.len() && walk(self@, cur, n as nat, writing, fuel as nat)
                    == Ok::<String, Error>(k) && k@ == self.0@[j as int].0@ && self@.contains_key(k@)
                    && self@[k@] == self.0@[j as int].1,
                Err(e) => walk(self@, cur, n as nat, writing, fuel as nat) == Err::<String, Error>(e),
            },
        decreases fuel, 0nat,
    {
        if n == 0 {
            return Ok((i, cur));
        }
        if fuel == 0 {
            return Err(chain_error(&self.0[i].1.tipe, writing));
        }
        match &self.0[i].1.tipe {
            Type::Ref(inner, is_mut) => {
                if writing && !*is_mut {
                    return Err(Error::InvalidWrite);
                }
                match self.resolve_fuel(inner, writing, fuel - 1) {
                    Ok((j, next)) => self.walk_fuel(j, next, n - 1, writing, fuel - 1),
                    Err(e) => {
                        if writing {
                            Err(Error::InvalidWrite)
                        } else {
                            Err(e)
                        }
                    },
                }
            },
            t => Err(chain_error(t, writing)),
        }
    }

    pub fn type_lval(&self, lval: &Lval) -> (r: TypeResult<Slot>)
        requires
            self.wf(),
        ensures
            r == match resolve(self@, *lval, false) {
                Ok(k) => Ok(self@[k@]),
                Err(e) => Err::<Slot, Error>(e),
            },
    {
        let (i, _) = self.resolve_at(lval, false)?;
        Ok(self.0[i].1.duplicate())
    }

    pub fn contained(&self, var: &Ident) -> (r: Option<&Type>)
        requires
            self.wf(),
        ensures
            match r {
                Some(t) => self@.contains_key(var@) && *t == strip(self@[var@].tipe),
                None => !self@.contains_key(var@),
            },
    {
        match find(&self.0, var) {
            Some(i) => Some(peel(&self.0[i].1.tipe)),
            None => None,
        }
    }

    /// Whether reading `lval` would read a moved-from value: resolving it meets
    /// a tombstone, at its target or on the way there.
    pub fn read_prohibited(&self, lval: &Lval) -> (r: bool)
        requires
            self.wf(),
        ensures
            r == match resolve(self@, *lval, false) {
                Ok(k) => self@[k@].tipe is Undefined,
                Err(e) => e == Error::InvalidMove,
            },
    {
        match self.resolve_at(lval, false) {
            Ok((i, _)) => self.0[i].1.tipe.is_undefined(),
            Err(Error::InvalidMove) => true,
            Err(_) => false,
        }
    }

    /// Whether writing to `lval` is prohibited: the chain to it passes a
    /// shared reference or a moved-from slot, or its target is one.
    pub fn write_prohibited(&self, lval: &Lval) -> (r: bool)
        requires
            self.wf(),
        ensures
            r == match resolve(self@, *lval, true) {
                Ok(k) => write_forbidden(self@[k@].tipe),
                Err(e) => e == Error::InvalidWrite,
            },
    {
        match self.resolve_at(lval, true) {
            Ok((i, _)) => forbids_write(&self.0[i].1.tipe),
            Err(Error::InvalidWrite) => true,
            Err(_) => false,
        }
    }

    pub fn moove(&mut self, lval: &Lval) -> (r: TypeResult<()>)
        requires
            old(self).wf(),
        ensures
            final(self).wf(),
            (final(self)@, r) == move_spec(old(self)@, *lval),
    {
        let (i, _) = self.resolve_at(lval, false)?;
        if self.0[i].1.tipe.is_undefined() {
            return Err(Error::InvalidMove);
        }
        let tomb = Type::Undefined(Box::new(peel(&self.0[i].1.tipe).duplicate()));
        let lifetime = self.0[i].1.lifetime;
        put_at(&mut self.0, i, Slot { tipe: tomb, lifetime });
        Ok(())
    }

    /// Whether `lval` holds an exclusive reference, looking through tombstones.
    pub fn muut(&self, lval: &Lval) -> (r: bool)
        requires
            self.wf(),
        ensures
            r == (resolve(self@, *lval, false) matches Ok(k) && (strip(self@[k@].tipe) matches Type::Ref(
                _,
                m,
            ) && m)),
    {
        match self.resolve_at(lval, false) {
            Ok((i, _)) => match peel(&self.0[i].1.tipe) {
                Type::Ref(_, m) => *m,
                _ => false,
            },
            Err(_) => false,
        }
    }

    pub fn compatible(&self, t1: &Type, t2: &Type) -> (r: bool)
        ensures
            r == compatible_spec(*t1, *t2),
        decreases t1,
    {
        match (t1, t2) {
            (Type::Int, Type::Int) => true,
            (Type::Unit, Type::Unit) => true,
            (Type::Box(b1), Type::Box(b2)) => self.compatible(&**b1, &**b2),
            (Type::Ref(_, m1), Type::Ref(_, m2)) => *m1 == *m2,
            _ => false,
        }
    }

    pub fn write(&mut self, w: &Lval, tipe: Type) -> (r: TypeResult<()>)
        requires
            old(self).wf(),
        ensures
            final(self).wf(),
            (final(self)@, r) == write_spec(old(self)@, *w, tipe),
    {
        let (i, _) = self.resolve_at(w, true)?;
        if forbids_write(&self.0[i].1.tipe) {
            return Err(Error::InvalidWrite);
        }
        let lifetime = self.0[i].1.lifetime;
        put_at(&mut self.0, i, Slot { tipe, lifetime });
        Ok(())
    }

    /// Ends the block of lifetime `l`. Lifetimes are compared for equality
    /// only: a reference that outlives the block of its referent is not
    /// caught here, only when it is later followed to a name no longer bound.
    pub fn drop(&mut self, l: Lifetime)
        requires
            old(self).wf(),
        ensures
            final(self).wf(),
            final(self)@ == drop_by(old(self)@, l),
    {
        drop_scope(&mut self.0, l);
    }
}

/// Copy flags of the variable uses of an expression, in evaluation order.
pub open spec fn use_flags(e: Expr) -> Seq<bool>
    decreases e,
{
    match e {
        Expr::Lval(_, c) => seq![c],
        Expr::Box(inner) => use_flags(*inner),
        Expr::Block(stmts, fin, _) => use_flags_stmts(stmts@) + use_flags(*fin),
        Expr::AssertEq(a, b) => use_flags(*a) + use_flags(*b),
        _ => seq![],
    }
}

pub open spec fn use_flags_stmt(s: Stmt) -> Seq<bool>
    decreases s,
{
    match s {
        Stmt::Assign(_, e) => use_flags(e),
        Stmt::LetMut(_, e) => use_flags(e),
        Stmt::Expr(e) => use_flags(e),
    }
}

pub open spec fn use_flags_stmts(ss: Seq<Stmt>) -> Seq<bool>
    decreases ss,
{
    if ss.len() == 0 {
        seq![]
    } else {
        use_flags_stmts(ss.drop_last()) + use_flags_stmt(ss.last())
    }
}

/// The two expressions differ at most in the copy flags of variable uses.
pub open spec fn shape_eq(a: Expr, b: Expr) -> bool
    decreases a,
{
    match (a, b) {
        (Expr::Unit, Expr::Unit) => true,
        (Expr::Int(x), Expr::Int(y)) => x == y,
        (Expr::Lval(l1, _), Expr::Lval(l2, _)) => l1 == l2,
        (Expr::Box(x), Expr::Box(y)) => shape_eq(*x, *y),
        (Expr::Borrow(l1, m1), Expr::Borrow(l2, m2)) => l1 == l2 && m1 == m2,
        (Expr::Block(s1, f1, t1), Expr::Block(s2, f2, t2)) => s1@.len() == s2@.len() && (forall|
            i: int,
        |
            0 <= i < s1@.len() ==> shape_eq_stmt(#[trigger] s1@[i], s2@[i])) && shape_eq(*f1, *f2)
            && t1 == t2,
        (Expr::AssertEq(a1, b1), Expr::AssertEq(a2, b2)) => shape_eq(*a1, *a2) && shape_eq(
            *b1,
            *b2,
        ),
        _ => false,
    }
}

pub open spec fn shape_eq_stmt(a: Stmt, b: Stmt) -> bool
    decreases a,
{
    match (a, b) {
        (Stmt::Assign(l1, e1), Stmt::Assign(l2, e2)) => l1 == l2 && shape_eq(e1, e2),
        (Stmt::LetMut(x1, e1), Stmt::LetMut(x2, e2)) => x1 == x2 && shape_eq(e1, e2),
        (Stmt::Expr(e1), Stmt::Expr(e2)) => shape_eq(e1, e2),
        _ => false,
    }
}

/// Checking a use of an lvalue: a non-copy value is moved out, leaving a tombstone.
pub open spec fn check_use(m: EnvMap, lv: Lval) -> (EnvMap, Result<Type, Error>, Seq<bool>) {
    match resolve(m, lv, false) {
        Ok(k) => {
            let t = m[k@].tipe;
            if t is Undefined {
                (m, Err(Error::InvalidMove), seq![])
            } else if is_copy(t) {
                (m, Ok(t), seq![true])
            } else {
                (set_type(m, k@, Type::Undefined(Box::new(t))), Ok(t), seq![false])
            }
        },
        Err(e) => (m, Err(e), seq![]),
    }
}

/// Checking an expression: the environment after, the type or the first error,
/// and the copy flags of the variable uses checked.
pub open spec fn check_expr(m: EnvMap, e: Expr) -> (EnvMap, Result<Type, Error>, Seq<bool>)
    decreases e,
{
    match e {
        Expr::Unit => (m, Ok(Type::Unit), seq![]),
        Expr::Int(_) => (m, Ok(Type::Int), seq![]),
        Expr::Lval(lv, _) => check_use(m, lv),
        Expr::Box(inner) => {
            let (m1, r, f) = check_expr(m, *inner);
            match r {
                Ok(t) => (m1, Ok(Type::Box(Box::new(t))), f),
                Err(x) => (m1, Err(x), f),
            }
        },
        Expr::Borrow(lv, is_mut) => match resolve(m, lv, false) {
            Ok(k) => if m[k@].tipe is Undefined {
                (m, Err(Error::InvalidMove), seq![])
            } else {
                (m, Ok(Type::Ref(lv, is_mut)), seq![])
            },
            Err(x) => (m, Err(x), seq![]),
        },
        Expr::Block(stmts, fin, l) => {
            let (m1, r1, f1) = check_stmts(m, stmts@, l);
            match r1 {
                Err(x) => (m1, Err(x), f1),
                Ok(_) => {
                    let (m2, r2, f2) = check_expr(m1, *fin);
                    match r2 {
                        Err(x) => (m2, Err(x), f1 + f2),
                        Ok(t) => (drop_by(m2, l), Ok(t), f1 + f2),
                    }
                },
            }
        },
        Expr::AssertEq(a, b) => {
            let (m1, r1, f1) = check_expr(m, *a);
            match r1 {
                Err(x) => (m1, Err(x), f1),
                Ok(t1) => {
                    let (m2, r2, f2) = check_expr(m1, *b);
                    match r2 {
                        Err(x) => (m2, Err(x), f1 + f2),
                        Ok(t2) => if t1 is Int && t2 is Int {
                            (m2, Ok(Type::Unit), f1 + f2)
                        } else {
                            (m2, Err(Error::Mismatch), f1 + f2)
                        },
                    }
                },
            }
        },
    }
}

/// Checking a statement of the block of lifetime `l`.
pub open spec fn check_stmt(m: EnvMap, s: Stmt, l: Lifetime) -> (EnvMap, Result<(), Error>, Seq<bool>)
    decreases s,
{
    match s {
        Stmt::LetMut(x, e) => {
            let (m1, r, f) = check_expr(m, e);
            match r {
                Ok(t) => (m1.insert(x@, Slot { tipe: t, lifetime: l }), Ok(()), f),
                Err(err) => (m1, Err(err), f),
            }
        },
        Stmt::Assign(lv, e) => {
            let (m1, r, f) = check_expr(m, e);
            match r {
                Ok(t) => {
                    let (m2, w) = write_spec(m1, lv, t);
                    (m2, w, f)
                },
                Err(err) => (m1, Err(err), f),
            }
        },
        Stmt::Expr(e) => {
            let (m1, r, f) = check_expr(m, e);
            match r {
                Ok(_) => (m1, Ok(()), f),
                Err(err) => (m1, Err(err), f),
            }
        },
    }
}

/// Checking statements in order, stopping at the first error.
pub open spec fn check_stmts(m: EnvMap, ss: Seq<Stmt>, l: Lifetime) -> (
    EnvMap,
    Result<(), Error>,
    Seq<bool>,
)
    decreases ss,
{
    if ss.len() == 0 {
        (m, Ok(()), seq![])
    } else {
        let (m1, r1, f1) = check_stmts(m, ss.drop_last(), l);
        match r1 {
            Err(x) => (m1, Err(x), f1),
            Ok(_) => {
                let (m2, r2, f2) = check_stmt(m1, ss.last(), l);
                (m2, r2, f1 + f2)
            },
        }
    }
}

proof fn lemma_shape_refl(e: Expr)
    ensures
        shape_eq(e, e),
    decreases e,
{
    match e {
        Expr::Box(x) => lemma_shape_refl(*x),
        Expr::Block(ss, f, _) => {
            assert forall|i: int| 0 <= i < ss@.len() implies shape_eq_stmt(
                #[trigger] ss@[i],
                ss@[i],
            ) by {
                lemma_shape_refl_stmt(ss@[i]);
            }
            lemma_shape_refl(*f);
        },
        Expr::AssertEq(a, b) => {
            lemma_shape_refl(*a);
            lemma_shape_refl(*b);
        },
        _ => {},
    }
}

proof fn lemma_shape_refl_stmt(s: Stmt)
    ensures
        shape_eq_stmt(s, s),
    decreases s,
{
    match s {
        Stmt::Assign(_, e) => lemma_shape_refl(e),
        Stmt::LetMut(_, e) => lemma_shape_refl(e),
        Stmt::Expr(e) => lemma_shape_refl(e),
    }
}

/// Once a prefix of the statements fails, the whole sequence fails the same way.
proof fn lemma_stmts_stop(m: EnvMap, ss: Seq<Stmt>, l: Lifetime, i: int)
    requires
        0 <= i <= ss.len(),
        check_stmts(m, ss.take(i), l).1 is Err,
    ensures
        check_stmts(m, ss, l) == check_stmts(m, ss.take(i), l),
    decreases ss.len() - i,
{
    if i < ss.len() {
        assert(ss.take(i + 1).drop_last() =~= ss.take(i));
        lemma_stmts_stop(m, ss, l, i + 1);
    } else {
        assert(ss.take(i) =~= ss);
    }
}

pub struct TypeContext {
    pub env: Env,
}

impl TypeContext {
    pub fn new() -> (r: TypeContext)
        ensures
            r.env.wf(),
            r.env@ == Map::<Seq<char>, Slot>::empty(),
    {
        let r = TypeContext { env: Env(Vec::new()) };
        assert(r.env@ =~= Map::<Seq<char>, Slot>::empty());
        r
    }

    /// Checks a statement of the block of lifetime `l`, marking each variable
    /// use in it as a copy or a move.
    pub fn type_stmt(&mut self, stmt: &mut Stmt, l: Lifetime) -> (r: TypeResult<()>)
        requires
            old(self).env.wf(),
        ensures
            final(self).env.wf(),
            final(self).env@ == check_stmt(old(self).env@, *old(stmt), l).0,
            r == check_stmt(old(self).env@, *old(stmt), l).1,
            shape_eq_stmt(*final(stmt), *old(stmt)),
            r is Ok ==> use_flags_stmt(*final(stmt)) == check_stmt(old(self).env@, *old(stmt), l).2,
        decreases *old(stmt),
    {
        match stmt {
            Stmt::LetMut(ident, expr) => {
                let t = self.type_expr(expr)?;
                self.env.insert(ident.as_str(), t, l);
                Ok(())
            },
            Stmt::Assign(lval, expr) => {
                let t = self.type_expr(expr)?;
                self.env.write(lval, t)
            },
            Stmt::Expr(expr) => {
                self.type_expr(expr)?;
                Ok(())
            },
        }
    }

    /// Checks an expression, marking each variable use in it as a copy or a move.
    pub fn type_expr(&mut self, expr: &mut Expr) -> (r: TypeResult<Type>)
        requires
            old(self).env.wf(),
        ensures
            final(self).env.wf(),
            final(self).env@ == check_expr(old(self).env@, *old(expr)).0,
            r == check_expr(old(self).env@, *old(expr)).1,
            shape_eq(*final(expr), *old(expr)),
            r is Ok ==> use_flags(*final(expr)) == check_expr(old(self).env@, *old(expr)).2,
        decreases *old(expr),
    {
        proof {
            lemma_shape_refl(*expr);
        }
        match expr {
            Expr::Unit => Ok(Type::Unit),
            Expr::Int(_) => Ok(Type::Int),
            Expr::Lval(lval, copyable) => {
                let (i, _) = self.env.resolve_at(lval, false)?;
                let t = self.env.0[i].1.tipe.duplicate();
                if t.is_undefined() {
                    return Err(Error::InvalidMove);
                }
                match t {
                    Type::Unit | Type::Int => {
                        *copyable = true;
                    },
                    _ => {
                        *copyable = false;
                        let lifetime = self.env.0[i].1.lifetime;
                        put_at(&mut self.env.0, i, Slot { tipe: Type::Undefined(Box::new(t.duplicate())), lifetime });
                    },
                }
                Ok(t)
            },
            Expr::Box(inner) => {
                let t = self.type_expr(&mut **inner)?;
                Ok(Type::Box(Box::new(t)))
            },
            Expr::Borrow(lval, is_mut) => {
                let (i, _) = self.env.resolve_at(lval, false)?;
                if self.env.0[i].1.tipe.is_undefined() {
                    return Err(Error::InvalidMove);
                }
                Ok(Type::Ref(lval.duplicate(), *is_mut))
            },
            Expr::Block(stmts, final_expr, block_lifetime) => {
                let l = *block_lifetime;
                self.type_block(stmts, l)?;
                let t = self.type_expr(&mut **final_expr)?;
                self.env.drop(l);
                Ok(t)
            },
            Expr::AssertEq(left, right) => {
                let t1 = self.type_expr(&mut **left)?;
                let t2 = self.type_expr(&mut **right)?;
                match (t1, t2) {
                    (Type::Int, Type::Int) => Ok(Type::Unit),
                    _ => Err(Error::Mismatch),
                }
            },
        }
    }

    /// Checks the statements of a block in order, stopping at the first error.
    fn type_block(&mut self, stmts: &mut Vec<Stmt>, l: Lifetime) -> (r: TypeResult<()>)
        requires
            old(self).env.wf(),
        ensures
            final(self).env.wf(),
            final(self).env@ == check_stmts(old(self).env@, old(stmts)@, l).0,
            r == check_stmts(old(self).env@, old(stmts)@, l).1,
            final(stmts)@.len() == old(stmts)@.len(),
            forall|j: int| 0 <= j < old(stmts)@.len() ==> shape_eq_stmt(#[trigger] final(stmts)@[j], old(stmts)@[j]),
            r is Ok ==> use_flags_stmts(final(stmts)@) == check_stmts(old(self).env@, old(stmts)@, l).2,
        decreases old(stmts)@,
    {
        let ghost orig = stmts@;
        let ghost m0 = self.env@;
        assert forall|j: int| 0 <= j < orig.len() implies shape_eq_stmt(#[trigger] orig[j], orig[j]) by {
            lemma_shape_refl_stmt(orig[j]);
        }
        let mut i: usize = 0;
        while i < stmts.len()
            invariant
                self.env.wf(),
                orig == old(stmts)@,
                m0 == old(self).env@,
                stmts@.len() == orig.len(),
                i <= orig.len(),
                forall|j: int| 0 <= j < i ==> shape_eq_stmt(#[trigger] stmts@[j], orig[j]),
                forall|j: int| i <= j < orig.len() ==> #[trigger] stmts@[j] == orig[j],
                forall|j: int| 0 <= j < orig.len() ==> shape_eq_stmt(#[trigger] orig[j], orig[j]),
                self.env@ == check_stmts(m0, orig.take(i as int), l).0,
                check_stmts(m0, orig.take(i as int), l).1 == Ok::<(), Error>(()),
                use_flags_stmts(stmts@.take(i as int)) == check_stmts(m0, orig.take(i as int), l).2,
            decreases orig.len() - i,
        {
            let ghost pre = stmts@;
            let mut s = stmts.remove(i);
            assert(s == orig[i as int]);
            assert(decreases_to!(orig => s));
            assert(orig.take(i as int + 1).drop_last() =~= orig.take(i as int));
            let r = self.type_stmt(&mut s, l);
            stmts.insert(i, s);
            assert(stmts@.take(i as int + 1).drop_last() =~= stmts@.take(i as int));
            assert(stmts@.take(i as int) =~= pre.take(i as int));
            assert(orig.take(i as int + 1).last() == orig[i as int]);
            if r.is_err() {
                proof {
                    assert(check_stmts(m0, orig.take(i as int + 1), l).1 == r);
                    lemma_stmts_stop(m0, orig, l, i as int + 1);
                }
                return r;
            }
            i += 1;
        }
        proof {
            assert(orig.take(i as int) =~= orig);
            assert(stmts@.take(i as int) =~= stmts@);
        }
        Ok(())
    }
}

/// A variable holding a non-copy value is moved by its first use; any later
/// use of it, read or borrow, through any number of dereferences, is an
/// invalid move.
pub proof fn lemma_use_after_move(m: EnvMap, x: Lval, second: Expr)
    requires
        x.derefs == 0,
        m.contains_key(x.ident@),
        !is_copy(m[x.ident@].tipe),
        !(m[x.ident@].tipe is Undefined),
        (second matches Expr::Lval(y, _) && y.ident@ == x.ident@) || (second matches Expr::Borrow(
            y,
            _,
        ) && y.ident@ == x.ident@),
    ensures
        check_expr(m, Expr::Lval(x, false)).1 is Ok,
        check_expr(check_expr(m, Expr::Lval(x, false)).0, second).1 == Err::<Type, Error>(
            Error::InvalidMove,
        ),
{
    let m1 = check_expr(m, Expr::Lval(x, false)).0;
    assert(m1[x.ident@].tipe is Undefined);
    let y = match second {
        Expr::Lval(y, _) => y,
        Expr::Borrow(y, _) => y,
        _ => x,
    };
    let f = CHAIN_LIMIT as nat;
    assert(f > 0);
    assert(m1.contains_key(y.ident@));
    assert(m1[y.ident@] == m1[x.ident@]);
    if y.derefs == 0 {
        assert(walk(m1, y.ident, 0, false, f) == Ok::<String, Error>(y.ident));
    } else {
        assert(walk(m1, y.ident, y.derefs as nat, false, f) == Err::<String, Error>(
            broken_chain(m1[y.ident@].tipe, false),
        ));
    }
    assert(resolve(m1, y, false) == resolve_in(m1, y, false, f));
}

/// Assigning through a shared reference is an invalid write; through an
/// exclusive reference to a writable slot it succeeds and stores the new type
/// in the referenced slot.
pub proof fn lemma_write_through_ref(
    m: EnvMap,
    r: Lval,
    target: Lval,
    is_mut: bool,
    v: i32,
    l: Lifetime,
)
    requires
        r.derefs == 1,
        m.contains_key(r.ident@),
        m[r.ident@].tipe == Type::Ref(target, is_mut),
        target.derefs == 0,
        m.contains_key(target.ident@),
        !write_forbidden(m[target.ident@].tipe),
    ensures
        !is_mut ==> check_stmt(m, Stmt::Assign(r, Expr::Int(v)), l).1 == Err::<(), Error>(
            Error::InvalidWrite,
        ),
        is_mut ==> check_stmt(m, Stmt::Assign(r, Expr::Int(v)), l).1 == Ok::<(), Error>(()),
        is_mut ==> check_stmt(m, Stmt::Assign(r, Expr::Int(v)), l).0 == set_type(
            m,
            target.ident@,
            Type::Int,
        ),
{
    let f = CHAIN_LIMIT as nat;
    assert(walk(m, target.ident, 0, true, (f - 1) as nat) == Ok::<String, Error>(target.ident));
    assert(resolve_in(m, target, true, (f - 1) as nat) == Ok::<String, Error>(target.ident));
    assert(walk(m, target.ident, 0, true, (f - 1) as nat) == Ok::<String, Error>(target.ident));
    assert(resolve(m, r, true) == resolve_in(m, r, true, f));
}

/// Using a variable of a copy type leaves the environment as it was, so it can
/// be used any number of times; `assert_eq!(x, x)` on an integer checks.
pub proof fn lemma_copy_reuse(m: EnvMap, x: Lval)
    requires
        x.derefs == 0,
        m.contains_key(x.ident@),
        is_copy(m[x.ident@].tipe),
    ensures
        check_use(m, x) == (m, Ok::<Type, Error>(m[x.ident@].tipe), seq![true]),
        m[x.ident@].tipe is Int ==> check_expr(
            m,
            Expr::AssertEq(Box::new(Expr::Lval(x, false)), Box::new(Expr::Lval(x, false))),
        ) == (m, Ok::<Type, Error>(Type::Unit), seq![true, true]),
{
    let e = Expr::Lval(x, false);
    assert(check_expr(m, e) == check_use(m, x));
    assert(seq![true] + seq![true] =~= seq![true, true]);
}

} // verus!
