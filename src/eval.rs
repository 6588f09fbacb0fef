use vstd::prelude::*;
use crate::table::{Scoped, keys_unique, table_view, drop_by, find, put_at, bind, drop_scope};
use crate::utils::{Expr, Ident, Lifetime, Lval, Stmt};

verus! {

/// Whether a reference owns its referent and frees it when dropped.
pub type Owned = bool;

/// Where a value lives: the slot of a variable, or a heap cell.
#[derive(Clone, Debug, PartialEq)]
pub enum Location {
    Var(Ident),
    Heap(usize),
}

#[derive(Clone, Debug, PartialEq)]
pub enum Value {
    Unit,
    Int(i32),
    Ref(Location, Owned),
}

/// Why evaluation stopped.
#[derive(Clone, Debug, PartialEq)]
pub enum EvalError {
    /// The program reached a state that a checked program never reaches.
    Stuck,
    /// `assert_eq!` saw two different integers.
    AssertFailed(i32, i32),
}

/// A runtime slot; `None` once its value has been moved out.
#[derive(Clone, Debug)]
pub struct Slot {
    pub value: Option<Value>,
    pub lifetime: Lifetime,
}

/// The runtime store: variable slots by name, and heap cells by index.
/// A freed heap cell stays as `None`, so a heap index is never reused.
#[derive(Debug, Default)]
pub struct Store {
    pub vars: Vec<(Ident, Slot)>,
    pub heap: Vec<Option<Slot>>,
}

#[derive(Debug, Default)]
pub struct Context {
    pub store: Store,
}

pub type StoreView = (Map<Seq<char>, Slot>, Seq<Option<Slot>>);

impl Location {
    pub fn duplicate(&self) -> (r: Location)
        ensures
            r == *self,
    {
        match self {
            Location::Var(x) => Location::Var(x.clone()),
            Location::Heap(n) => Location::Heap(*n),
        }
    }
}

impl Value {
    pub fn duplicate(&self) -> (r: Value)
        ensures
            r == *self,
    {
        match self {
            Value::Unit => Value::Unit,
            Value::Int(n) => Value::Int(*n),
            Value::Ref(loc, o) => Value::Ref(loc.duplicate(), *o),
        }
    }
}

impl Scoped for Slot {
    open spec fn scope(&self) -> Lifetime {
        self.lifetime
    }

    fn lifetime(&self) -> (r: Lifetime) {
        self.lifetime
    }
}

/// The slot at a location, if there is one.
pub open spec fn slot_at(st: StoreView, loc: Location) -> Option<Slot> {
    match loc {
        Location::Var(x) => if st.0.contains_key(x@) {
            Some(st.0[x@])
        } else {
            None
        },
        Location::Heap(n) => if n < st.1.len() {
            st.1[n as int]
        } else {
            None
        },
    }
}

/// Follows `n` references from `loc`.
pub open spec fn follow(st: StoreView, loc: Location, n: nat) -> Result<Location, EvalError>
    decreases n,
{
    if n == 0 {
        Ok(loc)
    } else {
        match slot_at(st, loc) {
            Some(s) => match s.value {
                Some(Value::Ref(next, _)) => follow(st, next, (n - 1) as nat),
                _ => Err(EvalError::Stuck),
            },
            None => Err(EvalError::Stuck),
        }
    }
}

/// The location an lvalue denotes.
pub open spec fn locate_spec(st: StoreView, lv: Lval) -> Result<Location, EvalError> {
    follow(st, Location::Var(lv.ident), lv.derefs as nat)
}

/// The slot an lvalue denotes.
pub open spec fn read_spec(st: StoreView, lv: Lval) -> Result<Slot, EvalError> {
    match locate_spec(st, lv) {
        Ok(loc) => match slot_at(st, loc) {
            Some(s) => Ok(s),
            None => Err(EvalError::Stuck),
        },
        Err(e) => Err(e),
    }
}

/// The store with the value at an existing location replaced, its lifetime kept.
pub open spec fn set_value(st: StoreView, loc: Location, v: Option<Value>) -> StoreView {
    match loc {
        Location::Var(x) => (
            st.0.insert(x@, Slot { value: v, lifetime: st.0[x@].lifetime }),
            st.1,
        ),
        Location::Heap(n) => (
            st.0,
            st.1.update(n as int, Some(Slot { value: v, lifetime: st.1[n as int]->Some_0.lifetime })),
        ),
    }
}

/// A write of `v` to `lv`: the store after, and the value that was there.
pub open spec fn write_spec(st: StoreView, lv: Lval, v: Option<Value>) -> (
    StoreView,
    Result<Option<Value>, EvalError>,
) {
    match read_spec(st, lv) {
        Ok(s) => (set_value(st, locate_spec(st, lv)->Ok_0, v), Ok(s.value)),
        Err(e) => (st, Err(e)),
    }
}

/// The value is a reference that owns heap cell `n`.
pub open spec fn owns(v: Option<Value>, n: int) -> bool {
    v matches Some(Value::Ref(Location::Heap(h), o)) && o && h == n
}

/// One of the values owns heap cell `n`.
pub open spec fn any_owns(vals: Seq<Option<Value>>, n: int) -> bool {
    exists|u: int| 0 <= u < vals.len() && owns(vals[u], n)
}

/// A variable slot of lifetime `l` owns heap cell `n`.
pub open spec fn var_owns(vars: Map<Seq<char>, Slot>, l: Lifetime, n: int) -> bool {
    exists|k: Seq<char>| vars.contains_key(k) && #[trigger] vars[k].lifetime == l && owns(vars[k].value, n)
}

/// One of the first `i` heap cells has lifetime `l` and holds `v`.
pub open spec fn scoped_value(heap: Seq<Option<Slot>>, l: Lifetime, i: int, v: Option<Value>) -> bool {
    exists|j: int| 0 <= j < i && heap_scoped(heap, j, l) && heap[j]->Some_0.value == v
}

/// Heap cell `n` has lifetime `l`.
pub open spec fn heap_scoped(heap: Seq<Option<Slot>>, n: int, l: Lifetime) -> bool {
    heap[n] matches Some(s) && s.lifetime == l
}

/// Heap cell `n` is owned by a slot of lifetime `l`.
pub open spec fn freed_by(st: StoreView, l: Lifetime, n: int) -> bool {
    var_owns(st.0, l, n) || (
    exists|i: int|
        0 <= i < st.1.len() && #[trigger] heap_scoped(st.1, i, l) && owns(st.1[i]->Some_0.value, n))
}

/// The cells that `prev` holds, and the cells that one of them owns.
pub open spec fn grow(heap: Seq<Option<Slot>>, prev: spec_fn(int) -> bool) -> spec_fn(int) -> bool {
    |n: int|
        prev(n) || exists|m: int|
            0 <= m < heap.len() && #[trigger] prev(m) && heap[m] is Some && owns(heap[m]->Some_0.value, n)
}

/// The cells reached from the roots through at most `k` cells of `heap`, each
/// owning the next.
pub open spec fn reached(heap: Seq<Option<Slot>>, roots: spec_fn(int) -> bool, k: nat) -> spec_fn(int) -> bool
    decreases k,
{
    if k == 0 {
        roots
    } else {
        grow(heap, reached(heap, roots, (k - 1) as nat))
    }
}

/// Heap cell `n` is reached from the roots within `k` steps.
pub open spec fn reach(heap: Seq<Option<Slot>>, roots: spec_fn(int) -> bool, k: nat, n: int) -> bool {
    reached(heap, roots, k)(n)
}

/// The heap with every cell freed that the roots own, directly or through a
/// chain of owned cells. A chain that visits no cell twice has at most as many
/// links as the heap has cells, so that bound reaches every such cell.
pub open spec fn free_reached(heap: Seq<Option<Slot>>, roots: spec_fn(int) -> bool) -> Seq<Option<Slot>> {
    Seq::new(
        heap.len(),
        |n: int|
            if reach(heap, roots, heap.len() as nat, n) {
                None
            } else {
                heap[n]
            },
    )
}

/// The heap with the cells of lifetime `l` taken out.
pub open spec fn clear_scoped(heap: Seq<Option<Slot>>, l: Lifetime) -> Seq<Option<Slot>> {
    Seq::new(
        heap.len(),
        |n: int|
            if heap_scoped(heap, n, l) {
                None
            } else {
                heap[n]
            },
    )
}

/// The store when the block of lifetime `l` ends: its slots and heap cells are
/// removed, and so is every heap cell that one of them owned, directly or
/// through a chain of owned cells.
pub open spec fn close_spec(st: StoreView, l: Lifetime) -> StoreView {
    (drop_by(st.0, l), free_reached(clear_scoped(st.1, l), |n: int| freed_by(st, l, n)))
}

proof fn lemma_reach_step(heap: Seq<Option<Slot>>, roots: spec_fn(int) -> bool, k: nat, x: int)
    ensures
        reach(heap, roots, k + 1, x) == (reach(heap, roots, k, x) || exists|y: int|
            0 <= y < heap.len() && #[trigger] reach(heap, roots, k, y) && heap[y] is Some && owns(
                heap[y]->Some_0.value,
                x,
            )),
{
    assert(((k + 1) - 1) as nat == k);
    let prev = reached(heap, roots, k);
    assert(reached(heap, roots, k + 1) == grow(heap, prev));
    if exists|y: int| 0 <= y < heap.len() && #[trigger] prev(y) && heap[y] is Some && owns(heap[y]->Some_0.value, x) {
        let y = choose|y: int| 0 <= y < heap.len() && #[trigger] prev(y) && heap[y] is Some && owns(heap[y]->Some_0.value, x);
        assert(reach(heap, roots, k, y));
    }
    if exists|y: int|
        0 <= y < heap.len() && #[trigger] reach(heap, roots, k, y) && heap[y] is Some && owns(heap[y]->Some_0.value, x) {
        let y = choose|y: int|
            0 <= y < heap.len() && #[trigger] reach(heap, roots, k, y) && heap[y] is Some && owns(heap[y]->Some_0.value, x);
        assert(prev(y));
    }
}

proof fn lemma_reach_root(heap: Seq<Option<Slot>>, roots: spec_fn(int) -> bool, k: nat, n: int)
    requires
        roots(n),
    ensures
        reach(heap, roots, k, n),
    decreases k,
{
    if k > 0 {
        lemma_reach_root(heap, roots, (k - 1) as nat, n);
        lemma_reach_step(heap, roots, (k - 1) as nat, n);
    }
}

proof fn lemma_reach_unowned(heap: Seq<Option<Slot>>, roots: spec_fn(int) -> bool, k: nat, n: int)
    requires
        !roots(n),
        forall|m: int| 0 <= m < heap.len() && #[trigger] heap[m] is Some ==> !owns(heap[m]->Some_0.value, n),
    ensures
        !reach(heap, roots, k, n),
    decreases k,
{
    if k > 0 {
        lemma_reach_unowned(heap, roots, (k - 1) as nat, n);
        lemma_reach_step(heap, roots, (k - 1) as nat, n);
    }
}

/// Evaluating an expression in the block of lifetime `l`: the store after,
/// and the value or the reason evaluation stopped.
pub open spec fn eval_spec(st: StoreView, e: Expr, l: Lifetime) -> (StoreView, Result<Value, EvalError>)
    decreases e,
{
    match e {
        Expr::Unit => (st, Ok(Value::Unit)),
        Expr::Int(n) => (st, Ok(Value::Int(n))),
        Expr::Lval(lv, copyable) => match read_spec(st, lv) {
            Ok(s) => match s.value {
                Some(v) => if copyable {
                    (st, Ok(v))
                } else {
                    (set_value(st, locate_spec(st, lv)->Ok_0, None), Ok(v))
                },
                None => (st, Err(EvalError::Stuck)),
            },
            Err(x) => (st, Err(x)),
        },
        Expr::Box(inner) => {
            let (st1, r) = eval_spec(st, *inner, l);
            match r {
                Ok(v) => (
                    (st1.0, st1.1.push(Some(Slot { value: Some(v), lifetime: Lifetime(0) }))),
                    Ok(Value::Ref(Location::Heap(st1.1.len() as usize), true)),
                ),
                Err(x) => (st1, Err(x)),
            }
        },
        Expr::Borrow(lv, _) => match locate_spec(st, lv) {
            Ok(loc) => (st, Ok(Value::Ref(loc, false))),
            Err(x) => (st, Err(x)),
        },
        Expr::Block(stmts, fin, bl) => {
            let (st1, r1) = eval_stmts_spec(st, stmts@, bl);
            match r1 {
                Err(x) => (st1, Err(x)),
                Ok(_) => {
                    let (st2, r2) = eval_spec(st1, *fin, bl);
                    match r2 {
                        Ok(v) => (close_spec(st2, bl), Ok(v)),
                        Err(x) => (st2, Err(x)),
                    }
                },
            }
        },
        Expr::AssertEq(a, b) => {
            let (st1, r1) = eval_spec(st, *a, l);
            match r1 {
                Err(x) => (st1, Err(x)),
                Ok(v1) => {
                    let (st2, r2) = eval_spec(st1, *b, l);
                    match r2 {
                        Err(x) => (st2, Err(x)),
                        Ok(v2) => match (v1, v2) {
                            (Value::Int(x), Value::Int(y)) => if x == y {
                                (st2, Ok(Value::Unit))
                            } else {
                                (st2, Err(EvalError::AssertFailed(x, y)))
                            },
                            _ => (st2, Err(EvalError::Stuck)),
                        },
                    }
                },
            }
        },
    }
}

/// Executing a statement of the block of lifetime `l`.
pub open spec fn eval_stmt_spec(st: StoreView, s: Stmt, l: Lifetime) -> (StoreView, Result<(), EvalError>)
    decreases s,
{
    match s {
        Stmt::Assign(lv, e) => {
            let (st1, r) = eval_spec(st, e, l);
            match r {
                Ok(v) => {
                    let (st2, w) = write_spec(st1, lv, Some(v));
                    match w {
                        Ok(_) => (st2, Ok(())),
                        Err(x) => (st2, Err(x)),
                    }
                },
                Err(x) => (st1, Err(x)),
            }
        },
        Stmt::LetMut(x, e) => {
            let (st1, r) = eval_spec(st, e, l);
            match r {
                Ok(v) => ((st1.0.insert(x@, Slot { value: Some(v), lifetime: l }), st1.1), Ok(())),
                Err(err) => (st1, Err(err)),
            }
        },
        Stmt::Expr(e) => {
            let (st1, r) = eval_spec(st, e, l);
            match r {
                Ok(_) => (st1, Ok(())),
                Err(x) => (st1, Err(x)),
            }
        },
    }
}

/// Executing statements in order, stopping at the first error.
pub open spec fn eval_stmts_spec(st: StoreView, ss: Seq<Stmt>, l: Lifetime) -> (
    StoreView,
    Result<(), EvalError>,
)
    decreases ss,
{
    if ss.len() == 0 {
        (st, Ok(()))
    } else {
        let (st1, r1) = eval_stmts_spec(st, ss.drop_last(), l);
        match r1 {
            Err(x) => (st1, Err(x)),
            Ok(_) => eval_stmt_spec(st1, ss.last(), l),
        }
    }
}

impl View for Store {
    type V = StoreView;

    open spec fn view(&self) -> StoreView {
        (table_view(self.vars@), self.heap@)
    }
}

impl Store {
    /// Variable names are unique.
    pub open spec fn wf(&self) -> bool {
        keys_unique(self.vars@)
    }

    pub fn new() -> (r: Store)
        ensures
            r.wf(),
            r@.0 == Map::<Seq<char>, Slot>::empty(),
            r@.1 == Seq::<Option<Slot>>::empty(),
    {
        let r = Store { vars: Vec::new(), heap: Vec::new() };
        assert(r@.0 =~= Map::<Seq<char>, Slot>::empty());
        r
    }

    /// The slot at a location.
    pub fn slot_of(&self, loc: &Location) -> (r: Option<&Slot>)
        requires
            self.wf(),
        ensures
            match r {
                Some(s) => slot_at(self@, *loc) == Some(*s),
                None => slot_at(self@, *loc) is None,
            },
    {
        match loc {
            Location::Var(x) => match find(&self.vars, x) {
                Some(i) => Some(&self.vars[i].1),
                None => None,
            },
            Location::Heap(n) => {
                if *n < self.heap.len() {
                    match &self.heap[*n] {
                        Some(s) => Some(s),
                        None => None,
                    }
                } else {
                    None
                }
            },
        }
    }

    /// Replaces the value at an existing location, keeping its lifetime.
    fn set_at(&mut self, loc: &Location, v: Option<Value>)
        requires
            old(self).wf(),
            slot_at(old(self)@, *loc) is Some,
        ensures
            final(self).wf(),
            final(self)@ == set_value(old(self)@, *loc, v),
    {
        match loc {
            Location::Var(x) => {
                if let Some(i) = find(&self.vars, x) {
                    let lifetime = self.vars[i].1.lifetime;
                    put_at(&mut self.vars, i, Slot { value: v, lifetime });
                }
            },
            Location::Heap(n) => {
                let lifetime = match &self.heap[*n] {
                    Some(s) => s.lifetime,
                    None => Lifetime(0),
                };
                self.heap.set(*n, Some(Slot { value: v, lifetime }));
            },
        }
    }

    pub fn locate(&self, lval: &Lval) -> (r: Result<Location, EvalError>)
        requires
            self.wf(),
        ensures
            r == locate_spec(self@, *lval),
    {
        let mut loc = Location::Var(lval.ident.clone());
        let mut n: usize = lval.derefs;
        while n > 0
            invariant
                self.wf(),
                follow(self@, loc, n as nat) == locate_spec(self@, *lval),
            decreases n,
        {
            let next = match self.slot_of(&loc) {
                Some(s) => match &s.value {
                    Some(Value::Ref(next, _)) => next.duplicate(),
                    _ => return Err(EvalError::Stuck),
                },
                None => return Err(EvalError::Stuck),
            };
            loc = next;
            n -= 1;
        }
        Ok(loc)
    }

    pub fn read(&self, lval: &Lval) -> (r: Result<&Slot, EvalError>)
        requires
            self.wf(),
        ensures
            match r {
                Ok(s) => read_spec(self@, *lval) == Ok::<Slot, EvalError>(*s),
                Err(e) => read_spec(self@, *lval) == Err::<Slot, EvalError>(e),
            },
    {
        let loc = self.locate(lval)?;
        match self.slot_of(&loc) {
            Some(s) => Ok(s),
            None => Err(EvalError::Stuck),
        }
    }

    /// Stores `new_val` where `lval` denotes and hands back the value that was there.
    pub fn write(&mut self, lval: &Lval, new_val: Option<Value>) -> (r: Result<Option<Value>, EvalError>)
        requires
            old(self).wf(),
        ensures
            final(self).wf(),
            (final(self)@, r) == write_spec(old(self)@, *lval, new_val),
    {
        let loc = self.locate(lval)?;
        let old_val = match self.slot_of(&loc) {
            Some(s) => match &s.value {
                Some(v) => Some(v.duplicate()),
                None => None,
            },
            None => return Err(EvalError::Stuck),
        };
        self.set_at(&loc, new_val);
        Ok(old_val)
    }

    /// Frees every heap cell that one of the given values owns, and every
    /// cell that a freed cell owns in turn.
    pub fn drop(&mut self, to_remove: Vec<Option<Value>>)
        requires
            old(self).wf(),
        ensures
            final(self).wf(),
            final(self)@.0 == old(self)@.0,
            final(self)@.1 == free_reached(old(self)@.1, |n: int| any_owns(to_remove@, n)),
    {
        let ghost roots = |n: int| any_owns(to_remove@, n);
        let ghost h0 = self.heap@;
        let len = self.heap.len();
        let mut reached: Vec<bool> = Vec::new();
        let mut j: usize = 0;
        while j < len
            invariant
                len == h0.len(),
                j <= len,
                reached@.len() == j,
                forall|q: int| 0 <= q < j ==> !#[trigger] reached@[q],
            decreases len - j,
        {
            reached.push(false);
            j += 1;
        }
        let mut t: usize = 0;
        while t < to_remove.len()
            invariant
                len == h0.len(),
                reached@.len() == len,
                t <= to_remove@.len(),
                forall|q: int|
                    0 <= q < len ==> #[trigger] reached@[q] == exists|u: int| 0 <= u < t && owns(to_remove@[u], q),
            decreases to_remove@.len() - t,
        {
            let ghost r0 = reached@;
            if let Some(Value::Ref(Location::Heap(h), true)) = &to_remove[t] {
                if *h < len {
                    reached.set(*h, true);
                }
            }
            assert forall|q: int| 0 <= q < len implies #[trigger] reached@[q] == exists|u: int|
                0 <= u < t + 1 && owns(to_remove@[u], q) by {
                if owns(to_remove@[t as int], q) {
                    assert(0 <= t < t + 1 && owns(to_remove@[t as int], q));
                } else if exists|u: int| 0 <= u < t + 1 && owns(to_remove@[u], q) {
                    let u = choose|u: int| 0 <= u < t + 1 && owns(to_remove@[u], q);
                    assert(u != t);
                    assert(r0[q]);
                } else {
                    assert(!r0[q]);
                }
            }
            t += 1;
        }
        let mut k: usize = 0;
        while k < len
            invariant
                self.wf(),
                self@.0 == old(self)@.0,
                self.heap@ == h0,
                len == h0.len(),
                reached@.len() == len,
                k <= len,
                roots == (|n: int| any_owns(to_remove@, n)),
                forall|q: int| 0 <= q < len ==> #[trigger] reached@[q] == reach(h0, roots, k as nat, q),
            decreases len - k,
        {
            let mut next: Vec<bool> = Vec::new();
            let mut q: usize = 0;
            while q < len
                invariant
                    reached@.len() == len,
                    q <= len,
                    next@.len() == q,
                    forall|x: int| 0 <= x < q ==> #[trigger] next@[x] == reached@[x],
                decreases len - q,
            {
                next.push(reached[q]);
                q += 1;
            }
            let mut m: usize = 0;
            while m < len
                invariant
                    self.heap@ == h0,
                    len == h0.len(),
                    reached@.len() == len,
                    next@.len() == len,
                    m <= len,
                    forall|x: int|
                        0 <= x < len ==> #[trigger] next@[x] == (reached@[x] || exists|y: int|
                            0 <= y < m && reached@[y] && h0[y] is Some && owns(h0[y]->Some_0.value, x)),
                decreases len - m,
            {
                let ghost n0 = next@;
                if reached[m] {
                    if let Some(s) = &self.heap[m] {
                        if let Some(Value::Ref(Location::Heap(h), true)) = &s.value {
                            if *h < len {
                                next.set(*h, true);
                            }
                        }
                    }
                }
                assert forall|x: int| 0 <= x < len implies #[trigger] next@[x] == (reached@[x] || exists|y: int|
                    0 <= y < m + 1 && reached@[y] && h0[y] is Some && owns(h0[y]->Some_0.value, x)) by {
                    let hit = reached@[m as int] && h0[m as int] is Some && owns(h0[m as int]->Some_0.value, x);
                    if hit {
                        assert(0 <= m < m + 1 && reached@[m as int] && h0[m as int] is Some && owns(
                            h0[m as int]->Some_0.value,
                            x,
                        ));
                    } else if exists|y: int|
                        0 <= y < m + 1 && reached@[y] && h0[y] is Some && owns(h0[y]->Some_0.value, x) {
                        let y = choose|y: int|
                            0 <= y < m + 1 && reached@[y] && h0[y] is Some && owns(h0[y]->Some_0.value, x);
                        assert(y != m);
                        assert(n0[x]);
                    } else {
                        assert(next@[x] == n0[x]);
                    }
                }
                m += 1;
            }
            proof {
                assert forall|x: int| 0 <= x < len implies #[trigger] next@[x] == reach(h0, roots, (k + 1) as nat, x) by {
                    lemma_reach_step(h0, roots, k as nat, x);
                    if exists|y: int| 0 <= y < len && reached@[y] && h0[y] is Some && owns(h0[y]->Some_0.value, x) {
                        let y = choose|y: int| 0 <= y < len && reached@[y] && h0[y] is Some && owns(h0[y]->Some_0.value, x);
                        assert(reach(h0, roots, k as nat, y));
                    }
                    if exists|y: int|
                        0 <= y < h0.len() && #[trigger] reach(h0, roots, k as nat, y) && h0[y] is Some && owns(
                            h0[y]->Some_0.value,
                            x,
                        ) {
                        let y = choose|y: int|
                            0 <= y < h0.len() && #[trigger] reach(h0, roots, k as nat, y) && h0[y] is Some && owns(
                                h0[y]->Some_0.value,
                                x,
                            );
                        assert(reached@[y]);
                    }
                }
            }
            reached = next;
            k += 1;
        }
        let mut q: usize = 0;
        while q < len
            invariant
                self.wf(),
                self@.0 == old(self)@.0,
                len == h0.len(),
                self.heap@.len() == len,
                reached@.len() == len,
                q <= len,
                roots == (|n: int| any_owns(to_remove@, n)),
                forall|x: int| 0 <= x < len ==> #[trigger] reached@[x] == reach(h0, roots, len as nat, x),
                forall|x: int|
                    0 <= x < len ==> #[trigger] self.heap@[x] == if x < q && reached@[x] {
                        None
                    } else {
                        h0[x]
                    },
            decreases len - q,
        {
            if reached[q] {
                self.heap.set(q, None);
            }
            q += 1;
        }
        assert(self.heap@ =~= free_reached(h0, roots));
    }

    /// Ends the block of lifetime `l`: its slots go, and so does every heap
    /// cell that one of them owned.
    pub fn close(&mut self, l: Lifetime)
        requires
            old(self).wf(),
        ensures
            final(self).wf(),
            final(self)@ == close_spec(old(self)@, l),
    {
        let ghost st0 = self@;
        let gone = drop_scope(&mut self.vars, l);
        let mut to_remove: Vec<Option<Value>> = Vec::new();
        let mut t: usize = 0;
        while t < gone.len()
            invariant
                t <= gone@.len(),
                to_remove@.len() == t,
                forall|u: int| 0 <= u < t ==> #[trigger] to_remove@[u] == gone@[u].value,
            decreases gone@.len() - t,
        {
            to_remove.push(copy_value(&gone[t].value));
            t += 1;
        }
        let ghost from_vars = to_remove@;
        proof {
            assert forall|n: int|
                #[trigger] any_owns(from_vars, n) <==> var_owns(st0.0, l, n) by {
                if exists|u: int| 0 <= u < from_vars.len() && owns(from_vars[u], n) {
                    let u = choose|u: int| 0 <= u < from_vars.len() && owns(from_vars[u], n);
                    assert(gone@.contains(gone@[u]));
                    let k = choose|k: Seq<char>|
                        st0.0.contains_key(k) && #[trigger] st0.0[k] == gone@[u] && gone@[u].lifetime == l;
                    assert(st0.0[k].lifetime == l);
                }
                if exists|k: Seq<char>|
                    st0.0.contains_key(k) && #[trigger] st0.0[k].lifetime == l && owns(st0.0[k].value, n) {
                    let k = choose|k: Seq<char>|
                        st0.0.contains_key(k) && #[trigger] st0.0[k].lifetime == l && owns(st0.0[k].value, n);
                    assert(st0.0.contains_key(k) && st0.0[k] == st0.0[k] && st0.0[k].lifetime == l);
                    assert(gone@.contains(st0.0[k]));
                    let u = choose|u: int| 0 <= u < gone@.len() && gone@[u] == st0.0[k];
                    assert(owns(from_vars[u], n));
                }
            }
        }
        let mut i: usize = 0;
        while i < self.heap.len()
            invariant
                self.wf(),
                self@.0 == drop_by(st0.0, l),
                self@.1.len() == st0.1.len(),
                i <= st0.1.len(),
                to_remove@.len() >= from_vars.len(),
                forall|u: int| 0 <= u < from_vars.len() ==> #[trigger] to_remove@[u] == from_vars[u],
                forall|j: int|
                    0 <= j < st0.1.len() ==> #[trigger] self@.1[j] == if j < i && heap_scoped(st0.1, j, l) {
                        None
                    } else {
                        st0.1[j]
                    },
                forall|u: int|
                    from_vars.len() <= u < to_remove@.len() ==> scoped_value(st0.1, l, i as int, #[trigger] to_remove@[u]),
                forall|j: int|
                    0 <= j < i && #[trigger] heap_scoped(st0.1, j, l) ==> exists|u: int|
                        from_vars.len() <= u < to_remove@.len() && to_remove@[u] == st0.1[j]->Some_0.value,
            decreases st0.1.len() - i,
        {
            let ghost tr0 = to_remove@;
            let ghost h0 = self@.1;
            let scoped = match &self.heap[i] {
                Some(s) => s.lifetime == l,
                None => false,
            };
            if scoped {
                let v = match &self.heap[i] {
                    Some(s) => copy_value(&s.value),
                    None => None,
                };
                to_remove.push(v);
                self.heap.set(i, None);
                proof {
                    assert(heap_scoped(st0.1, i as int, l));
                    assert(h0[i as int] == st0.1[i as int]);
                    assert forall|u: int|
                        from_vars.len() <= u < to_remove@.len() implies scoped_value(st0.1, l, i + 1, #[trigger] to_remove@[u]) by {
                        if u < tr0.len() {
                            assert(tr0[u] == to_remove@[u]);
                            assert(scoped_value(st0.1, l, i as int, tr0[u]));
                            let j = choose|j: int| 0 <= j < i && heap_scoped(st0.1, j, l) && st0.1[j]->Some_0.value == tr0[u];
                            assert(0 <= j < i + 1 && heap_scoped(st0.1, j, l) && st0.1[j]->Some_0.value == to_remove@[u]);
                        } else {
                            assert(0 <= i < i + 1 && heap_scoped(st0.1, i as int, l) && st0.1[i as int]->Some_0.value == to_remove@[u]);
                        }
                    }
                    assert forall|j: int|
                        0 <= j < i + 1 && #[trigger] heap_scoped(st0.1, j, l) implies exists|u: int|
                            from_vars.len() <= u < to_remove@.len() && to_remove@[u] == st0.1[j]->Some_0.value by {
                        if j < i {
                            let u = choose|u: int|
                                from_vars.len() <= u < tr0.len() && tr0[u] == st0.1[j]->Some_0.value;
                            assert(to_remove@[u] == tr0[u]);
                        } else {
                            assert(to_remove@[tr0.len() as int] == st0.1[j]->Some_0.value);
                        }
                    }
                }
            } else {
                proof {
                    assert(!heap_scoped(st0.1, i as int, l));
                    assert forall|u: int|
                        from_vars.len() <= u < to_remove@.len() implies scoped_value(st0.1, l, i + 1, #[trigger] to_remove@[u]) by {
                        assert(scoped_value(st0.1, l, i as int, to_remove@[u]));
                        let j = choose|j: int| 0 <= j < i && heap_scoped(st0.1, j, l) && st0.1[j]->Some_0.value == to_remove@[u];
                        assert(0 <= j < i + 1 && heap_scoped(st0.1, j, l) && st0.1[j]->Some_0.value == to_remove@[u]);
                    }
                }
            }
            i += 1;
        }
        let ghost cleared = self@.1;
        let ghost tr = to_remove@;
        proof {
            assert forall|n: int| #[trigger] any_owns(tr, n) == freed_by(st0, l, n) by {
                if any_owns(tr, n) {
                    let t = choose|t: int| 0 <= t < tr.len() && owns(tr[t], n);
                    if t < from_vars.len() {
                        assert(owns(from_vars[t], n));
                        assert(any_owns(from_vars, n));
                    } else {
                        assert(scoped_value(st0.1, l, i as int, tr[t]));
                        let j = choose|j: int| 0 <= j < i && heap_scoped(st0.1, j, l) && st0.1[j]->Some_0.value == tr[t];
                        assert(heap_scoped(st0.1, j, l) && owns(st0.1[j]->Some_0.value, n));
                    }
                } else {
                    if var_owns(st0.0, l, n) {
                        assert(any_owns(from_vars, n));
                        let u = choose|u: int| 0 <= u < from_vars.len() && owns(from_vars[u], n);
                        assert(owns(tr[u], n));
                    }
                    if exists|j: int|
                        0 <= j < st0.1.len() && #[trigger] heap_scoped(st0.1, j, l) && owns(st0.1[j]->Some_0.value, n) {
                        let j = choose|j: int|
                            0 <= j < st0.1.len() && #[trigger] heap_scoped(st0.1, j, l) && owns(st0.1[j]->Some_0.value, n);
                        let u = choose|u: int|
                            from_vars.len() <= u < tr.len() && tr[u] == st0.1[j]->Some_0.value;
                        assert(owns(tr[u], n));
                    }
                }
            }
            assert((|n: int| any_owns(tr, n)) =~= (|n: int| freed_by(st0, l, n)));
            assert(cleared =~= clear_scoped(st0.1, l));
        }
        self.drop(to_remove);
    }
}

/// A copy of a slot's contents.
fn copy_value(v: &Option<Value>) -> (r: Option<Value>)
    ensures
        r == *v,
{
    match v {
        Some(x) => Some(x.duplicate()),
        None => None,
    }
}

/// Once a prefix of the statements fails, the whole sequence fails the same way.
proof fn lemma_stmts_stop(st: StoreView, ss: Seq<Stmt>, l: Lifetime, i: int)
    requires
        0 <= i <= ss.len(),
        eval_stmts_spec(st, ss.take(i), l).1 is Err,
    ensures
        eval_stmts_spec(st, ss, l) == eval_stmts_spec(st, ss.take(i), l),
    decreases ss.len() - i,
{
    if i < ss.len() {
        assert(ss.take(i + 1).drop_last() =~= ss.take(i));
        lemma_stmts_stop(st, ss, l, i + 1);
    } else {
        assert(ss.take(i) =~= ss);
    }
}

impl Context {
    pub fn new() -> (r: Context)
        ensures
            r.store.wf(),
            r.store@.0 == Map::<Seq<char>, Slot>::empty(),
            r.store@.1 == Seq::<Option<Slot>>::empty(),
    {
        Context { store: Store::new() }
    }

    /// Evaluates an expression in the block of lifetime `l`.
    pub fn eval_expr(&mut self, expr: &Expr, l: Lifetime) -> (r: Result<Value, EvalError>)
        requires
            old(self).store.wf(),
        ensures
            final(self).store.wf(),
            (final(self).store@, r) == eval_spec(old(self).store@, *expr, l),
        decreases *expr,
    {
        match expr {
            Expr::Unit => Ok(Value::Unit),
            Expr::Int(n) => Ok(Value::Int(*n)),
            Expr::Lval(lval, copyable) => {
                let loc = self.store.locate(lval)?;
                let v = match self.store.slot_of(&loc) {
                    Some(s) => match &s.value {
                        Some(v) => v.duplicate(),
                        None => return Err(EvalError::Stuck),
                    },
                    None => return Err(EvalError::Stuck),
                };
                if !*copyable {
                    self.store.set_at(&loc, None);
                }
                Ok(v)
            },
            Expr::Box(e) => {
                let v = self.eval_expr(&**e, l)?;
                let fresh = self.store.heap.len();
                self.store.heap.push(Some(Slot { value: Some(v), lifetime: Lifetime::global() }));
                Ok(Value::Ref(Location::Heap(fresh), true))
            },
            Expr::Borrow(lval, _is_mut) => {
                let loc = self.store.locate(lval)?;
                Ok(Value::Ref(loc, false))
            },
            Expr::Block(stmts, final_expr, block_lifetime) => {
                let bl = *block_lifetime;
                self.eval_block(stmts, bl)?;
                let result = self.eval_expr(&**final_expr, bl)?;
                self.store.close(bl);
                Ok(result)
            },
            Expr::AssertEq(left, right) => {
                let v1 = self.eval_expr(&**left, l)?;
                let v2 = self.eval_expr(&**right, l)?;
                match (v1, v2) {
                    (Value::Int(a), Value::Int(b)) => {
                        if a == b {
                            Ok(Value::Unit)
                        } else {
                            Err(EvalError::AssertFailed(a, b))
                        }
                    },
                    _ => Err(EvalError::Stuck),
                }
            },
        }
    }

    /// Executes the statements of a block in order, stopping at the first error.
    fn eval_block(&mut self, stmts: &Vec<Stmt>, l: Lifetime) -> (r: Result<(), EvalError>)
        requires
            old(self).store.wf(),
        ensures
            final(self).store.wf(),
            (final(self).store@, r) == eval_stmts_spec(old(self).store@, stmts@, l),
        decreases stmts@,
    {
        let ghost st0 = self.store@;
        let mut i: usize = 0;
        while i < stmts.len()
            invariant
                self.store.wf(),
                st0 == old(self).store@,
                i <= stmts@.len(),
                (self.store@, Ok::<(), EvalError>(())) == eval_stmts_spec(st0, stmts@.take(i as int), l),
            decreases stmts@.len() - i,
        {
            assert(stmts@.take(i as int + 1).drop_last() =~= stmts@.take(i as int));
            assert(stmts@.take(i as int + 1).last() == stmts@[i as int]);
            assert(decreases_to!(stmts@ => stmts@[i as int]));
            let r = self.eval_stmt(&stmts[i], l);
            if r.is_err() {
                proof {
                    lemma_stmts_stop(st0, stmts@, l, i as int + 1);
                }
                return r;
            }
            i += 1;
        }
        assert(stmts@.take(i as int) =~= stmts@);
        Ok(())
    }

    /// Executes a statement of the block of lifetime `l`.
    pub fn eval_stmt(&mut self, stmt: &Stmt, l: Lifetime) -> (r: Result<(), EvalError>)
        requires
            old(self).store.wf(),
        ensures
            final(self).store.wf(),
            (final(self).store@, r) == eval_stmt_spec(old(self).store@, *stmt, l),
        decreases *stmt,
    {
        match stmt {
            Stmt::Assign(lval, expr) => {
                let val = self.eval_expr(expr, l)?;
                self.store.write(lval, Some(val))?;
                Ok(())
            },
            Stmt::LetMut(ident, expr) => {
                let val = self.eval_expr(expr, l)?;
                bind(&mut self.store.vars, ident.clone(), Slot { value: Some(val), lifetime: l });
                Ok(())
            },
            Stmt::Expr(expr) => {
                self.eval_expr(expr, l)?;
                Ok(())
            },
        }
    }
}

/// A heap cell allocated in a block and bound to a variable of that block is
/// freed when the block ends.
pub proof fn lemma_block_frees_local_box(
    st: StoreView,
    e: Expr,
    stmts: Vec<Stmt>,
    b: String,
    k: i32,
    bl: Lifetime,
    l: Lifetime,
)
    requires
        st.1.len() < usize::MAX,
        bl != Lifetime(0),
        stmts@ == seq![Stmt::LetMut(b, Expr::Box(Box::new(Expr::Int(k))))],
        e == Expr::Block(stmts, Box::new(Expr::Unit), bl),
    ensures
        eval_spec(st, e, l).1 == Ok::<Value, EvalError>(Value::Unit),
        eval_spec(st, e, l).0.1.len() == st.1.len() + 1,
        eval_spec(st, e, l).0.1[st.1.len() as int] is None,
{
    let n = st.1.len() as int;
    let owned = Value::Ref(Location::Heap(n as usize), true);
    let st1 = (
        st.0.insert(b@, Slot { value: Some(owned), lifetime: bl }),
        st.1.push(Some(Slot { value: Some(Value::Int(k)), lifetime: Lifetime(0) })),
    );
    let bx = Expr::Box(Box::new(Expr::Int(k)));
    assert(stmts@.drop_last() =~= Seq::<Stmt>::empty());
    assert(eval_stmts_spec(st, stmts@.drop_last(), bl) == (st, Ok::<(), EvalError>(())));
    assert(eval_spec(st, Expr::Int(k), bl) == (st, Ok::<Value, EvalError>(Value::Int(k))));
    assert(eval_spec(st, bx, bl) == ((st.0, st1.1), Ok::<Value, EvalError>(owned)));
    assert(stmts@.last() == Stmt::LetMut(b, bx));
    assert(eval_stmt_spec(st, Stmt::LetMut(b, bx), bl) == (st1, Ok::<(), EvalError>(())));
    assert(eval_stmts_spec(st, stmts@, bl) == (st1, Ok::<(), EvalError>(())));
    assert(eval_spec(st1, Expr::Unit, bl) == (st1, Ok::<Value, EvalError>(Value::Unit)));
    assert(st1.0.contains_key(b@) && st1.0[b@].lifetime == bl && owns(st1.0[b@].value, n));
    assert(var_owns(st1.0, bl, n));
    assert(freed_by(st1, bl, n));
    let h = clear_scoped(st1.1, bl);
    lemma_reach_root(h, |x: int| freed_by(st1, bl, x), h.len() as nat, n);
}

/// A heap cell allocated in a block whose owning reference is moved to a
/// variable outside the block survives the end of the block, still owned by
/// that variable.
#[verifier::rlimit(60)]
pub proof fn lemma_block_keeps_escaped_box(
    st: StoreView,
    e: Expr,
    stmts: Vec<Stmt>,
    b: String,
    o: Lval,
    k: i32,
    bl: Lifetime,
    l: Lifetime,
)
    requires
        st.1.len() < usize::MAX,
        bl != Lifetime(0),
        o.derefs == 0,
        o.ident@ != b@,
        st.0.contains_key(o.ident@),
        forall|x: Seq<char>| #[trigger] st.0.contains_key(x) ==> st.0[x].lifetime != bl,
        forall|i: int| 0 <= i < st.1.len() ==> !#[trigger] heap_scoped(st.1, i, bl),
        forall|i: int|
            0 <= i < st.1.len() && #[trigger] st.1[i] is Some ==> !owns(st.1[i]->Some_0.value, st.1.len() as int),
        stmts@ == seq![
            Stmt::LetMut(b, Expr::Box(Box::new(Expr::Int(k)))),
            Stmt::Assign(o, Expr::Lval((Lval { ident: b, derefs: 0 }), false)),
        ],
        e == Expr::Block(stmts, Box::new(Expr::Unit), bl),
    ensures
        eval_spec(st, e, l).1 == Ok::<Value, EvalError>(Value::Unit),
        eval_spec(st, e, l).0.1.len() == st.1.len() + 1,
        eval_spec(st, e, l).0.1[st.1.len() as int] == Some(
            (Slot { value: Some(Value::Int(k)), lifetime: Lifetime(0) }),
        ),
        eval_spec(st, e, l).0.0[o.ident@].value == Some(
            Value::Ref(Location::Heap(st.1.len() as usize), true),
        ),
{
    let n = st.1.len() as int;
    let owned = Value::Ref(Location::Heap(n as usize), true);
    let cell = Some(Slot { value: Some(Value::Int(k)), lifetime: Lifetime(0) });
    let st1 = (st.0.insert(b@, Slot { value: Some(owned), lifetime: bl }), st.1.push(cell));
    let bx = Expr::Box(Box::new(Expr::Int(k)));
    let s0 = stmts@.drop_last();
    assert(s0 =~= seq![Stmt::LetMut(b, bx)]);
    assert(s0.drop_last() =~= Seq::<Stmt>::empty());
    assert(eval_stmts_spec(st, s0.drop_last(), bl) == (st, Ok::<(), EvalError>(())));
    assert(eval_spec(st, Expr::Int(k), bl) == (st, Ok::<Value, EvalError>(Value::Int(k))));
    assert(eval_spec(st, bx, bl) == ((st.0, st1.1), Ok::<Value, EvalError>(owned)));
    assert(s0.last() == Stmt::LetMut(b, bx));
    assert(eval_stmt_spec(st, Stmt::LetMut(b, bx), bl) == (st1, Ok::<(), EvalError>(())));
    assert(eval_stmts_spec(st, s0, bl) == (st1, Ok::<(), EvalError>(())));
    let st2 = (st1.0.insert(b@, Slot { value: None, lifetime: bl }), st1.1);
    let lo = st.0[o.ident@].lifetime;
    let st3 = (st2.0.insert(o.ident@, Slot { value: Some(owned), lifetime: lo }), st2.1);
    let use_b = Expr::Lval((Lval { ident: b, derefs: 0 }), false);
    assert(read_spec(st1, Lval { ident: b, derefs: 0 }) == Ok::<Slot, EvalError>(st1.0[b@]));
    assert(eval_spec(st1, use_b, bl) == (st2, Ok::<Value, EvalError>(owned)));
    assert(st2.0.contains_key(o.ident@));
    assert(locate_spec(st2, o) == Ok::<Location, EvalError>(Location::Var(o.ident)));
    assert(st2.0[o.ident@] == st.0[o.ident@]);
    assert(write_spec(st2, o, Some(owned)).0 == st3);
    assert(stmts@.last() == Stmt::Assign(o, use_b));
    assert(eval_stmt_spec(st1, Stmt::Assign(o, use_b), bl) == (st3, Ok::<(), EvalError>(())));
    assert(eval_stmts_spec(st, stmts@, bl) == (st3, Ok::<(), EvalError>(())));
    assert(eval_spec(st3, Expr::Unit, bl) == (st3, Ok::<Value, EvalError>(Value::Unit)));
    assert(st3.0.contains_key(o.ident@) && st3.0[o.ident@].lifetime != bl);
    assert(!var_owns(st3.0, bl, n)) by {
        if var_owns(st3.0, bl, n) {
            let x = choose|x: Seq<char>|
                st3.0.contains_key(x) && #[trigger] st3.0[x].lifetime == bl && owns(st3.0[x].value, n);
            if x != b@ && x != o.ident@ {
                assert(st.0.contains_key(x));
            }
        }
    }
    assert forall|i: int| 0 <= i < st3.1.len() implies !#[trigger] heap_scoped(st3.1, i, bl) by {
        if i < n {
            assert(st3.1[i] == st.1[i]);
            assert(!heap_scoped(st.1, i, bl));
        } else {
            assert(st3.1[i] == cell);
        }
    }
    assert(!freed_by(st3, bl, n));
    assert(!heap_scoped(st3.1, n, bl));
    let h = clear_scoped(st3.1, bl);
    assert(h =~= st3.1);
    assert forall|m: int| 0 <= m < h.len() && #[trigger] h[m] is Some implies !owns(h[m]->Some_0.value, n) by {
        if m < n {
            assert(h[m] == st.1[m]);
        } else {
            assert(h[m] == cell);
        }
    }
    lemma_reach_unowned(h, |x: int| freed_by(st3, bl, x), h.len() as nat, n);
}

} // verus!
