use salt::eval::{Context, EvalError, Location, Value};
use salt::parser::{Error as ParseError, Parser};
use salt::types::{Error as TypeError, Type, TypeContext};
use salt::utils::{Expr, Lifetime, Lval, Stmt};

fn parse(src: &str) -> Expr {
    Parser::new(src).parse().expect("parses")
}

fn check(src: &str) -> (Expr, Result<Type, TypeError>) {
    let mut e = parse(src);
    let r = TypeContext::new().type_expr(&mut e);
    (e, r)
}

fn run(src: &str) -> Result<Value, EvalError> {
    let (e, r) = check(src);
    assert!(r.is_ok(), "type error: {:?}", r);
    Context::new().eval_expr(&e, Lifetime::global())
}

#[test]
fn borrow_then_read_runs() {
    let src = "fn main() { let mut x = 1; let mut y = &x; assert_eq!(x, 1); }";
    let (_, r) = check(src);
    assert_eq!(r, Ok(Type::Unit));
    assert_eq!(run(src), Ok(Value::Unit));
}

#[test]
fn read_after_box_move_is_rejected() {
    let (_, r) = check("fn main() { let mut x = Box::new(1); let mut y = x; assert_eq!(x, 1); }");
    assert_eq!(r, Err(TypeError::InvalidMove));
}

#[test]
fn write_through_shared_ref_is_rejected() {
    let (_, r) = check("fn main() { let mut x = 1; let mut r = &x; *r = 2; }");
    assert_eq!(r, Err(TypeError::InvalidWrite));
}

#[test]
fn write_through_exclusive_ref_passes() {
    let src = "fn main() { let mut x = 1; let mut r = &mut x; *r = 2; assert_eq!(x, 2); }";
    let (_, r) = check(src);
    assert_eq!(r, Ok(Type::Unit));
    assert_eq!(run(src), Ok(Value::Unit));
}

#[test]
fn borrow_after_move_is_rejected() {
    let (_, r) = check("fn main() { let mut x = Box::new(1); let mut y = x; let mut z = &x; }");
    assert_eq!(r, Err(TypeError::InvalidMove));
}

#[test]
fn moving_a_reference_moves_it() {
    let (_, r) = check("fn main() { let mut x = 1; let mut r = &x; let mut s = r; let mut t = r; }");
    assert_eq!(r, Err(TypeError::InvalidMove));
}

#[test]
fn int_used_twice_checks() {
    let src = "fn main() { let mut x = 1; assert_eq!(x, x); }";
    let (e, r) = check(src);
    assert_eq!(r, Ok(Type::Unit));
    assert_eq!(run(src), Ok(Value::Unit));
    // both uses of x are marked as copies
    match e {
        Expr::Block(stmts, _, _) => match &stmts[1] {
            Stmt::Expr(Expr::AssertEq(a, b)) => {
                assert_eq!(**a, Expr::Lval(Lval::var("x"), true));
                assert_eq!(**b, Expr::Lval(Lval::var("x"), true));
            }
            other => panic!("unexpected statement {:?}", other),
        },
        other => panic!("unexpected expression {:?}", other),
    }
}

#[test]
fn box_use_is_marked_as_move() {
    let (e, r) = check("fn main() { let mut x = Box::new(1); let mut y = x; }");
    assert_eq!(r, Ok(Type::Unit));
    match e {
        Expr::Block(stmts, _, _) => {
            assert_eq!(stmts[1], Stmt::LetMut("y".to_string(), Expr::Lval(Lval::var("x"), false)))
        }
        other => panic!("unexpected expression {:?}", other),
    }
}

#[test]
fn unbound_variable_is_reported() {
    let (_, r) = check("fn main() { let mut x = y; }");
    assert_eq!(r, Err(TypeError::UnboundVar("y".to_string())));
}

#[test]
fn assert_on_boxes_is_a_mismatch() {
    let (_, r) = check("fn main() { let mut x = Box::new(1); assert_eq!(x, 1); }");
    assert_eq!(r, Err(TypeError::Mismatch));
}

#[test]
fn write_to_moved_slot_is_rejected() {
    let (_, r) = check("fn main() { let mut x = Box::new(1); let mut y = x; x = Box::new(2); }");
    assert_eq!(r, Err(TypeError::InvalidWrite));
}

#[test]
fn block_variables_go_out_of_scope() {
    let (_, r) = check("fn main() { { let mut x = 1; }; let mut y = x; }");
    assert_eq!(r, Err(TypeError::UnboundVar("x".to_string())));
}

#[test]
fn failed_assertion_stops_evaluation() {
    assert_eq!(run("fn main() { let mut x = 1; assert_eq!(x, 2); }"), Err(EvalError::AssertFailed(1, 2)));
}

#[test]
fn local_box_is_freed_at_block_end() {
    // { let mut b = Box::new(5); } evaluated inside the global block
    let inner = Expr::Block(
        vec![Stmt::LetMut("b".to_string(), Expr::Box(Box::new(Expr::Int(5))))],
        Box::new(Expr::Unit),
        Lifetime(7),
    );
    let mut ctx = Context::new();
    assert_eq!(ctx.eval_expr(&inner, Lifetime::global()), Ok(Value::Unit));
    assert_eq!(ctx.store.heap.len(), 1);
    assert!(ctx.store.heap[0].is_none());
    assert!(ctx.store.vars.is_empty());
}

#[test]
fn escaped_box_survives_block_end() {
    let mut ctx = Context::new();
    ctx.eval_stmt(&Stmt::LetMut("o".to_string(), Expr::Int(0)), Lifetime(1)).unwrap();
    let inner = Expr::Block(
        vec![
            Stmt::LetMut("b".to_string(), Expr::Box(Box::new(Expr::Int(5)))),
            Stmt::Assign(Lval::var("o"), Expr::Lval(Lval::var("b"), false)),
        ],
        Box::new(Expr::Unit),
        Lifetime(2),
    );
    assert_eq!(ctx.eval_expr(&inner, Lifetime(1)), Ok(Value::Unit));
    let cell = ctx.store.heap[0].as_ref().expect("still allocated");
    assert_eq!(cell.value, Some(Value::Int(5)));
    let o = ctx.store.read(&Lval::var("o")).unwrap();
    assert_eq!(o.value, Some(Value::Ref(Location::Heap(0), true)));
    // the owner reads the cell through one dereference
    let through = ctx.store.read(&Lval::new("o", 1)).unwrap();
    assert_eq!(through.value, Some(Value::Int(5)));
}

#[test]
fn borrowed_reference_does_not_free() {
    let mut ctx = Context::new();
    ctx.eval_stmt(&Stmt::LetMut("x".to_string(), Expr::Box(Box::new(Expr::Int(3)))), Lifetime(1))
        .unwrap();
    let inner = Expr::Block(
        vec![Stmt::LetMut("r".to_string(), Expr::Borrow(Lval::new("x", 1), false))],
        Box::new(Expr::Unit),
        Lifetime(2),
    );
    assert_eq!(ctx.eval_expr(&inner, Lifetime(1)), Ok(Value::Unit));
    assert!(ctx.store.heap[0].is_some());
}

#[test]
fn heap_cells_get_fresh_indices() {
    let src = "fn main() { let mut a = Box::new(1); let mut b = Box::new(2); }";
    let (e, _) = check(src);
    let mut ctx = Context::new();
    assert_eq!(ctx.eval_expr(&e, Lifetime::global()), Ok(Value::Unit));
    assert_eq!(ctx.store.heap.len(), 2);
    assert!(ctx.store.heap.iter().all(|c| c.is_none()));
}

#[test]
fn nested_box_reads_through_two_derefs() {
    let mut ctx = Context::new();
    ctx.eval_stmt(
        &Stmt::LetMut("x".to_string(), Expr::Box(Box::new(Expr::Box(Box::new(Expr::Int(9)))))),
        Lifetime(1),
    )
    .unwrap();
    assert_eq!(ctx.store.read(&Lval::new("x", 2)).unwrap().value, Some(Value::Int(9)));
    assert_eq!(ctx.store.locate(&Lval::new("x", 2)), Ok(Location::Heap(0)));
    assert_eq!(ctx.store.locate(&Lval::new("x", 1)), Ok(Location::Heap(1)));
}

#[test]
fn reading_through_an_int_is_stuck() {
    let mut ctx = Context::new();
    ctx.eval_stmt(&Stmt::LetMut("x".to_string(), Expr::Int(1)), Lifetime(1)).unwrap();
    assert_eq!(ctx.store.locate(&Lval::new("x", 1)), Err(EvalError::Stuck));
}

#[test]
fn store_write_returns_old_value() {
    let mut ctx = Context::new();
    ctx.eval_stmt(&Stmt::LetMut("x".to_string(), Expr::Int(1)), Lifetime(1)).unwrap();
    let old = ctx.store.write(&Lval::var("x"), Some(Value::Int(4)));
    assert_eq!(old, Ok(Some(Value::Int(1))));
    assert_eq!(ctx.store.read(&Lval::var("x")).unwrap().value, Some(Value::Int(4)));
    assert_eq!(ctx.store.write(&Lval::var("nope"), None), Err(EvalError::Stuck));
}

#[test]
fn store_drop_frees_owned_cells_only() {
    let mut ctx = Context::new();
    ctx.eval_stmt(&Stmt::LetMut("a".to_string(), Expr::Box(Box::new(Expr::Int(1)))), Lifetime(1))
        .unwrap();
    ctx.eval_stmt(&Stmt::LetMut("b".to_string(), Expr::Box(Box::new(Expr::Int(2)))), Lifetime(1))
        .unwrap();
    ctx.store.drop(vec![
        Some(Value::Ref(Location::Heap(1), false)),
        Some(Value::Ref(Location::Heap(0), true)),
        None,
    ]);
    assert!(ctx.store.heap[0].is_none());
    assert!(ctx.store.heap[1].is_some());
}

#[test]
fn test_eval_block() {
    let mut ctx = Context::new();
    let lifetime = Lifetime::global();
    let block_expr = Expr::Block(
        vec![
            Stmt::LetMut("x".to_string(), Expr::Int(1)),
            Stmt::LetMut("y".to_string(), Expr::Borrow(Lval { ident: "x".to_string(), derefs: 0 }, false)),
        ],
        Box::new(Expr::Lval(Lval { ident: "x".to_string(), derefs: 0 }, true)),
        lifetime,
    );
    let result = ctx.eval_expr(&block_expr, lifetime);
    assert_eq!(result, Ok(Value::Int(1)));
    assert!(ctx.store.vars.is_empty());
}

#[test]
fn test_env_lookup() {
    let mut env = salt::types::Env::default();
    env.insert("x", Type::Int, Lifetime(99));
    let slot = env.type_lval(&Lval::new("x", 0)).unwrap();
    assert_eq!(slot.tipe, Type::Int);
    assert_eq!(slot.lifetime, Lifetime(99));
    assert_eq!(env.type_lval(&Lval::new("z", 0)).unwrap_err(), TypeError::UnboundVar("z".to_string()));
}

#[test]
fn env_write_walks_exclusive_references() {
    let mut env = salt::types::Env::default();
    env.insert("x", Type::Int, Lifetime(1));
    env.insert("r", Type::Ref(Lval::var("x"), true), Lifetime(1));
    env.insert("s", Type::Ref(Lval::var("x"), false), Lifetime(1));
    assert_eq!(env.write(&Lval::new("r", 1), Type::Unit), Ok(()));
    assert_eq!(env.type_lval(&Lval::var("x")).unwrap().tipe, Type::Unit);
    assert_eq!(env.write(&Lval::new("s", 1), Type::Int), Err(TypeError::InvalidWrite));
    assert_eq!(env.write(&Lval::new("x", 1), Type::Int), Err(TypeError::InvalidWrite));
    assert!(env.muut(&Lval::var("r")));
    assert!(!env.muut(&Lval::var("s")));
    assert!(env.write_prohibited(&Lval::var("s")));
    assert!(!env.write_prohibited(&Lval::var("r")));
}

#[test]
fn env_move_leaves_tombstone() {
    let mut env = salt::types::Env::default();
    env.insert("b", Type::Box(Box::new(Type::Int)), Lifetime(1));
    assert_eq!(env.moove(&Lval::var("b")), Ok(()));
    assert!(env.read_prohibited(&Lval::var("b")));
    assert_eq!(env.contained(&"b".to_string()), Some(&Type::Box(Box::new(Type::Int))));
    assert_eq!(env.moove(&Lval::var("b")), Err(TypeError::InvalidMove));
    assert_eq!(env.moove(&Lval::var("q")), Err(TypeError::UnboundVar("q".to_string())));
}

#[test]
fn env_drop_removes_one_lifetime() {
    let mut env = salt::types::Env::default();
    env.insert("a", Type::Int, Lifetime(1));
    env.insert("b", Type::Int, Lifetime(2));
    env.insert("c", Type::Unit, Lifetime(2));
    env.drop(Lifetime(2));
    assert!(env.type_lval(&Lval::var("a")).is_ok());
    assert!(env.type_lval(&Lval::var("b")).is_err());
    assert!(env.type_lval(&Lval::var("c")).is_err());
    // rebinding overwrites
    env.insert("a", Type::Unit, Lifetime(3));
    assert_eq!(env.0.len(), 1);
    assert_eq!(env.type_lval(&Lval::var("a")).unwrap().lifetime, Lifetime(3));
}

#[test]
fn compatible_types() {
    let env = salt::types::Env::default();
    let boxed = Type::Box(Box::new(Type::Int));
    assert!(env.compatible(&boxed, &Type::Box(Box::new(Type::Int))));
    assert!(!env.compatible(&boxed, &Type::Box(Box::new(Type::Unit))));
    assert!(env.compatible(&Type::Ref(Lval::var("a"), true), &Type::Ref(Lval::var("b"), true)));
    assert!(!env.compatible(&Type::Ref(Lval::var("a"), true), &Type::Ref(Lval::var("a"), false)));
    assert!(!env.compatible(&Type::Int, &Type::Unit));
}

#[test]
fn escaping_reference_is_caught_only_when_followed() {
    // lifetimes are compared for equality only, so the escape itself checks
    let (_, r) = check("fn main() { let mut o = 1; let mut r = &mut o; { let mut x = 5; r = &mut x; }; }");
    assert_eq!(r, Ok(Type::Unit));
    let (_, r) = check(
        "fn main() { let mut o = 1; let mut r = &mut o; { let mut x = 5; r = &mut x; }; assert_eq!(*r, 5); }",
    );
    assert_eq!(r, Err(TypeError::UnboundVar("x".to_string())));
}

#[test]
fn shared_reference_cannot_be_rebound() {
    let (_, r) = check("fn main() { let mut o = 1; let mut p = 2; let mut r = &o; r = &p; }");
    assert_eq!(r, Err(TypeError::InvalidWrite));
}

#[test]
fn move_out_of_box_through_deref() {
    let src = "fn main() { let mut b = Box::new(Box::new(1)); let mut c = &mut b; let mut d = *c; }";
    let (_, r) = check(src);
    assert_eq!(r, Ok(Type::Unit));
}

#[test]
fn nested_box_is_freed_transitively() {
    let inner = Expr::Block(
        vec![Stmt::LetMut("b".to_string(), Expr::Box(Box::new(Expr::Box(Box::new(Expr::Int(1))))))],
        Box::new(Expr::Unit),
        Lifetime(3),
    );
    let mut ctx = Context::new();
    assert_eq!(ctx.eval_expr(&inner, Lifetime(1)), Ok(Value::Unit));
    assert_eq!(ctx.store.heap.len(), 2);
    assert!(ctx.store.heap[0].is_none());
    assert!(ctx.store.heap[1].is_none());
}

#[test]
fn store_drop_follows_owned_chain() {
    let mut ctx = Context::new();
    ctx.eval_stmt(
        &Stmt::LetMut("x".to_string(), Expr::Box(Box::new(Expr::Box(Box::new(Expr::Int(9)))))),
        Lifetime(1),
    )
    .unwrap();
    // heap[1] owns heap[0]; dropping an owner of heap[1] frees both
    ctx.store.drop(vec![Some(Value::Ref(Location::Heap(1), true))]);
    assert!(ctx.store.heap[0].is_none());
    assert!(ctx.store.heap[1].is_none());
}

#[test]
fn reborrow_through_deref_points_at_target() {
    let src = "fn main() { let mut x = 1; let mut q = &mut x; let mut p = &mut *q; *p = 5; assert_eq!(x, 5); }";
    let (_, r) = check(src);
    assert_eq!(r, Ok(Type::Unit));
    assert_eq!(run(src), Ok(Value::Unit));
}

#[test]
fn write_through_dangling_reference_is_invalid_write() {
    let (_, r) = check("fn main() { let mut o = 1; let mut r = &mut o; { let mut x = 5; r = &mut x; }; *r = 6; }");
    assert_eq!(r, Err(TypeError::InvalidWrite));
}

#[test]
fn prohibition_queries_follow_the_chain() {
    let mut env = salt::types::Env::default();
    env.insert("x", Type::Int, Lifetime(1));
    env.insert("s", Type::Ref(Lval::var("x"), false), Lifetime(1));
    env.insert("m", Type::Ref(Lval::var("x"), true), Lifetime(1));
    assert!(env.write_prohibited(&Lval::new("s", 1)));
    assert!(!env.write_prohibited(&Lval::new("m", 1)));
    env.moove(&Lval::var("m")).unwrap();
    assert!(env.read_prohibited(&Lval::new("m", 1)));
    assert!(!env.read_prohibited(&Lval::new("s", 1)));
    assert!(env.muut(&Lval::var("m")));
}

#[test]
fn borrow_keeps_the_lvalue_as_written() {
    let mut env = salt::types::Env::default();
    env.insert("x", Type::Int, Lifetime(1));
    env.insert("q", Type::Ref(Lval::var("x"), true), Lifetime(1));
    let mut tc = TypeContext { env };
    let mut e = Expr::Borrow(Lval::new("q", 1), true);
    assert_eq!(tc.type_expr(&mut e), Ok(Type::Ref(Lval::new("q", 1), true)));
    tc.env.insert("p", Type::Ref(Lval::new("q", 1), true), Lifetime(1));
    // *p follows *q to x
    assert_eq!(tc.env.write(&Lval::new("p", 1), Type::Unit), Ok(()));
    assert_eq!(tc.env.type_lval(&Lval::var("x")).unwrap().tipe, Type::Unit);
}

#[test]
fn self_referring_reborrow_is_rejected() {
    let (_, r) = check("fn main() { let mut a = 1; let mut r = &mut a; let mut r = &mut *r; *r = 2; }");
    assert_eq!(r, Err(TypeError::InvalidWrite));
}

#[test]
fn reading_through_an_int_is_a_mismatch() {
    let (_, r) = check("fn main() { let mut x = 1; let mut y = *x; }");
    assert_eq!(r, Err(TypeError::Mismatch));
}

#[test]
fn retargeted_reborrow_is_checked_but_gets_stuck() {
    // r is typed Ref(*q, _) and follows q in the checker after q is retargeted,
    // while at run time r still points where *q pointed when it was borrowed
    let src = "fn main() { let mut a = 1; let mut c = 2; let mut q = &mut a; let mut r = &mut *q; \
               q = &mut c; let mut m = Box::new(3); *r = m; assert_eq!(a, 1); }";
    let (_, r) = check(src);
    assert_eq!(r, Ok(Type::Unit));
    assert_eq!(run(src), Err(EvalError::Stuck));
}
