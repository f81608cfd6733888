use type_infer::context::{new_t_var, Context, Env};
use type_infer::infer::{infer, infer_type, Expr};
use type_infer::subst::{apply_to_subst, compose, Substitution};
use type_infer::types::{bool_type, int_type, Type, TypeError};
use type_infer::unify::unify;

fn var(n: &str) -> Expr {
    Expr::EVar { name: n.to_string() }
}

fn func(p: &str, body: Expr) -> Expr {
    Expr::EFunc { param: p.to_string(), body: Box::new(body) }
}

fn call(f: Expr, a: Expr) -> Expr {
    Expr::ECall { func: Box::new(f), arg: Box::new(a) }
}

fn cond(c: Expr, t: Expr, f: Expr) -> Expr {
    Expr::ECond { cond: Box::new(c), true_branch: Box::new(t), false_branch: Box::new(f) }
}

fn lit(v: i64) -> Expr {
    Expr::EInt { value: v }
}

fn fun(a: Type, b: Type) -> Type {
    Type::TFun { from: Box::new(a), to: Box::new(b) }
}

fn env_with(name: &str, t: Type) -> Env {
    let mut e = Env::new();
    e.insert(name.to_string(), t);
    e
}

#[test]
fn int_literal_has_int_type_in_any_env() {
    let mut ctx = Context::new(Env::new());
    let (t, s) = infer(&mut ctx, &lit(42)).unwrap();
    assert_eq!(t, int_type());
    assert!(s.is_empty());
    let mut ctx = Context::new(env_with("x", bool_type()));
    let (t, s) = infer(&mut ctx, &lit(-7)).unwrap();
    assert_eq!(t, int_type());
    assert!(s.is_empty());
}

#[test]
fn declared_variable_has_its_bound_type() {
    let env = env_with("f", fun(int_type(), bool_type()));
    let mut ctx = Context::new(env);
    let (t, s) = infer(&mut ctx, &var("f")).unwrap();
    assert_eq!(t, fun(int_type(), bool_type()));
    assert!(s.is_empty());
}

#[test]
fn undeclared_variable_is_reported_with_its_name() {
    let env = env_with("x", int_type());
    assert_eq!(
        infer_type(&env, &var("z")),
        Err(TypeError::UndeclaredVariable("z".to_string()))
    );
}

#[test]
fn empty_substitution_is_identity() {
    let t = fun(Type::TVar(3), fun(int_type(), Type::TVar(4)));
    assert_eq!(apply_to_subst(&Substitution::new(), t.clone()), t);
}

#[test]
fn apply_rewrites_both_sides_of_a_function() {
    let s = compose(
        &Substitution::singleton(0, int_type()),
        &Substitution::singleton(1, bool_type()),
    );
    let t = fun(Type::TVar(0), Type::TVar(1));
    assert_eq!(apply_to_subst(&s, t), fun(int_type(), bool_type()));
}

#[test]
fn composition_applies_older_then_newer() {
    let s1 = Substitution::singleton(0, fun(Type::TVar(1), int_type()));
    let s2 = Substitution::singleton(1, bool_type());
    let t = fun(Type::TVar(0), Type::TVar(1));
    let both = apply_to_subst(&compose(&s1, &s2), t.clone());
    let stepwise = apply_to_subst(&s2, apply_to_subst(&s1, t));
    assert_eq!(both, stepwise);
    assert_eq!(both, fun(fun(bool_type(), int_type()), bool_type()));
}

#[test]
fn newer_binding_overrides_older() {
    let s = compose(
        &Substitution::singleton(0, int_type()),
        &Substitution::singleton(0, bool_type()),
    );
    assert_eq!(s.get(0), Some(&bool_type()));
}

#[test]
fn unify_type_with_itself_is_empty() {
    let t = fun(Type::TVar(2), fun(int_type(), Type::TVar(5)));
    assert!(unify(&t, &t).unwrap().is_empty());
    assert!(unify(&int_type(), &int_type()).unwrap().is_empty());
}

#[test]
fn unify_variable_binds_it() {
    let s = unify(&Type::TVar(1), &fun(int_type(), bool_type())).unwrap();
    assert_eq!(s.get(1), Some(&fun(int_type(), bool_type())));
    let s = unify(&bool_type(), &Type::TVar(2)).unwrap();
    assert_eq!(s.get(2), Some(&bool_type()));
}

#[test]
fn unify_functions_propagates_parameter_bindings() {
    let a = fun(Type::TVar(0), Type::TVar(0));
    let b = fun(int_type(), Type::TVar(1));
    let s = unify(&a, &b).unwrap();
    assert_eq!(apply_to_subst(&s, a), fun(int_type(), int_type()));
    assert_eq!(apply_to_subst(&s, b), fun(int_type(), int_type()));
}

#[test]
fn occurs_check_rejects_infinite_type() {
    let t = fun(Type::TVar(0), int_type());
    assert_eq!(
        unify(&Type::TVar(0), &t).err(),
        Some(TypeError::OccursCheckFailure(0, t.clone()))
    );
    assert_eq!(
        unify(&t, &Type::TVar(0)).err(),
        Some(TypeError::OccursCheckFailure(0, t.clone()))
    );
}

#[test]
fn unify_mismatch_names_both_types() {
    assert_eq!(
        unify(&int_type(), &bool_type()).err(),
        Some(TypeError::TypeMismatch(int_type(), bool_type()))
    );
    let f = fun(int_type(), int_type());
    assert_eq!(
        unify(&int_type(), &f).err(),
        Some(TypeError::TypeMismatch(int_type(), f.clone()))
    );
}

#[test]
fn identity_function_has_shape_v_to_v() {
    let t = infer_type(&Env::new(), &func("x", var("x"))).unwrap();
    match t {
        Type::TFun { from, to } => {
            assert!(matches!(*from, Type::TVar(_)));
            assert_eq!(from, to);
        }
        other => panic!("expected a function type, got {:?}", other),
    }
}

#[test]
fn identity_applied_to_literal_is_int() {
    let e = call(func("x", var("x")), lit(5));
    assert_eq!(infer_type(&Env::new(), &e), Ok(int_type()));
}

#[test]
fn integer_condition_is_rejected() {
    let e = cond(lit(1), lit(2), lit(3));
    assert_eq!(
        infer_type(&Env::new(), &e),
        Err(TypeError::ConditionNotBoolean(int_type()))
    );
}

#[test]
fn undeclared_variable_in_empty_env() {
    assert_eq!(
        infer_type(&Env::new(), &var("y")),
        Err(TypeError::UndeclaredVariable("y".to_string()))
    );
}

#[test]
fn branches_of_different_types_are_rejected() {
    let e = cond(Expr::EBool { value: true }, lit(1), func("x", var("x")));
    assert!(matches!(
        infer_type(&Env::new(), &e),
        Err(TypeError::BranchTypeMismatch(_, _))
    ));
}

#[test]
fn conditional_with_agreeing_branches() {
    let env = env_with("b", bool_type());
    let e = cond(var("b"), lit(1), call(func("y", var("y")), lit(2)));
    assert_eq!(infer_type(&env, &e), Ok(int_type()));
}

#[test]
fn condition_variable_is_refined_to_bool() {
    let e = func("c", cond(var("c"), lit(1), lit(2)));
    assert_eq!(infer_type(&Env::new(), &e), Ok(fun(bool_type(), int_type())));
}

#[test]
fn calling_a_non_function_is_a_mismatch() {
    let e = call(lit(1), lit(2));
    assert!(matches!(
        infer_type(&Env::new(), &e),
        Err(TypeError::TypeMismatch(_, _))
    ));
}

#[test]
fn parameter_binding_does_not_leak() {
    let mut ctx = Context::new(env_with("x", bool_type()));
    let e = call(func("x", var("x")), var("x"));
    let (t, _) = infer(&mut ctx, &e).unwrap();
    assert_eq!(t, bool_type());
    assert_eq!(ctx.env().get(&"x".to_string()), Some(&bool_type()));
}

#[test]
fn application_refines_function_parameter() {
    let env = env_with("g", fun(int_type(), bool_type()));
    let e = func("a", call(var("g"), var("a")));
    assert_eq!(infer_type(&env, &e), Ok(fun(int_type(), bool_type())));
}

#[test]
fn fresh_variables_are_distinct() {
    let mut ctx = Context::new(Env::new());
    let a = new_t_var(&mut ctx);
    let b = new_t_var(&mut ctx);
    assert_ne!(a, b);
    assert!(matches!(a, Type::TVar(_)));
}

#[test]
fn new_from_current_binds_name() {
    let mut ctx = Context::new(Env::new());
    ctx.new_from_current("k".to_string(), int_type());
    ctx.new_from_current("k".to_string(), bool_type());
    assert_eq!(ctx.env().get(&"k".to_string()), Some(&bool_type()));
    assert_eq!(ctx.env().get(&"m".to_string()), None);
}

#[test]
fn chained_bindings_resolve_fully() {
    let s = compose(
        &Substitution::singleton(0, Type::TVar(1)),
        &Substitution::singleton(1, int_type()),
    );
    assert_eq!(apply_to_subst(&s, Type::TVar(0)), int_type());
    let once = apply_to_subst(&s, fun(Type::TVar(0), Type::TVar(1)));
    assert_eq!(once, fun(int_type(), int_type()));
    assert_eq!(apply_to_subst(&s, once.clone()), once);
}

#[test]
fn fresh_variables_start_above_environment_variables() {
    let mut ctx = Context::new(env_with("f", fun(Type::TVar(7), Type::TVar(3))));
    assert_eq!(new_t_var(&mut ctx), Type::TVar(8));
}

#[test]
fn self_application_fails_occurs_check() {
    let e = func("x", call(var("x"), var("x")));
    assert!(matches!(
        infer_type(&Env::new(), &e),
        Err(TypeError::OccursCheckFailure(_, _))
    ));
}

#[test]
fn inference_with_variable_environment() {
    let env = env_with("g", fun(Type::TVar(0), Type::TVar(0)));
    let e = call(var("g"), lit(3));
    assert_eq!(infer_type(&env, &e), Ok(int_type()));
}

#[test]
fn failing_function_part_fails_the_application() {
    let e = call(var("nope"), var("other"));
    assert_eq!(
        infer_type(&Env::new(), &e),
        Err(TypeError::UndeclaredVariable("nope".to_string()))
    );
}

#[test]
fn conditional_on_bool_variable_with_same_branches() {
    let mut env = env_with("c", bool_type());
    env.insert("x".to_string(), fun(int_type(), int_type()));
    let mut ctx = Context::new(env);
    let (t, s) = infer(&mut ctx, &cond(var("c"), var("x"), var("x"))).unwrap();
    assert_eq!(t, fun(int_type(), int_type()));
    assert!(s.is_empty());
}
