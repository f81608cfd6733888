//! Algorithm W style inference over the expression language.
use vstd::prelude::*;
use crate::types::{Type, Ty, TypeError, copy_type, int_type, bool_type, int_ty, bool_ty};
use crate::subst::{Substitution, apply, apply_to_subst, compose};
use crate::unify::unify;
use crate::context::{Context, Env, new_t_var, apply_env};
use crate::typing::{
    agrees, lemma_agrees_empty, lemma_apply_insert_fresh, lemma_env_insert_fresh, lemma_env_agrees,
    lemma_func_inv, lemma_call_inv, lemma_cond_inv, lemma_agrees_extend, lemma_agrees_extend_general,
    lemma_agrees_fresh, lemma_apply_below, Deriv, derives,
    env_vars, span, typed_result, has_type, lemma_env_insert_vars, lemma_env_compose,
    lemma_has_type_apply, lemma_func_intro, lemma_call_intro, lemma_cond_intro, lemma_leaf_typed,
    lemma_narrow, lemma_env_closed,
};
use crate::subst::lemma_apply_vars;
use crate::unify::{confined, vars2, lemma_compose_confined, error_justified, unifies, more_general};
use crate::types::vars;

verus! {

/// An expression of the language.
#[derive(Debug)]
pub enum Expr {
    EInt { value: i64 },
    EBool { value: bool },
    EVar { name: String },
    EFunc { param: String, body: Box<Expr> },
    ECall { func: Box<Expr>, arg: Box<Expr> },
    ECond { cond: Box<Expr>, true_branch: Box<Expr>, false_branch: Box<Expr> },
}

/// How many fresh type variables inference of `e` mints at most.
pub open spec fn fresh_count(e: Expr) -> nat
    decreases e,
{
    match e {
        Expr::EFunc { body, .. } => 1 + fresh_count(*body),
        Expr::ECall { func, arg } => 1 + fresh_count(*func) + fresh_count(*arg),
        Expr::ECond { cond, true_branch, false_branch } => fresh_count(*cond) + fresh_count(
            *true_branch,
        ) + fresh_count(*false_branch),
        _ => 0,
    }
}

/// The variable `n` occurs free in `e`: referenced outside any function that binds it.
pub open spec fn free_in(e: Expr, n: Seq<char>) -> bool
    decreases e,
{
    match e {
        Expr::EVar { name } => name@ == n,
        Expr::EFunc { param, body } => param@ != n && free_in(*body, n),
        Expr::ECall { func, arg } => free_in(*func, n) || free_in(*arg, n),
        Expr::ECond { cond, true_branch, false_branch } => free_in(*cond, n) || free_in(
            *true_branch,
            n,
        ) || free_in(*false_branch, n),
        _ => false,
    }
}

/// Inference of `e` under `env`, minting variables from `n`, gave `r`, which is principal:
/// whenever some instance of the bindings gives `e` a type, inference succeeded, and that type
/// is an instance of the inferred one, by an instance that agrees with the substitution found.
pub open spec fn principal(
    env: Map<Seq<char>, Ty>,
    n: int,
    e: Expr,
    r: Result<(Type, Substitution), TypeError>,
) -> bool {
    forall|u: Map<u64, Ty>, t2: Ty|
        #[trigger] has_type(apply_env(u, env), e, t2) ==> (r matches Ok((t, s)) && exists|
            u2: Map<u64, Ty>,
        | agrees(u2, s@, u, n) && apply(u2, t@) == t2)
}

proof fn lemma_leaf_principal(env: Map<Seq<char>, Ty>, n: int, e: Expr, r: Result<(Type, Substitution), TypeError>)
    requires
        is_leaf(e),
        leaf_outcome(leaf_type(env, e), r),
    ensures
        principal(env, n, e, r),
{
    assert forall|u: Map<u64, Ty>, t2: Ty| #[trigger] has_type(apply_env(u, env), e, t2) implies (
    r matches Ok((t, s)) && exists|u2: Map<u64, Ty>| agrees(u2, s@, u, n) && apply(u2, t@) == t2) by {
        let d = choose|d: Deriv| #[trigger] derives(apply_env(u, env), e, t2, d);
        assert(derives(apply_env(u, env), e, t2, d));
        lemma_agrees_empty(u, n);
        assert(agrees(u, r->Ok_0.1@, u, n) && apply(u, r->Ok_0.0@) == t2);
    }
}

/// Any typing of a function under an instance `u` of `env` types its body under the instance
/// that also sends the parameter's fresh variable `n0` to the parameter type.
proof fn lemma_func_typing(
    env: Map<Seq<char>, Ty>,
    n0: int,
    param: String,
    body: Box<Expr>,
    u: Map<u64, Ty>,
    t2: Ty,
)
    requires
        0 <= n0 <= u64::MAX,
        env_vars(env).subset_of(span(0, n0)),
        has_type(apply_env(u, env), Expr::EFunc { param, body }, t2),
    ensures
        t2 is Fun,
        has_type(
            apply_env(u.insert(n0 as u64, *t2->Fun_0), env.insert(param@, Ty::Var(n0 as u64))),
            *body,
            *t2->Fun_1,
        ),
        forall|x: Ty|
            vars(x).subset_of(span(0, n0)) ==> #[trigger] apply(u.insert(n0 as u64, *t2->Fun_0), x)
                == apply(u, x),
{
    lemma_func_inv(apply_env(u, env), param, body, t2);
    let p = *t2->Fun_0;
    let u1 = u.insert(n0 as u64, p);
    lemma_env_insert_fresh(u, n0 as u64, p, env);
    assert(apply_env(u1, env.insert(param@, Ty::Var(n0 as u64))) =~= apply_env(u, env).insert(
        param@,
        p,
    ));
    assert forall|x: Ty| vars(x).subset_of(span(0, n0)) implies #[trigger] apply(u1, x) == apply(
        u,
        x,
    ) by {
        lemma_apply_insert_fresh(u, n0 as u64, p, x);
    }
}

/// Any typing of an application under an instance `u` of `env` gives an instance that agrees
/// with `u` through the function part's substitution, maps its type to a function type, and
/// types the argument under the narrowed bindings.
proof fn lemma_call_step(
    env: Map<Seq<char>, Ty>,
    n0: int,
    func: Box<Expr>,
    arg: Box<Expr>,
    rf: Result<(Type, Substitution), TypeError>,
    u: Map<u64, Ty>,
    t2: Ty,
) -> (r: (Map<u64, Ty>, Ty))
    requires
        principal(env, n0, *func, rf),
        env_vars(env).subset_of(span(0, n0)),
        has_type(apply_env(u, env), Expr::ECall { func, arg }, t2),
    ensures
        rf is Ok,
        agrees(r.0, rf->Ok_0.1@, u, n0),
        apply(r.0, rf->Ok_0.0@) == Ty::Fun(Box::new(r.1), Box::new(t2)),
        has_type(apply_env(r.0, apply_env(rf->Ok_0.1@, env)), *arg, r.1),
{
    let a = lemma_call_inv(apply_env(u, env), func, arg, t2);
    let s1 = rf->Ok_0.1@;
    let tf = rf->Ok_0.0@;
    let u1 = choose|u1: Map<u64, Ty>|
        agrees(u1, s1, u, n0) && apply(u1, tf) == Ty::Fun(Box::new(a), Box::new(t2));
    lemma_env_agrees(u1, s1, u, n0, env);
    (u1, a)
}

/// The instance that also sends the result variable `n2` to `t2` unifies the function part's
/// type with the synthesized function type.
proof fn lemma_call_unifier(
    u1: Map<u64, Ty>,
    u2: Map<u64, Ty>,
    s2: Map<u64, Ty>,
    tf: Ty,
    ta: Ty,
    a: Ty,
    t2: Ty,
    w2: Set<u64>,
    n1: int,
    n2: int,
)
    requires
        agrees(u2, s2, u1, n1),
        apply(u1, tf) == Ty::Fun(Box::new(a), Box::new(t2)),
        apply(u2, ta) == a,
        confined(s2, w2),
        w2.subset_of(span(0, n2)),
        vars(tf).subset_of(span(0, n1)),
        vars(ta).subset_of(span(0, n2)),
        n1 <= n2,
        0 <= n2 <= u64::MAX,
    ensures
        unifies(
            u2.insert(n2 as u64, t2),
            apply(s2, tf),
            Ty::Fun(Box::new(ta), Box::new(Ty::Var(n2 as u64))),
        ),
        agrees(u2.insert(n2 as u64, t2), s2, u1, n1),
        apply(u2.insert(n2 as u64, t2), Ty::Var(n2 as u64)) == t2,
{
    let u3 = u2.insert(n2 as u64, t2);
    lemma_apply_below(s2, tf, w2, n1, n2);
    lemma_apply_insert_fresh(u2, n2 as u64, t2, apply(s2, tf));
    lemma_apply_insert_fresh(u2, n2 as u64, t2, ta);
    assert(apply(u2, apply(s2, tf)) == apply(u1, tf));
    lemma_agrees_fresh(u1, u2, s2, w2, n1, n2, n2 as u64, t2);
}

/// Any typing of a conditional under an instance `u` of `env` types both branches under `u`,
/// and gives an instance that agrees with `u` through the condition's substitution and sends the
/// condition's type to the boolean type.
proof fn lemma_cond_step(
    env: Map<Seq<char>, Ty>,
    n0: int,
    cond: Box<Expr>,
    true_branch: Box<Expr>,
    false_branch: Box<Expr>,
    rc: Result<(Type, Substitution), TypeError>,
    u: Map<u64, Ty>,
    t2: Ty,
) -> (u1: Map<u64, Ty>)
    requires
        principal(env, n0, *cond, rc),
        has_type(apply_env(u, env), Expr::ECond { cond, true_branch, false_branch }, t2),
    ensures
        rc is Ok,
        agrees(u1, rc->Ok_0.1@, u, n0),
        unifies(u1, rc->Ok_0.0@, bool_ty()),
        has_type(apply_env(u, env), *true_branch, t2),
        has_type(apply_env(u, env), *false_branch, t2),
{
    lemma_cond_inv(apply_env(u, env), cond, true_branch, false_branch, t2);
    choose|u1: Map<u64, Ty>| agrees(u1, rc->Ok_0.1@, u, n0) && apply(u1, rc->Ok_0.0@) == bool_ty()
}

/// Every type that `e` has under an instance of `env` is an instance of `t`.
pub open spec fn principal_type(env: Map<Seq<char>, Ty>, e: Expr, t: Ty) -> bool {
    forall|u: Map<u64, Ty>, t2: Ty|
        #[trigger] has_type(apply_env(u, env), e, t2) ==> exists|u2: Map<u64, Ty>| apply(u2, t) == t2
}

/// `e` is a conditional whose condition has a type under some instance of `env`, but never the
/// boolean type.
pub open spec fn condition_not_boolean(env: Map<Seq<char>, Ty>, e: Expr) -> bool {
    &&& e matches Expr::ECond { cond, .. }
    &&& exists|u: Map<u64, Ty>, t: Ty| has_type(apply_env(u, env), *e->cond, t)
    &&& forall|u: Map<u64, Ty>| !#[trigger] has_type(apply_env(u, env), *e->cond, bool_ty())
}

/// Under bindings that mention no type variable, `e` is a conditional with a boolean condition
/// and two branches that each have a type, but no common one: `e` itself has no type.
pub open spec fn branches_disagree(env: Map<Seq<char>, Ty>, e: Expr) -> bool {
    &&& env_vars(env).is_empty()
    &&& e matches Expr::ECond { cond, true_branch, false_branch }
    &&& has_type(env, *e->cond, bool_ty())
    &&& exists|t: Ty| has_type(env, *e->true_branch, t)
    &&& exists|t: Ty| has_type(env, *e->false_branch, t)
    &&& forall|t: Ty| !#[trigger] has_type(env, e, t)
}

/// The part of an application or a conditional that is inferred first: the function, or the
/// condition.
pub open spec fn first_part(e: Expr) -> Expr {
    match e {
        Expr::ECall { func, .. } => *func,
        Expr::ECond { cond, .. } => *cond,
        _ => e,
    }
}

/// `e` is an application or a conditional whose first part has no type under any instance of
/// `env`: inference fails there, and the error it returns is about that part.
pub open spec fn first_part_fails(env: Map<Seq<char>, Ty>, e: Expr) -> bool {
    &&& (e is ECall || e is ECond)
    &&& forall|u: Map<u64, Ty>, t: Ty| !#[trigger] has_type(apply_env(u, env), first_part(e), t)
}

/// Whether `e` is a literal or a variable reference.
pub open spec fn is_leaf(e: Expr) -> bool {
    e is EInt || e is EBool || e is EVar
}

/// The type of a literal or a variable reference under the bindings `env`, or the name that
/// no binding declares.
pub open spec fn leaf_type(env: Map<Seq<char>, Ty>, e: Expr) -> Result<Ty, Seq<char>> {
    match e {
        Expr::EBool { .. } => Ok(bool_ty()),
        Expr::EVar { name } => if env.contains_key(name@) {
            Ok(env[name@])
        } else {
            Err(name@)
        },
        _ => Ok(int_ty()),
    }
}

/// `r` is the outcome owed for the leaf type or missing name `l`: that type with no bindings
/// discovered, or the error that names the missing variable.
pub open spec fn leaf_outcome(
    l: Result<Ty, Seq<char>>,
    r: Result<(Type, Substitution), TypeError>,
) -> bool {
    match l {
        Ok(ty) => r matches Ok((t, s)) && t@ == ty && s@ == Map::<u64, Ty>::empty(),
        Err(n) => r matches Err(TypeError::UndeclaredVariable(m)) && m@ == n,
    }
}

/// Infers the type of `expr` under the context's environment, together with the substitution
/// that inference discovered. The type variables of the environment must lie below the next
/// fresh one. The environment is left as it was. A success is sound: `expr` has the inferred
/// type under the environment with the substitution applied. The result is principal:
/// inference succeeds whenever some instance of the environment gives `expr` a type, and every
/// such type is an instance of the inferred one. An error is justified: the types it names have
/// no common instance, the variable occurs in the type it would have to equal, or a missing name
/// occurs free. A condition that can never be boolean gives `ConditionNotBoolean`; branches
/// without a common type give `BranchTypeMismatch`; a first part that fails fails the whole.
#[verifier::rlimit(100)]
pub fn infer(ctx: &mut Context, expr: &Expr) -> (r: Result<(Type, Substitution), TypeError>)
    requires
        old(ctx).next_var() + fresh_count(*expr) <= u64::MAX,
        env_vars(old(ctx).bindings()).subset_of(span(0, old(ctx).next_var() as int)),
    ensures
        final(ctx).bindings() == old(ctx).bindings(),
        old(ctx).next_var() <= final(ctx).next_var() <= old(ctx).next_var() + fresh_count(*expr),
        is_leaf(*expr) ==> leaf_outcome(leaf_type(old(ctx).bindings(), *expr), r),
        expr is EFunc ==> (r matches Ok((t, s)) ==> t@ matches Ty::Fun(p, _) && *p == apply(
            s@,
            Ty::Var(old(ctx).next_var()),
        )),
        r matches Err(e) ==> error_justified(old(ctx).bindings(), *expr, e),
        principal(old(ctx).bindings(), old(ctx).next_var() as int, *expr, r),
        condition_not_boolean(old(ctx).bindings(), *expr) ==> (r matches Err(
            TypeError::ConditionNotBoolean(tc),
        ) && principal_type(old(ctx).bindings(), first_part(*expr), tc@)),
        branches_disagree(old(ctx).bindings(), *expr) ==> r matches Err(
            TypeError::BranchTypeMismatch(_, _),
        ),
        first_part_fails(old(ctx).bindings(), *expr) ==> (r matches Err(e) && error_justified(
            old(ctx).bindings(),
            first_part(*expr),
            e,
        )),
        r matches Ok((t, s)) ==> typed_result(
            old(ctx).bindings(),
            old(ctx).next_var() as int,
            final(ctx).next_var() as int,
            *expr,
            t@,
            s@,
        ),
    decreases expr, 0nat,
{
    let ghost env0 = ctx.bindings();
    let ghost n0 = ctx.next_var() as int;
    match expr {
        Expr::EInt { .. } => {
            let r = (int_type(), Substitution::new());
            proof {
                lemma_leaf_typed(env0, n0, n0, *expr, r.0@);
                lemma_leaf_principal(env0, n0, *expr, Ok(r));
            }
            Ok(r)
        },
        Expr::EBool { .. } => {
            let r = (bool_type(), Substitution::new());
            proof {
                lemma_leaf_typed(env0, n0, n0, *expr, r.0@);
                lemma_leaf_principal(env0, n0, *expr, Ok(r));
            }
            Ok(r)
        },
        Expr::EVar { name } => match ctx.env().get(name) {
            Some(x) => {
                let r = (copy_type(x), Substitution::new());
                proof {
                    lemma_leaf_typed(env0, n0, n0, *expr, r.0@);
                    lemma_leaf_principal(env0, n0, *expr, Ok(r));
                }
                Ok(r)
            },
            None => {
                let r = Err(TypeError::UndeclaredVariable(name.clone()));
                proof {
                    lemma_leaf_principal(env0, n0, *expr, r);
                }
                r
            },
        },
        Expr::EFunc { param, body } => {
            let t_param = new_t_var(ctx);
            let saved = ctx.env().copy();
            ctx.new_from_current(param.clone(), copy_type(&t_param));
            let ghost env1 = ctx.bindings();
            proof {
                lemma_env_insert_vars(env0, param@, t_param@);
            }
            let res = infer(ctx, body);
            ctx.swap_env(saved);
            let (t_body, s) = match res {
                Ok(p) => p,
                Err(e) => {
                    proof {
                        assert forall|u: Map<u64, Ty>, t2: Ty| !#[trigger] has_type(
                            apply_env(u, env0),
                            *expr,
                            t2,
                        ) by {
                            if has_type(apply_env(u, env0), *expr, t2) {
                                lemma_func_typing(env0, n0, *param, *body, u, t2);
                            }
                        }
                    }
                    return Err(e);
                },
            };
            let ghost p0 = t_param@;
            let from = apply_to_subst(&s, t_param);
            let r = Type::TFun { from: Box::new(from), to: Box::new(t_body) };
            proof {
                let n1 = ctx.next_var() as int;
                let w = env_vars(env0).union(span(n0, n1));
                let w1 = env_vars(env1).union(span(n0 + 1, n1));
                assert(w1.subset_of(w));
                lemma_apply_vars(s@, p0);
                assert(apply_env(s@, env1) =~= apply_env(s@, env0).insert(param@, apply(s@, p0)));
                lemma_func_intro(apply_env(s@, env0), *param, *body, from@, t_body@);
                assert(vars(r@) =~= vars(from@).union(vars(t_body@)));
                assert forall|u: Map<u64, Ty>, t2: Ty| #[trigger] has_type(
                    apply_env(u, env0),
                    *expr,
                    t2,
                ) implies exists|u2: Map<u64, Ty>| agrees(u2, s@, u, n0) && apply(u2, r@) == t2 by {
                    lemma_func_typing(env0, n0, *param, *body, u, t2);
                    let u1 = u.insert(n0 as u64, *t2->Fun_0);
                    assert(has_type(apply_env(u1, env1), **body, *t2->Fun_1));
                    let u2 = choose|u2: Map<u64, Ty>|
                        agrees(u2, s@, u1, n0 + 1) && apply(u2, t_body@) == *t2->Fun_1;
                    assert forall|x: Ty| vars(x).subset_of(span(0, n0)) implies #[trigger] apply(
                        u2,
                        apply(s@, x),
                    ) == apply(u, x) by {
                        assert(vars(x).subset_of(span(0, n0 + 1)));
                        assert(apply(u2, apply(s@, x)) == apply(u1, x));
                    }
                    assert(vars(p0) =~= set![n0 as u64]);
                    assert(apply(u2, apply(s@, p0)) == apply(u1, p0));
                    assert(agrees(u2, s@, u, n0));
                    assert(apply(u2, r@) == t2);
                }
            }
            Ok((r, s))
        },
        Expr::ECall { func, arg } => {
            let rf = infer(ctx, func);
            let ghost rf_g = rf;
            let (t_func, s1) = match rf {
                Ok(p) => p,
                Err(e) => {
                    proof {
                        assert forall|u: Map<u64, Ty>, t2: Ty| !#[trigger] has_type(
                            apply_env(u, env0),
                            *expr,
                            t2,
                        ) by {
                            if has_type(apply_env(u, env0), *expr, t2) {
                                lemma_call_step(env0, n0, *func, *arg, rf_g, u, t2);
                            }
                        }
                    }
                    return Err(e);
                },
            };
            proof {
                assert(has_type(apply_env(s1@, env0), **func, t_func@));
                assert(!first_part_fails(env0, *expr));
            }
            let ghost n1 = ctx.next_var() as int;
            let ghost env1 = apply_env(s1@, env0);
            proof {
                lemma_narrow(s1@, env0, n0, n1);
            }
            let ra = infer_narrowed(ctx, arg, &s1);
            let ghost ra_g = ra;
            let (t_arg, s2) = match ra {
                Ok(p) => p,
                Err(e) => {
                    proof {
                        assert forall|u: Map<u64, Ty>, t2: Ty| !#[trigger] has_type(
                            apply_env(u, env0),
                            *expr,
                            t2,
                        ) by {
                            if has_type(apply_env(u, env0), *expr, t2) {
                                let (u1, a) = lemma_call_step(env0, n0, *func, *arg, rf_g, u, t2);
                                assert(has_type(apply_env(u1, env1), **arg, a));
                            }
                        }
                    }
                    return Err(e);
                },
            };
            let ghost n2 = ctx.next_var() as int;
            let t_result = new_t_var(ctx);
            let ghost tf = t_func@;
            let ghost ta = t_arg@;
            let ghost tr = t_result@;
            let t_func = apply_to_subst(&s2, t_func);
            let expected = Type::TFun { from: Box::new(t_arg), to: Box::new(copy_type(&t_result)) };
            let ghost ev = env_vars(env0);
            let ghost vv = ev.union(span(n0, n2 + 1));
            let ghost w1 = ev.union(span(n0, n1));
            let ghost w2 = env_vars(env1).union(span(n1, n2));
            proof {
                assert(vars(tf).subset_of(span(0, n1)));
                assert(vars(ta).subset_of(span(0, n2)));
                assert(w2.subset_of(span(0, n2)));
                assert(tr == Ty::Var(n2 as u64));
                assert(expected@ == Ty::Fun(Box::new(ta), Box::new(tr)));
            }
            let s3 = match unify(&t_func, &expected) {
                Ok(s) => s,
                Err(e) => {
                    proof {
                        assert forall|u: Map<u64, Ty>, t2: Ty| !#[trigger] has_type(
                            apply_env(u, env0),
                            *expr,
                            t2,
                        ) by {
                            if has_type(apply_env(u, env0), *expr, t2) {
                                let (u1, a) = lemma_call_step(env0, n0, *func, *arg, rf_g, u, t2);
                                assert(has_type(apply_env(u1, env1), **arg, a));
                                let u2 = choose|u2: Map<u64, Ty>|
                                    agrees(u2, s2@, u1, n1) && apply(u2, ta) == a;
                                lemma_call_unifier(u1, u2, s2@, tf, ta, a, t2, w2, n1, n2);
                                assert(unifies(u2.insert(n2 as u64, t2), t_func@, expected@));
                            }
                        }
                    }
                    return Err(e);
                },
            };
            let t = apply_to_subst(&s3, t_result);
            proof {
                assert(w1.subset_of(vv));
                assert(w2.subset_of(vv));
                assert(w2.disjoint(s1@.dom()));
                assert(confined(s1@, vv));
                lemma_compose_confined(s1@, s2@, vv, w2);
            }
            let s12 = compose(&s1, &s2);
            let ghost xs = vars2(t_func@, expected@);
            proof {
                assert(s12@.dom() =~= s1@.dom().union(s2@.dom()));
                lemma_apply_vars(s2@, tf);
                assert(tr == Ty::Var(n2 as u64));
                assert(expected@ == Ty::Fun(Box::new(ta), Box::new(tr)));
                assert(vars(tr) =~= set![n2 as u64]);
                assert(xs =~= vars(t_func@).union(vars(ta)).union(set![n2 as u64]));
                assert(xs.subset_of(vv));
                assert(xs.disjoint(s12@.dom()));
                lemma_compose_confined(s12@, s3@, vv, xs);
            }
            let s = compose(&s12, &s3);
            proof {
                assert(s@.dom() =~= s12@.dom().union(s3@.dom()));
                lemma_apply_vars(s3@, tr);
                assert(vars(t@).subset_of(vv));
                assert(vars(t@).disjoint(s@.dom()));
                lemma_env_compose(s1@, s2@, env0);
                lemma_env_compose(s12@, s3@, env0);
                let env2 = apply_env(s2@, env1);
                let env3 = apply_env(s3@, env2);
                assert(apply_env(s@, env0) == env3);
                lemma_has_type_apply(s2@, env1, **func, tf);
                lemma_has_type_apply(s3@, env2, **func, t_func@);
                lemma_has_type_apply(s3@, env2, **arg, ta);
                lemma_call_intro(env3, *func, *arg, apply(s3@, ta), t@);
                assert forall|u: Map<u64, Ty>, t2: Ty| #[trigger] has_type(
                    apply_env(u, env0),
                    *expr,
                    t2,
                ) implies exists|u3: Map<u64, Ty>| agrees(u3, s@, u, n0) && apply(u3, t@) == t2 by {
                    let (u1, a) = lemma_call_step(env0, n0, *func, *arg, rf_g, u, t2);
                    assert(has_type(apply_env(u1, env1), **arg, a));
                    let u2 = choose|u2: Map<u64, Ty>| agrees(u2, s2@, u1, n1) && apply(u2, ta) == a;
                    lemma_call_unifier(u1, u2, s2@, tf, ta, a, t2, w2, n1, n2);
                    let u3 = u2.insert(n2 as u64, t2);
                    assert(unifies(u3, t_func@, expected@));
                    assert(more_general(s3@, u3));
                    assert(confined(s1@, w1));
                    lemma_agrees_extend(u, u1, u3, s1@, s2@, w1, n0, n1);
                    lemma_agrees_extend_general(u, u3, s12@, s3@, n0);
                    assert(apply(u3, apply(s3@, tr)) == apply(u3, tr));
                }
            }
            Ok((t, s))
        },
        Expr::ECond { cond, true_branch, false_branch } => {
            let rc = infer(ctx, cond);
            let ghost rc_g = rc;
            let (t_cond, s1) = match rc {
                Ok(p) => p,
                Err(e) => {
                    proof {
                        assert forall|u: Map<u64, Ty>, t2: Ty| !#[trigger] has_type(
                            apply_env(u, env0),
                            *expr,
                            t2,
                        ) by {
                            if has_type(apply_env(u, env0), *expr, t2) {
                                let u1 = lemma_cond_step(env0, n0, *cond, *true_branch, *false_branch, rc_g, u, t2);
                            }
                        }
                    }
                    proof {
                        if branches_disagree(env0, *expr) {
                            lemma_env_closed(Map::empty(), env0);
                            assert(has_type(apply_env(Map::empty(), env0), **cond, bool_ty()));
                        }
                    }
                    return Err(e);
                },
            };
            proof {
                assert(has_type(apply_env(s1@, env0), **cond, t_cond@));
                assert(!first_part_fails(env0, *expr));
            }
            let ghost n1 = ctx.next_var() as int;
            let s2 = match unify(&t_cond, &bool_type()) {
                Ok(s) => s,
                Err(_) => {
                    proof {
                        assert forall|u: Map<u64, Ty>| #[trigger] apply(u, t_cond@) != bool_ty() by {
                            assert(!unifies(u, t_cond@, bool_ty()));
                        }
                    }
                    proof {
                        assert forall|u: Map<u64, Ty>, t2: Ty| !#[trigger] has_type(
                            apply_env(u, env0),
                            *expr,
                            t2,
                        ) by {
                            if has_type(apply_env(u, env0), *expr, t2) {
                                let u1 = lemma_cond_step(env0, n0, *cond, *true_branch, *false_branch, rc_g, u, t2);
                            }
                        }
                    }
                    proof {
                        if branches_disagree(env0, *expr) {
                            lemma_env_closed(Map::empty(), env0);
                            assert(has_type(apply_env(Map::empty(), env0), **cond, bool_ty()));
                            let u1 = choose|u1: Map<u64, Ty>|
                                agrees(u1, s1@, Map::empty(), n0) && apply(u1, t_cond@) == bool_ty();
                            assert(unifies(u1, t_cond@, bool_ty()));
                        }
                    }
                    proof {
                        assert forall|u: Map<u64, Ty>, t2: Ty| #[trigger] has_type(
                            apply_env(u, env0),
                            **cond,
                            t2,
                        ) implies exists|u2: Map<u64, Ty>| apply(u2, t_cond@) == t2 by {
                            let u2 = choose|u2: Map<u64, Ty>|
                                agrees(u2, s1@, u, n0) && apply(u2, t_cond@) == t2;
                        }
                    }
                    return Err(TypeError::ConditionNotBoolean(t_cond));
                },
            };
            let ghost ev = env_vars(env0);
            let ghost w1 = ev.union(span(n0, n1));
            proof {
                assert(vars2(t_cond@, bool_ty()) =~= vars(t_cond@));
                lemma_compose_confined(s1@, s2@, w1, vars(t_cond@));
            }
            let a1 = compose(&s1, &s2);
            let ghost env2 = apply_env(a1@, env0);
            proof {
                assert(s1@.dom().disjoint(s2@.dom()));
                lemma_env_compose(s1@, s2@, env0);
                lemma_has_type_apply(s2@, apply_env(s1@, env0), **cond, t_cond@);
                assert(apply(s2@, t_cond@) == bool_ty());
                assert(has_type(apply_env(a1@, env0), **cond, bool_ty()));
                assert(!condition_not_boolean(env0, *expr));
            }
            proof {
                lemma_narrow(a1@, env0, n0, n1);
            }
            let rt = infer_narrowed(ctx, true_branch, &a1);
            let (t_true, s3) = match rt {
                Ok(p) => p,
                Err(e) => {
                    proof {
                        assert forall|u: Map<u64, Ty>, t2: Ty| !#[trigger] has_type(
                            apply_env(u, env0),
                            *expr,
                            t2,
                        ) by {
                            if has_type(apply_env(u, env0), *expr, t2) {
                                let u1 = lemma_cond_step(env0, n0, *cond, *true_branch, *false_branch, rc_g, u, t2);
                                lemma_agrees_extend_general(u, u1, s1@, s2@, n0);
                                lemma_env_agrees(u1, a1@, u, n0, env0);
                                assert(has_type(apply_env(u1, env2), **true_branch, t2));
                            }
                        }
                    }
                    proof {
                        if branches_disagree(env0, *expr) {
                            lemma_env_closed(a1@, env0);
                            lemma_env_closed(Map::empty(), env0);
                            let t = choose|t: Ty| has_type(env0, **true_branch, t);
                            assert(has_type(apply_env(Map::empty(), env2), **true_branch, t));
                        }
                    }
                    return Err(e);
                },
            };
            let ghost n2 = ctx.next_var() as int;
            let ghost ww = ev.union(span(n0, n2));
            let ghost w3 = env_vars(env2).union(span(n1, n2));
            proof {
                assert(a1@.dom() =~= s1@.dom().union(s2@.dom()));
                assert(confined(a1@, ww));
                assert(w3.subset_of(ww));
                assert(w3.disjoint(a1@.dom()));
                lemma_compose_confined(a1@, s3@, ww, w3);
            }
            let a2 = compose(&a1, &s3);
            let ghost env3 = apply_env(a2@, env0);
            proof {
                lemma_narrow(a2@, env0, n0, n2);
            }
            let ghost tt = t_true@;
            proof {
                assert(confined(a1@, w1));
                assert(confined(a2@, ww));
            }
            let rf = infer_narrowed(ctx, false_branch, &a2);
            let (t_false, s4) = match rf {
                Ok(p) => p,
                Err(e) => {
                    proof {
                        assert forall|u: Map<u64, Ty>, t2: Ty| !#[trigger] has_type(
                            apply_env(u, env0),
                            *expr,
                            t2,
                        ) by {
                            if has_type(apply_env(u, env0), *expr, t2) {
                                let u1 = lemma_cond_step(env0, n0, *cond, *true_branch, *false_branch, rc_g, u, t2);
                                lemma_agrees_extend_general(u, u1, s1@, s2@, n0);
                                lemma_env_agrees(u1, a1@, u, n0, env0);
                                assert(has_type(apply_env(u1, env2), **true_branch, t2));
                                let u3 = choose|u3: Map<u64, Ty>|
                                    agrees(u3, s3@, u1, n1) && apply(u3, tt) == t2;
                                lemma_agrees_extend(u, u1, u3, a1@, s3@, w1, n0, n1);
                                lemma_env_agrees(u3, a2@, u, n0, env0);
                                assert(has_type(apply_env(u3, env3), **false_branch, t2));
                            }
                        }
                    }
                    proof {
                        if branches_disagree(env0, *expr) {
                            lemma_env_closed(a2@, env0);
                            lemma_env_closed(Map::empty(), env0);
                            let t = choose|t: Ty| has_type(env0, **false_branch, t);
                            assert(has_type(apply_env(Map::empty(), env3), **false_branch, t));
                        }
                    }
                    return Err(e);
                },
            };
            let ghost n3 = ctx.next_var() as int;
            let ghost vv = ev.union(span(n0, n3));
            let ghost w4 = env_vars(env3).union(span(n2, n3));
            proof {
                assert(a2@.dom() =~= a1@.dom().union(s3@.dom()));
                assert(confined(a2@, vv));
                assert(w4.subset_of(vv));
                assert(w4.disjoint(a2@.dom()));
                lemma_compose_confined(a2@, s4@, vv, w4);
            }
            let a3 = compose(&a2, &s4);
            proof {
                assert(vars(tt).subset_of(span(0, n2)));
            }
            let t_true = apply_to_subst(&s4, t_true);
            let s5 = match unify(&t_true, &t_false) {
                Ok(s) => s,
                Err(_) => {
                    proof {
                        assert forall|u: Map<u64, Ty>, t2: Ty| !#[trigger] has_type(
                            apply_env(u, env0),
                            *expr,
                            t2,
                        ) by {
                            if has_type(apply_env(u, env0), *expr, t2) {
                                let u1 = lemma_cond_step(env0, n0, *cond, *true_branch, *false_branch, rc_g, u, t2);
                                lemma_agrees_extend_general(u, u1, s1@, s2@, n0);
                                lemma_env_agrees(u1, a1@, u, n0, env0);
                                assert(has_type(apply_env(u1, env2), **true_branch, t2));
                                let u3 = choose|u3: Map<u64, Ty>|
                                    agrees(u3, s3@, u1, n1) && apply(u3, tt) == t2;
                                lemma_agrees_extend(u, u1, u3, a1@, s3@, w1, n0, n1);
                                lemma_env_agrees(u3, a2@, u, n0, env0);
                                assert(has_type(apply_env(u3, env3), **false_branch, t2));
                                let u4 = choose|u4: Map<u64, Ty>|
                                    agrees(u4, s4@, u3, n2) && apply(u4, t_false@) == t2;
                                assert(apply(u4, apply(s4@, tt)) == apply(u3, tt));
                                assert(unifies(u4, t_true@, t_false@));
                            }
                        }
                    }
                    return Err(TypeError::BranchTypeMismatch(t_true, t_false));
                },
            };
            let t = apply_to_subst(&s5, t_false);
            let ghost xs = vars2(t_true@, t_false@);
            proof {
                assert(a3@.dom() =~= a2@.dom().union(s4@.dom()));
                lemma_apply_vars(s4@, tt);
                assert(w3.disjoint(a1@.dom()));
                assert(vars(t_true@).disjoint(a3@.dom()));
                assert(vars(t_false@).disjoint(a3@.dom()));
                assert(xs.subset_of(vv));
                lemma_compose_confined(a3@, s5@, vv, xs);
            }
            let s = compose(&a3, &s5);
            proof {
                assert(s@.dom() =~= a3@.dom().union(s5@.dom()));
                lemma_apply_vars(s5@, t_false@);
                assert(vars(t@).subset_of(vv));
                assert(vars(t@).disjoint(s@.dom()));
                let env4 = apply_env(a3@, env0);
                let env5 = apply_env(s@, env0);
                let env1 = apply_env(s1@, env0);
                lemma_env_compose(s1@, s2@, env0);
                lemma_env_compose(a1@, s3@, env0);
                lemma_env_compose(a2@, s4@, env0);
                lemma_env_compose(a3@, s5@, env0);
                assert(env2 == apply_env(s2@, env1));
                assert(env3 == apply_env(s3@, env2));
                assert(env4 == apply_env(s4@, env3));
                assert(env5 == apply_env(s5@, env4));
                lemma_has_type_apply(s2@, env1, **cond, t_cond@);
                assert(apply(s2@, t_cond@) == bool_ty());
                lemma_has_type_apply(s3@, env2, **cond, bool_ty());
                lemma_has_type_apply(s4@, env3, **cond, bool_ty());
                lemma_has_type_apply(s5@, env4, **cond, bool_ty());
                lemma_has_type_apply(s4@, env3, **true_branch, tt);
                lemma_has_type_apply(s5@, env4, **true_branch, t_true@);
                lemma_has_type_apply(s5@, env4, **false_branch, t_false@);
                lemma_cond_intro(env5, *cond, *true_branch, *false_branch, t@);
                if branches_disagree(env0, *expr) {
                    lemma_env_closed(s@, env0);
                    assert(has_type(env0, *expr, t@));
                }
                assert forall|u: Map<u64, Ty>, t2: Ty| #[trigger] has_type(
                    apply_env(u, env0),
                    *expr,
                    t2,
                ) implies exists|u4: Map<u64, Ty>| agrees(u4, s@, u, n0) && apply(u4, t@) == t2 by {
                    let u1 = lemma_cond_step(env0, n0, *cond, *true_branch, *false_branch, rc_g, u, t2);
                    lemma_agrees_extend_general(u, u1, s1@, s2@, n0);
                    lemma_env_agrees(u1, a1@, u, n0, env0);
                    assert(has_type(apply_env(u1, env2), **true_branch, t2));
                    let u3 = choose|u3: Map<u64, Ty>|
                        agrees(u3, s3@, u1, n1) && apply(u3, tt) == t2;
                    lemma_agrees_extend(u, u1, u3, a1@, s3@, w1, n0, n1);
                    lemma_env_agrees(u3, a2@, u, n0, env0);
                    assert(has_type(apply_env(u3, env3), **false_branch, t2));
                    let u4 = choose|u4: Map<u64, Ty>|
                        agrees(u4, s4@, u3, n2) && apply(u4, t_false@) == t2;
                    assert(apply(u4, apply(s4@, tt)) == apply(u3, tt));
                    assert(unifies(u4, t_true@, t_false@));
                    assert(more_general(s5@, u4));
                    lemma_agrees_extend(u, u3, u4, a2@, s4@, ww, n0, n2);
                    lemma_agrees_extend_general(u, u4, a3@, s5@, n0);
                    assert(apply(u4, apply(s5@, t_false@)) == apply(u4, t_false@));
                }
            }
            Ok((t, s))
        },
    }
}

/// Infers `expr` under the context's environment with `s` applied to it, and restores the
/// environment afterwards.
fn infer_narrowed(ctx: &mut Context, expr: &Expr, s: &Substitution) -> (r: Result<
    (Type, Substitution),
    TypeError,
>)
    requires
        old(ctx).next_var() + fresh_count(*expr) <= u64::MAX,
        env_vars(apply_env(s@, old(ctx).bindings())).subset_of(span(0, old(ctx).next_var() as int)),
    ensures
        final(ctx).bindings() == old(ctx).bindings(),
        old(ctx).next_var() <= final(ctx).next_var() <= old(ctx).next_var() + fresh_count(*expr),
        r matches Err(e) ==> error_justified(apply_env(s@, old(ctx).bindings()), *expr, e),
        principal(apply_env(s@, old(ctx).bindings()), old(ctx).next_var() as int, *expr, r),
        r matches Ok((t, s2)) ==> typed_result(
            apply_env(s@, old(ctx).bindings()),
            old(ctx).next_var() as int,
            final(ctx).next_var() as int,
            *expr,
            t@,
            s2@,
        ),
    decreases expr, 1nat,
{
    let narrowed = ctx.env().apply_subst(s);
    let saved = ctx.swap_env(narrowed);
    let res = infer(ctx, expr);
    ctx.swap_env(saved);
    res
}

/// Infers the type of `expr` under the bindings of `env`, minting fresh variables above those
/// that `env` mentions. A success is sound: `expr` has the inferred type under the bindings
/// with some substitution applied, and under the bindings themselves where they mention no type
/// variable. Inference succeeds whenever some instance of the bindings gives `expr` a type, and
/// every such type is an instance of the inferred one.
pub fn infer_type(env: &Env, expr: &Expr) -> (r: Result<Type, TypeError>)
    requires
        fresh_count(*expr) < u64::MAX,
        env_vars(env@).subset_of(span(0, u64::MAX - fresh_count(*expr))),
    ensures
        is_leaf(*expr) ==> match leaf_type(env@, *expr) {
            Ok(ty) => r matches Ok(t) && t@ == ty,
            Err(n) => r matches Err(TypeError::UndeclaredVariable(m)) && m@ == n,
        },
        r matches Ok(t) ==> exists|s: Map<u64, Ty>| has_type(apply_env(s, env@), *expr, t@),
        r matches Err(e) ==> error_justified(env@, *expr, e),
        forall|u: Map<u64, Ty>, t2: Ty| #[trigger] has_type(apply_env(u, env@), *expr, t2) ==> (
        r matches Ok(t) && exists|u2: Map<u64, Ty>| apply(u2, t@) == t2),
        env_vars(env@).is_empty() ==> forall|t2: Ty| #[trigger] has_type(env@, *expr, t2) ==> (
        r matches Ok(t) && exists|u2: Map<u64, Ty>| apply(u2, t@) == t2),
        env_vars(env@).is_empty() ==> (r matches Ok(t) ==> has_type(env@, *expr, t@)),
{
    let mut ctx = Context::new(env.copy());
    let r = infer(&mut ctx, expr);
    proof {
        if env_vars(env@).is_empty() {
            lemma_env_closed(Map::empty(), env@);
            assert forall|t2: Ty| #[trigger] has_type(env@, *expr, t2) implies has_type(
                apply_env(Map::empty(), env@),
                *expr,
                t2,
            ) by {}
        }
    }
    match r {
        Ok((t, s)) => {
            proof {
                assert(has_type(apply_env(s@, env@), *expr, t@));
                if env_vars(env@).is_empty() {
                    lemma_env_closed(s@, env@);
                }
            }
            Ok(t)
        },
        Err(e) => Err(e),
    }
}

} // verus!
