//! The typing relation that inference results satisfy, and facts about substitutions on
//! environments.
use vstd::prelude::*;
use crate::types::{Ty, vars, int_ty, bool_ty};
use crate::subst::{
    apply, compose_map, range_vars, lemma_apply_compose, lemma_apply_empty, lemma_apply_vars,
    lemma_apply_unbound,
};
use crate::context::apply_env;
use crate::infer::Expr;
use crate::unify::{confined, more_general};

verus! {

/// The type variables that occur in the types that `e` binds.
pub open spec fn env_vars(e: Map<Seq<char>, Ty>) -> Set<u64> {
    Set::new(|v: u64| exists|k: Seq<char>| e.contains_key(k) && #[trigger] vars(e[k]).contains(v))
}

/// The variables `a <= v < b`.
pub open spec fn span(a: int, b: int) -> Set<u64> {
    Set::new(|v: u64| a <= v < b)
}

/// A typing derivation: the shape of `e` with the argument type chosen at each application.
pub enum Deriv {
    Leaf,
    Func(Box<Deriv>),
    Call(Ty, Box<Deriv>, Box<Deriv>),
    Cond(Box<Deriv>, Box<Deriv>, Box<Deriv>),
}

/// `d` derives that `e` has type `t` under the bindings `env`.
pub open spec fn derives(env: Map<Seq<char>, Ty>, e: Expr, t: Ty, d: Deriv) -> bool
    decreases e,
{
    match e {
        Expr::EInt { .. } => t == int_ty(),
        Expr::EBool { .. } => t == bool_ty(),
        Expr::EVar { name } => env.contains_key(name@) && env[name@] == t,
        Expr::EFunc { param, body } => match (t, d) {
            (Ty::Fun(p, r), Deriv::Func(db)) => derives(env.insert(param@, *p), *body, *r, *db),
            _ => false,
        },
        Expr::ECall { func, arg } => match d {
            Deriv::Call(a, df, da) => {
                &&& derives(env, *func, Ty::Fun(Box::new(a), Box::new(t)), *df)
                &&& derives(env, *arg, a, *da)
            },
            _ => false,
        },
        Expr::ECond { cond, true_branch, false_branch } => match d {
            Deriv::Cond(dc, dt, df) => {
                &&& derives(env, *cond, bool_ty(), *dc)
                &&& derives(env, *true_branch, t, *dt)
                &&& derives(env, *false_branch, t, *df)
            },
            _ => false,
        },
    }
}

/// Under the bindings `env`, the expression `e` can have the type `t`.
pub open spec fn has_type(env: Map<Seq<char>, Ty>, e: Expr, t: Ty) -> bool {
    exists|d: Deriv| #[trigger] derives(env, e, t, d)
}

/// The derivation `d` with `s` applied to each argument type.
pub open spec fn apply_deriv(s: Map<u64, Ty>, d: Deriv) -> Deriv
    decreases d,
{
    match d {
        Deriv::Leaf => Deriv::Leaf,
        Deriv::Func(db) => Deriv::Func(Box::new(apply_deriv(s, *db))),
        Deriv::Call(a, df, da) => Deriv::Call(
            apply(s, a),
            Box::new(apply_deriv(s, *df)),
            Box::new(apply_deriv(s, *da)),
        ),
        Deriv::Cond(dc, dt, df) => Deriv::Cond(
            Box::new(apply_deriv(s, *dc)),
            Box::new(apply_deriv(s, *dt)),
            Box::new(apply_deriv(s, *df)),
        ),
    }
}

/// The facts that a successful inference of `e` under `env`, minting the variables from `n0`
/// up to `n1`, establishes of its type `t` and substitution `s`: `e` has type `t` under `env`
/// with `s` applied, and `s` and `t` mention only variables of `env` and newly minted ones,
/// with no variable bound in `s` left in `t` or in an image of `s`.
pub open spec fn typed_result(
    env: Map<Seq<char>, Ty>,
    n0: int,
    n1: int,
    e: Expr,
    t: Ty,
    s: Map<u64, Ty>,
) -> bool {
    let w = env_vars(env).union(span(n0, n1));
    &&& confined(s, w)
    &&& vars(t).subset_of(w)
    &&& vars(t).disjoint(s.dom())
    &&& has_type(apply_env(s, env), e, t)
}

pub proof fn lemma_env_apply_vars(s: Map<u64, Ty>, e: Map<Seq<char>, Ty>)
    ensures
        env_vars(apply_env(s, e)).subset_of(env_vars(e).difference(s.dom()).union(range_vars(s))),
{
    assert forall|v: u64| env_vars(apply_env(s, e)).contains(v) implies env_vars(e).difference(
        s.dom(),
    ).union(range_vars(s)).contains(v) by {
        let k = choose|k: Seq<char>|
            apply_env(s, e).contains_key(k) && #[trigger] vars(apply_env(s, e)[k]).contains(v);
        lemma_apply_vars(s, e[k]);
        if vars(e[k]).contains(v) {
            assert(env_vars(e).contains(v));
        }
    }
}

pub proof fn lemma_env_insert_vars(e: Map<Seq<char>, Ty>, x: Seq<char>, t: Ty)
    ensures
        env_vars(e.insert(x, t)).subset_of(env_vars(e).union(vars(t))),
{
    assert forall|v: u64| env_vars(e.insert(x, t)).contains(v) implies env_vars(e).union(
        vars(t),
    ).contains(v) by {
        let k = choose|k: Seq<char>|
            e.insert(x, t).contains_key(k) && #[trigger] vars(e.insert(x, t)[k]).contains(v);
        if k != x {
            assert(vars(e[k]).contains(v));
        }
    }
}

pub proof fn lemma_env_compose(s1: Map<u64, Ty>, s2: Map<u64, Ty>, e: Map<Seq<char>, Ty>)
    requires
        s1.dom().disjoint(s2.dom()),
    ensures
        apply_env(compose_map(s1, s2), e) == apply_env(s2, apply_env(s1, e)),
{
    assert forall|k: Seq<char>| e.contains_key(k) implies apply(compose_map(s1, s2), e[k]) == apply(
        s2,
        apply(s1, e[k]),
    ) by {
        lemma_apply_compose(s1, s2, e[k]);
    }
    assert(apply_env(compose_map(s1, s2), e) =~= apply_env(s2, apply_env(s1, e)));
}

pub proof fn lemma_env_empty(e: Map<Seq<char>, Ty>)
    ensures
        apply_env(Map::empty(), e) == e,
{
    assert forall|k: Seq<char>| e.contains_key(k) implies apply(Map::empty(), e[k]) == e[k] by {
        lemma_apply_empty(e[k]);
    }
    assert(apply_env(Map::empty(), e) =~= e);
}

proof fn lemma_derives_apply(s: Map<u64, Ty>, env: Map<Seq<char>, Ty>, e: Expr, t: Ty, d: Deriv)
    requires
        derives(env, e, t, d),
    ensures
        derives(apply_env(s, env), e, apply(s, t), apply_deriv(s, d)),
    decreases e,
{
    match e {
        Expr::EFunc { param, body } => {
            if let (Ty::Fun(p, r), Deriv::Func(db)) = (t, d) {
                lemma_derives_apply(s, env.insert(param@, *p), *body, *r, *db);
                assert(apply_env(s, env.insert(param@, *p)) =~= apply_env(s, env).insert(
                    param@,
                    apply(s, *p),
                ));
            }
        },
        Expr::ECall { func, arg } => {
            if let Deriv::Call(a, df, da) = d {
                lemma_derives_apply(s, env, *func, Ty::Fun(Box::new(a), Box::new(t)), *df);
                lemma_derives_apply(s, env, *arg, a, *da);
            }
        },
        Expr::ECond { cond, true_branch, false_branch } => {
            if let Deriv::Cond(dc, dt, df) = d {
                lemma_derives_apply(s, env, *cond, bool_ty(), *dc);
                lemma_derives_apply(s, env, *true_branch, t, *dt);
                lemma_derives_apply(s, env, *false_branch, t, *df);
            }
        },
        _ => {},
    }
}

/// A typing stays valid when a substitution is applied to the bindings and to the type.
pub proof fn lemma_has_type_apply(s: Map<u64, Ty>, env: Map<Seq<char>, Ty>, e: Expr, t: Ty)
    requires
        has_type(env, e, t),
    ensures
        has_type(apply_env(s, env), e, apply(s, t)),
{
    let d = choose|d: Deriv| #[trigger] derives(env, e, t, d);
    lemma_derives_apply(s, env, e, t, d);
}

pub proof fn lemma_func_intro(env: Map<Seq<char>, Ty>, param: String, body: Box<Expr>, p: Ty, r: Ty)
    requires
        has_type(env.insert(param@, p), *body, r),
    ensures
        has_type(env, Expr::EFunc { param, body }, Ty::Fun(Box::new(p), Box::new(r))),
{
    let db = choose|d: Deriv| #[trigger] derives(env.insert(param@, p), *body, r, d);
    let e = Expr::EFunc { param, body };
    assert(derives(env, e, Ty::Fun(Box::new(p), Box::new(r)), Deriv::Func(Box::new(db))));
}

pub proof fn lemma_call_intro(env: Map<Seq<char>, Ty>, func: Box<Expr>, arg: Box<Expr>, a: Ty, t: Ty)
    requires
        has_type(env, *func, Ty::Fun(Box::new(a), Box::new(t))),
        has_type(env, *arg, a),
    ensures
        has_type(env, Expr::ECall { func, arg }, t),
{
    let df = choose|d: Deriv| #[trigger] derives(env, *func, Ty::Fun(Box::new(a), Box::new(t)), d);
    let da = choose|d: Deriv| #[trigger] derives(env, *arg, a, d);
    let e = Expr::ECall { func, arg };
    assert(derives(env, e, t, Deriv::Call(a, Box::new(df), Box::new(da))));
}

pub proof fn lemma_cond_intro(
    env: Map<Seq<char>, Ty>,
    cond: Box<Expr>,
    true_branch: Box<Expr>,
    false_branch: Box<Expr>,
    t: Ty,
)
    requires
        has_type(env, *cond, bool_ty()),
        has_type(env, *true_branch, t),
        has_type(env, *false_branch, t),
    ensures
        has_type(env, Expr::ECond { cond, true_branch, false_branch }, t),
{
    let dc = choose|d: Deriv| #[trigger] derives(env, *cond, bool_ty(), d);
    let dt = choose|d: Deriv| #[trigger] derives(env, *true_branch, t, d);
    let df = choose|d: Deriv| #[trigger] derives(env, *false_branch, t, d);
    let e = Expr::ECond { cond, true_branch, false_branch };
    assert(derives(env, e, t, Deriv::Cond(Box::new(dc), Box::new(dt), Box::new(df))));
}

/// Inference of a literal or a variable reference establishes `typed_result`.
pub proof fn lemma_leaf_typed(env: Map<Seq<char>, Ty>, n0: int, n1: int, e: Expr, t: Ty)
    requires
        e is EInt ==> t == int_ty(),
        e is EBool ==> t == bool_ty(),
        e is EVar ==> env.contains_key(e->name@) && env[e->name@] == t,
        e is EInt || e is EBool || e is EVar,
    ensures
        typed_result(env, n0, n1, e, t, Map::empty()),
{
    lemma_env_empty(env);
    assert(derives(env, e, t, Deriv::Leaf));
    assert(range_vars(Map::<u64, Ty>::empty()) =~= Set::empty());
    if e is EVar {
        assert forall|v: u64| vars(t).contains(v) implies env_vars(env).contains(v) by {
            assert(vars(env[e->name@]).contains(v));
        }
    }
}

pub proof fn lemma_narrow(s: Map<u64, Ty>, env: Map<Seq<char>, Ty>, n0: int, n1: int)
    requires
        env_vars(env).subset_of(span(0, n0)),
        confined(s, env_vars(env).union(span(n0, n1))),
        n0 <= n1,
    ensures
        env_vars(apply_env(s, env)).subset_of(span(0, n1)),
        env_vars(apply_env(s, env)).subset_of(env_vars(env).union(span(n0, n1))),
        env_vars(apply_env(s, env)).disjoint(s.dom()),
{
    lemma_env_apply_vars(s, env);
}

/// A substitution leaves alone bindings that mention no type variable.
pub proof fn lemma_env_closed(s: Map<u64, Ty>, env: Map<Seq<char>, Ty>)
    requires
        env_vars(env).is_empty(),
    ensures
        apply_env(s, env) == env,
{
    assert forall|k: Seq<char>| env.contains_key(k) implies apply(s, env[k]) == env[k] by {
        assert forall|v: u64| vars(env[k]).contains(v) implies !s.dom().contains(v) by {
            assert(env_vars(env).contains(v));
        }
        lemma_apply_unbound(s, env[k]);
    }
    assert(apply_env(s, env) =~= env);
}

/// `u2` after `s` gives what `u` gives, on every type whose variables lie below `n`.
pub open spec fn agrees(u2: Map<u64, Ty>, s: Map<u64, Ty>, u: Map<u64, Ty>, n: int) -> bool {
    forall|x: Ty| vars(x).subset_of(span(0, n)) ==> #[trigger] apply(u2, apply(s, x)) == apply(u, x)
}

pub proof fn lemma_agrees_empty(u: Map<u64, Ty>, n: int)
    ensures
        agrees(u, Map::empty(), u, n),
{
    assert forall|x: Ty| vars(x).subset_of(span(0, n)) implies #[trigger] apply(
        u,
        apply(Map::empty(), x),
    ) == apply(u, x) by {
        lemma_apply_empty(x);
    }
}

pub proof fn lemma_apply_insert_fresh(u: Map<u64, Ty>, v: u64, p: Ty, y: Ty)
    requires
        !vars(y).contains(v),
    ensures
        apply(u.insert(v, p), y) == apply(u, y),
    decreases y,
{
    if let Ty::Fun(a, b) = y {
        lemma_apply_insert_fresh(u, v, p, *a);
        lemma_apply_insert_fresh(u, v, p, *b);
    }
}

pub proof fn lemma_env_insert_fresh(u: Map<u64, Ty>, v: u64, p: Ty, e: Map<Seq<char>, Ty>)
    requires
        !env_vars(e).contains(v),
    ensures
        apply_env(u.insert(v, p), e) == apply_env(u, e),
{
    assert forall|k: Seq<char>| e.contains_key(k) implies apply(u.insert(v, p), e[k]) == apply(
        u,
        e[k],
    ) by {
        if vars(e[k]).contains(v) {
            assert(env_vars(e).contains(v));
        }
        lemma_apply_insert_fresh(u, v, p, e[k]);
    }
    assert(apply_env(u.insert(v, p), e) =~= apply_env(u, e));
}

pub proof fn lemma_env_agrees(u2: Map<u64, Ty>, s: Map<u64, Ty>, u: Map<u64, Ty>, n: int, e: Map<Seq<char>, Ty>)
    requires
        agrees(u2, s, u, n),
        env_vars(e).subset_of(span(0, n)),
    ensures
        apply_env(u2, apply_env(s, e)) == apply_env(u, e),
{
    assert forall|k: Seq<char>| e.contains_key(k) implies apply(u2, apply(s, e[k])) == apply(u, e[k]) by {
        assert forall|v: u64| vars(e[k]).contains(v) implies span(0, n).contains(v) by {
            assert(env_vars(e).contains(v));
        }
    }
    assert(apply_env(u2, apply_env(s, e)) =~= apply_env(u, e));
}

/// The variables left after applying `s` to a type of variables below `n0` lie below `n1`.
pub proof fn lemma_apply_below(s: Map<u64, Ty>, x: Ty, w: Set<u64>, n0: int, n1: int)
    requires
        confined(s, w),
        w.subset_of(span(0, n1)),
        vars(x).subset_of(span(0, n0)),
        n0 <= n1,
    ensures
        vars(apply(s, x)).subset_of(span(0, n1)),
{
    lemma_apply_vars(s, x);
}

pub proof fn lemma_func_inv(env: Map<Seq<char>, Ty>, param: String, body: Box<Expr>, t: Ty)
    requires
        has_type(env, Expr::EFunc { param, body }, t),
    ensures
        t is Fun,
        has_type(env.insert(param@, *t->Fun_0), *body, *t->Fun_1),
{
    let d = choose|d: Deriv| #[trigger] derives(env, Expr::EFunc { param, body }, t, d);
    if let Deriv::Func(db) = d {
        assert(derives(env.insert(param@, *t->Fun_0), *body, *t->Fun_1, *db));
    }
}

pub proof fn lemma_call_inv(env: Map<Seq<char>, Ty>, func: Box<Expr>, arg: Box<Expr>, t: Ty) -> (a: Ty)
    requires
        has_type(env, Expr::ECall { func, arg }, t),
    ensures
        has_type(env, *func, Ty::Fun(Box::new(a), Box::new(t))),
        has_type(env, *arg, a),
{
    let d = choose|d: Deriv| #[trigger] derives(env, Expr::ECall { func, arg }, t, d);
    let a = d->Call_0;
    assert(derives(env, *func, Ty::Fun(Box::new(a), Box::new(t)), *d->Call_1));
    assert(derives(env, *arg, a, *d->Call_2));
    a
}

pub proof fn lemma_cond_inv(
    env: Map<Seq<char>, Ty>,
    cond: Box<Expr>,
    true_branch: Box<Expr>,
    false_branch: Box<Expr>,
    t: Ty,
)
    requires
        has_type(env, Expr::ECond { cond, true_branch, false_branch }, t),
    ensures
        has_type(env, *cond, bool_ty()),
        has_type(env, *true_branch, t),
        has_type(env, *false_branch, t),
{
    let d = choose|d: Deriv| #[trigger] derives(env, Expr::ECond { cond, true_branch, false_branch }, t, d);
    if let Deriv::Cond(dc, dt, df) = d {
        assert(derives(env, *cond, bool_ty(), *dc));
        assert(derives(env, *true_branch, t, *dt));
        assert(derives(env, *false_branch, t, *df));
    }
}

/// An instance that agrees through `acc` extends through a later step `s` that it agrees with.
pub proof fn lemma_agrees_extend(
    u: Map<u64, Ty>,
    u1: Map<u64, Ty>,
    u3: Map<u64, Ty>,
    acc: Map<u64, Ty>,
    s: Map<u64, Ty>,
    w: Set<u64>,
    n0: int,
    n1: int,
)
    requires
        agrees(u1, acc, u, n0),
        agrees(u3, s, u1, n1),
        confined(acc, w),
        w.subset_of(span(0, n1)),
        acc.dom().disjoint(s.dom()),
        n0 <= n1,
    ensures
        agrees(u3, compose_map(acc, s), u, n0),
{
    assert forall|x: Ty| vars(x).subset_of(span(0, n0)) implies #[trigger] apply(
        u3,
        apply(compose_map(acc, s), x),
    ) == apply(u, x) by {
        lemma_apply_compose(acc, s, x);
        lemma_apply_below(acc, x, w, n0, n1);
        assert(apply(u3, apply(s, apply(acc, x))) == apply(u1, apply(acc, x)));
        assert(apply(u1, apply(acc, x)) == apply(u, x));
    }
}

/// An instance that agrees through `acc` extends through a later step that it is an instance of.
pub proof fn lemma_agrees_extend_general(
    u: Map<u64, Ty>,
    u1: Map<u64, Ty>,
    acc: Map<u64, Ty>,
    s: Map<u64, Ty>,
    n0: int,
)
    requires
        agrees(u1, acc, u, n0),
        more_general(s, u1),
        acc.dom().disjoint(s.dom()),
    ensures
        agrees(u1, compose_map(acc, s), u, n0),
{
    assert forall|x: Ty| vars(x).subset_of(span(0, n0)) implies #[trigger] apply(
        u1,
        apply(compose_map(acc, s), x),
    ) == apply(u, x) by {
        lemma_apply_compose(acc, s, x);
        assert(apply(u1, apply(s, apply(acc, x))) == apply(u1, apply(acc, x)));
        assert(apply(u1, apply(acc, x)) == apply(u, x));
    }
}

/// Binding a variable that no image reaches keeps an instance in agreement.
pub proof fn lemma_agrees_fresh(
    u1: Map<u64, Ty>,
    u2: Map<u64, Ty>,
    s: Map<u64, Ty>,
    w: Set<u64>,
    n1: int,
    n2: int,
    v: u64,
    p: Ty,
)
    requires
        agrees(u2, s, u1, n1),
        confined(s, w),
        w.subset_of(span(0, n2)),
        n1 <= n2,
        v >= n2,
    ensures
        agrees(u2.insert(v, p), s, u1, n1),
{
    assert forall|x: Ty| vars(x).subset_of(span(0, n1)) implies #[trigger] apply(
        u2.insert(v, p),
        apply(s, x),
    ) == apply(u1, x) by {
        lemma_apply_below(s, x, w, n1, n2);
        lemma_apply_insert_fresh(u2, v, p, apply(s, x));
        assert(apply(u2, apply(s, x)) == apply(u1, x));
    }
}

} // verus!
