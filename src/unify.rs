//! Unification of two types.
use vstd::prelude::*;
use vstd::set_lib::*;
use crate::infer::{Expr, free_in};
use crate::types::{
    Type, Ty, TypeError, vars, size, lemma_vars_finite, copy_type, occurs_in, bool_ty,
};
use crate::subst::{
    Substitution, apply, compose_map, range_vars, compose, lemma_apply_empty, lemma_apply_compose,
    lemma_apply_unbound, lemma_apply_vars,
};

verus! {

/// The variables of two types together.
pub open spec fn vars2(a: Ty, b: Ty) -> Set<u64> {
    vars(a).union(vars(b))
}

/// `s` binds and mentions only variables of `vs`, and no bound variable occurs in an image.
pub open spec fn confined(s: Map<u64, Ty>, vs: Set<u64>) -> bool {
    &&& s.dom().subset_of(vs)
    &&& range_vars(s).subset_of(vs)
    &&& s.dom().disjoint(range_vars(s))
}

/// `s` makes `a` and `b` equal.
pub open spec fn unifies(s: Map<u64, Ty>, a: Ty, b: Ty) -> bool {
    apply(s, a) == apply(s, b)
}

/// Every type that `u` gives is also what `u` gives after `s`: `u` is an instance of `s`.
pub open spec fn more_general(s: Map<u64, Ty>, u: Map<u64, Ty>) -> bool {
    forall|x: Ty| #[trigger] apply(u, apply(s, x)) == apply(u, x)
}

/// What a unification error establishes: the types it names have no common instance, or the
/// variable occurs in the type it would have to equal.
pub open spec fn unify_error_justified(e: TypeError) -> bool {
    match e {
        TypeError::TypeMismatch(a, b) => forall|u: Map<u64, Ty>| !#[trigger] unifies(u, a@, b@),
        TypeError::OccursCheckFailure(v, t) => vars(t@).contains(v) && t@ != Ty::Var(v),
        _ => false,
    }
}

/// What an inference error establishes of the expression `x` under the bindings `env`: a
/// missing name occurs free in `x` and `env` does not bind it; the types that the other errors
/// name have no common instance, or the variable occurs in the type it would have to equal, or
/// the condition's type has no boolean instance.
pub open spec fn error_justified(env: Map<Seq<char>, Ty>, x: Expr, e: TypeError) -> bool {
    match e {
        TypeError::UndeclaredVariable(n) => free_in(x, n@) && !env.contains_key(n@),
        TypeError::TypeMismatch(a, b) => forall|u: Map<u64, Ty>| !#[trigger] unifies(u, a@, b@),
        TypeError::OccursCheckFailure(v, t) => vars(t@).contains(v) && t@ != Ty::Var(v),
        TypeError::ConditionNotBoolean(t) => forall|u: Map<u64, Ty>|
            #[trigger] apply(u, t@) != bool_ty(),
        TypeError::BranchTypeMismatch(a, b) => forall|u: Map<u64, Ty>|
            !#[trigger] unifies(u, a@, b@),
    }
}

/// The outcome of unifying the variable `v` with `t`.
pub open spec fn bind_outcome(v: u64, t: Ty, r: Result<Substitution, TypeError>) -> bool {
    if t == Ty::Var(v) {
        r matches Ok(s) && s@ == Map::<u64, Ty>::empty()
    } else if vars(t).contains(v) {
        r matches Err(TypeError::OccursCheckFailure(w, u)) && w == v && u@ == t
    } else {
        r matches Ok(s) && s@ == Map::<u64, Ty>::empty().insert(v, t)
    }
}

/// The outcome of unifying two types of which neither is a variable nor both are functions.
pub open spec fn mismatch_outcome(a: Ty, b: Ty, r: Result<Substitution, TypeError>) -> bool {
    if a == b {
        r matches Ok(s) && s@ == Map::<u64, Ty>::empty()
    } else {
        r matches Err(TypeError::TypeMismatch(x, y)) && x@ == a && y@ == b
    }
}

fn bind_var(v: u64, t: &Type) -> (r: Result<Substitution, TypeError>)
    ensures
        bind_outcome(v, t@, r),
{
    if let Type::TVar(w) = t {
        if *w == v {
            return Ok(Substitution::new());
        }
    }
    if occurs_in(v, t) {
        Err(TypeError::OccursCheckFailure(v, copy_type(t)))
    } else {
        Ok(Substitution::singleton(v, copy_type(t)))
    }
}

proof fn lemma_bind_sound(v: u64, t: Ty, s: Map<u64, Ty>)
    requires
        t != Ty::Var(v),
        !vars(t).contains(v),
        s == Map::<u64, Ty>::empty().insert(v, t),
    ensures
        unifies(s, Ty::Var(v), t),
        confined(s, vars2(Ty::Var(v), t)),
{
    lemma_apply_unbound(s, t);
    assert(s.dom() =~= set![v]);
    assert forall|x: u64| range_vars(s).contains(x) implies vars(t).contains(x) by {
        let k = choose|k: u64| s.contains_key(k) && #[trigger] vars(s[k]).contains(x);
    }
    assert forall|x: u64| vars(t).contains(x) implies range_vars(s).contains(x) by {
        assert(vars(s[v]).contains(x));
    }
}

pub proof fn lemma_compose_confined(s1: Map<u64, Ty>, s2: Map<u64, Ty>, vs: Set<u64>, ws: Set<u64>)
    requires
        confined(s1, vs),
        confined(s2, ws),
        ws.subset_of(vs),
        ws.disjoint(s1.dom()),
    ensures
        confined(compose_map(s1, s2), vs),
{
    let c = compose_map(s1, s2);
    assert forall|x: u64| range_vars(c).contains(x) implies vs.contains(x) && !c.dom().contains(x) by {
        let k = choose|k: u64| c.contains_key(k) && #[trigger] vars(c[k]).contains(x);
        if s2.contains_key(k) {
            assert(range_vars(s2).contains(x));
        } else {
            lemma_apply_vars(s2, s1[k]);
            if vars(s1[k]).contains(x) {
                assert(range_vars(s1).contains(x));
            } else {
                assert(range_vars(s2).contains(x));
            }
        }
    }
}

proof fn lemma_bind_general(v: u64, t: Ty, u: Map<u64, Ty>, x: Ty)
    requires
        apply(u, Ty::Var(v)) == apply(u, t),
    ensures
        apply(u, apply(Map::<u64, Ty>::empty().insert(v, t), x)) == apply(u, x),
    decreases x,
{
    if let Ty::Fun(a, b) = x {
        lemma_bind_general(v, t, u, *a);
        lemma_bind_general(v, t, u, *b);
    }
}

proof fn lemma_empty_general(u: Map<u64, Ty>)
    ensures
        more_general(Map::<u64, Ty>::empty(), u),
{
    assert forall|x: Ty| #[trigger] apply(u, apply(Map::<u64, Ty>::empty(), x)) == apply(u, x) by {
        lemma_apply_empty(x);
    }
}

proof fn lemma_occurs_size(u: Map<u64, Ty>, v: u64, t: Ty)
    requires
        vars(t).contains(v),
    ensures
        size(apply(u, t)) >= size(apply(u, Ty::Var(v))),
        t != Ty::Var(v) ==> size(apply(u, t)) > size(apply(u, Ty::Var(v))),
    decreases t,
{
    if let Ty::Fun(a, b) = t {
        if vars(*a).contains(v) {
            lemma_occurs_size(u, v, *a);
        } else {
            lemma_occurs_size(u, v, *b);
        }
    }
}

proof fn lemma_compose_general(s1: Map<u64, Ty>, s2: Map<u64, Ty>, u: Map<u64, Ty>)
    requires
        s1.dom().disjoint(s2.dom()),
        more_general(s1, u),
        more_general(s2, u),
    ensures
        more_general(compose_map(s1, s2), u),
{
    assert forall|x: Ty| #[trigger] apply(u, apply(compose_map(s1, s2), x)) == apply(u, x) by {
        lemma_apply_compose(s1, s2, x);
        assert(apply(u, apply(s2, apply(s1, x))) == apply(u, apply(s1, x)));
        assert(apply(u, apply(s1, x)) == apply(u, x));
    }
}

proof fn lemma_bind_complete(v: u64, t: Ty, r: Result<Substitution, TypeError>)
    requires
        bind_outcome(v, t, r),
    ensures
        r matches Ok(s) ==> forall|u: Map<u64, Ty>|
            apply(u, Ty::Var(v)) == apply(u, t) ==> #[trigger] more_general(s@, u),
        r is Err ==> forall|u: Map<u64, Ty>| #[trigger] apply(u, Ty::Var(v)) != apply(u, t),
{
    if r is Ok {
        assert forall|u: Map<u64, Ty>| apply(u, Ty::Var(v)) == apply(u, t) implies #[trigger] more_general(
            r->Ok_0@,
            u,
        ) by {
            if t == Ty::Var(v) {
                lemma_empty_general(u);
            } else {
                assert forall|x: Ty| #[trigger] apply(u, apply(r->Ok_0@, x)) == apply(u, x) by {
                    lemma_bind_general(v, t, u, x);
                }
            }
        }
    } else {
        assert forall|u: Map<u64, Ty>| #[trigger] apply(u, Ty::Var(v)) != apply(u, t) by {
            lemma_occurs_size(u, v, t);
        }
    }
}

/// Returns a substitution that makes `t1` and `t2` equal, or why there is none.
pub fn unify(t1: &Type, t2: &Type) -> (r: Result<Substitution, TypeError>)
    ensures
        r matches Ok(s) ==> unifies(s@, t1@, t2@) && confined(s@, vars2(t1@, t2@)),
        r matches Ok(s) ==> forall|u: Map<u64, Ty>|
            unifies(u, t1@, t2@) ==> #[trigger] more_general(s@, u),
        r is Err ==> forall|u: Map<u64, Ty>| !#[trigger] unifies(u, t1@, t2@),
        r matches Err(e) ==> unify_error_justified(e),
        t1@ == t2@ ==> (r matches Ok(s) && s@ == Map::<u64, Ty>::empty()),
        t1@ is Var ==> bind_outcome(t1@->Var_0, t2@, r),
        t1@ !is Var && t2@ is Var ==> bind_outcome(t2@->Var_0, t1@, r),
        t1@ !is Var && t2@ !is Var && !(t1@ is Fun && t2@ is Fun) ==> mismatch_outcome(
            t1@,
            t2@,
            r,
        ),
    decreases vars2(t1@, t2@).len(), size(t1@) + size(t2@),
{
    proof {
        lemma_vars_finite(t1@);
        lemma_vars_finite(t2@);
    }
    match t1 {
        Type::TVar(v) => {
            let r = bind_var(*v, t2);
            proof {
                if r is Ok && t2@ != Ty::Var(*v) {
                    lemma_bind_sound(*v, t2@, r->Ok_0@);
                }
                if r is Ok && t2@ == Ty::Var(*v) {
                    lemma_apply_empty(t2@);
                }
                lemma_bind_complete(*v, t2@, r);
                assert forall|u: Map<u64, Ty>| #[trigger] unifies(u, t1@, t2@) implies apply(
                    u,
                    Ty::Var(*v),
                ) == apply(u, t2@) by {}
            }
            return r;
        },
        _ => {},
    }
    match t2 {
        Type::TVar(v) => {
            let r = bind_var(*v, t1);
            proof {
                if r is Ok && t1@ != Ty::Var(*v) {
                    lemma_bind_sound(*v, t1@, r->Ok_0@);
                }
                lemma_bind_complete(*v, t1@, r);
                assert forall|u: Map<u64, Ty>| #[trigger] unifies(u, t1@, t2@) implies apply(
                    u,
                    Ty::Var(*v),
                ) == apply(u, t1@) by {}
            }
            return r;
        },
        _ => {},
    }
    match (t1, t2) {
        (Type::TFun { from: p1, to: r1 }, Type::TFun { from: p2, to: r2 }) => {
            proof {
                lemma_vars_finite(p1@);
                lemma_vars_finite(p2@);
                assert(vars2(p1@, p2@).subset_of(vars2(t1@, t2@)));
                lemma_len_subset(vars2(p1@, p2@), vars2(t1@, t2@));
            }
            let s1 = match unify(p1, p2) {
                Ok(s) => s,
                Err(e) => {
                    proof {
                        assert forall|u: Map<u64, Ty>| !#[trigger] unifies(u, t1@, t2@) by {
                            if unifies(u, t1@, t2@) {
                                assert(unifies(u, p1@, p2@));
                            }
                        }
                    }
                    return Err(e);
                },
            };
            let a1 = apply_to_subst_ref(&s1, r1);
            let a2 = apply_to_subst_ref(&s1, r2);
            let ghost vs = vars2(t1@, t2@);
            let ghost ws = vars2(a1@, a2@);
            proof {
                lemma_apply_vars(s1@, r1@);
                lemma_apply_vars(s1@, r2@);
                lemma_vars_finite(a1@);
                lemma_vars_finite(a2@);
                assert(ws.subset_of(vs));
                assert(ws.disjoint(s1@.dom()));
                if s1@.dom().len() == 0 {
                    assert(s1@ =~= Map::<u64, Ty>::empty());
                    lemma_apply_empty(r1@);
                    lemma_apply_empty(r2@);
                    lemma_len_subset(ws, vs);
                } else {
                    let k = s1@.dom().choose();
                    assert(s1@.dom().contains(k));
                    assert(vs.contains(k) && !ws.contains(k));
                    lemma_len_subset(ws, vs.remove(k));
                }
            }
            let s2 = match unify(&a1, &a2) {
                Ok(s) => s,
                Err(e) => {
                    proof {
                        assert forall|u: Map<u64, Ty>| !#[trigger] unifies(u, t1@, t2@) by {
                            if unifies(u, t1@, t2@) {
                                assert(unifies(u, p1@, p2@));
                                assert(more_general(s1@, u));
                                assert(apply(u, apply(s1@, r1@)) == apply(u, r1@));
                                assert(apply(u, apply(s1@, r2@)) == apply(u, r2@));
                                assert(unifies(u, a1@, a2@));
                            }
                        }
                    }
                    return Err(e);
                },
            };
            let c = compose(&s1, &s2);
            proof {
                lemma_compose_confined(s1@, s2@, vs, ws);
                lemma_apply_compose(s1@, s2@, p1@);
                lemma_apply_compose(s1@, s2@, p2@);
                lemma_apply_compose(s1@, s2@, r1@);
                lemma_apply_compose(s1@, s2@, r2@);
                if t1@ == t2@ {
                    assert(c@ =~= Map::<u64, Ty>::empty());
                }
                assert forall|u: Map<u64, Ty>| unifies(u, t1@, t2@) implies #[trigger] more_general(
                    c@,
                    u,
                ) by {
                    assert(unifies(u, p1@, p2@));
                    assert(more_general(s1@, u));
                    assert(apply(u, apply(s1@, r1@)) == apply(u, r1@));
                    assert(apply(u, apply(s1@, r2@)) == apply(u, r2@));
                    assert(unifies(u, a1@, a2@));
                    assert(more_general(s2@, u));
                    lemma_compose_general(s1@, s2@, u);
                }
            }
            Ok(c)
        },
        _ => {
            if same_named(t1, t2) {
                let r = Substitution::new();
                proof {
                    assert forall|u: Map<u64, Ty>| unifies(u, t1@, t2@) implies #[trigger] more_general(
                        r@,
                        u,
                    ) by {
                        lemma_empty_general(u);
                    }
                }
                Ok(r)
            } else {
                Err(TypeError::TypeMismatch(copy_type(t1), copy_type(t2)))
            }
        },
    }
}

fn same_named(a: &Type, b: &Type) -> (r: bool)
    ensures
        r == (a@ == b@ && a@ is Named),
{
    match (a, b) {
        (Type::TNamed(x), Type::TNamed(y)) => *x == *y,
        _ => false,
    }
}

fn apply_to_subst_ref(s: &Substitution, t: &Type) -> (r: Type)
    ensures
        r@ == apply(s@, t@),
{
    crate::subst::apply_to_subst(s, copy_type(t))
}

} // verus!
