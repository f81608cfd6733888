//! Types, their mathematical model, and basic facts about free variables.
use vstd::prelude::*;

verus! {

/// A type: a named base type, a type variable, or a function type.
#[derive(Debug, PartialEq)]
pub enum Type {
    TNamed(String),
    TVar(u64),
    TFun { from: Box<Type>, to: Box<Type> },
}

/// Why inference failed.
#[derive(Debug, PartialEq)]
pub enum TypeError {
    /// A variable is referenced that no binding declares.
    UndeclaredVariable(String),
    /// Two types that cannot be made equal: the expected one and the actual one.
    TypeMismatch(Type, Type),
    /// A variable would have to equal a type that contains it.
    OccursCheckFailure(u64, Type),
    /// The condition of a conditional is not a boolean.
    ConditionNotBoolean(Type),
    /// The two branches of a conditional have incompatible types.
    BranchTypeMismatch(Type, Type),
}

/// The mathematical model of a `Type`.
pub enum Ty {
    Named(Seq<char>),
    Var(u64),
    Fun(Box<Ty>, Box<Ty>),
}

impl Type {
    pub open spec fn ty(self) -> Ty
        decreases self,
    {
        match self {
            Type::TNamed(n) => Ty::Named(n@),
            Type::TVar(v) => Ty::Var(v),
            Type::TFun { from, to } => Ty::Fun(Box::new((*from).ty()), Box::new((*to).ty())),
        }
    }
}

impl View for Type {
    type V = Ty;

    open spec fn view(&self) -> Ty {
        self.ty()
    }
}

/// The type variables that occur in `t`.
pub open spec fn vars(t: Ty) -> Set<u64>
    decreases t,
{
    match t {
        Ty::Named(_) => Set::empty(),
        Ty::Var(v) => set![v],
        Ty::Fun(a, b) => vars(*a).union(vars(*b)),
    }
}

/// The number of nodes of `t`.
pub open spec fn size(t: Ty) -> nat
    decreases t,
{
    match t {
        Ty::Named(_) => 1,
        Ty::Var(_) => 1,
        Ty::Fun(a, b) => 1 + size(*a) + size(*b),
    }
}

pub proof fn lemma_vars_finite(t: Ty)
    ensures
        vars(t).finite(),
    decreases t,
{
    if let Ty::Fun(a, b) = t {
        lemma_vars_finite(*a);
        lemma_vars_finite(*b);
    }
}

pub open spec fn int_ty() -> Ty {
    Ty::Named(seq!['I', 'n', 't'])
}

pub open spec fn bool_ty() -> Ty {
    Ty::Named(seq!['B', 'o', 'o', 'l'])
}

/// A deep copy of `t`.
pub fn copy_type(t: &Type) -> (r: Type)
    ensures
        r == *t,
        r@ == t@,
    decreases t,
{
    match t {
        Type::TNamed(n) => Type::TNamed(n.clone()),
        Type::TVar(v) => Type::TVar(*v),
        Type::TFun { from, to } => Type::TFun {
            from: Box::new(copy_type(from)),
            to: Box::new(copy_type(to)),
        },
    }
}

impl Clone for Type {
    fn clone(&self) -> (r: Type)
        ensures
            r == *self,
    {
        copy_type(self)
    }
}

/// The least bound that is at least `b` and above every variable of `t`.
pub fn var_bound(t: &Type, b: u64) -> (r: u64)
    requires
        !vars(t@).contains(u64::MAX),
    ensures
        r >= b,
        forall|v: u64| vars(t@).contains(v) ==> v < r,
        r == b || vars(t@).contains((r - 1) as u64),
    decreases t,
{
    match t {
        Type::TNamed(_) => b,
        Type::TVar(v) => if *v >= b {
            *v + 1
        } else {
            b
        },
        Type::TFun { from, to } => {
            let r1 = var_bound(from, b);
            var_bound(to, r1)
        },
    }
}

/// Whether the variable `v` occurs in `t`.
pub fn occurs_in(v: u64, t: &Type) -> (r: bool)
    ensures
        r == vars(t@).contains(v),
    decreases t,
{
    match t {
        Type::TNamed(_) => false,
        Type::TVar(w) => *w == v,
        Type::TFun { from, to } => occurs_in(v, from) || occurs_in(v, to),
    }
}

/// The built-in integer type.
pub fn int_type() -> (r: Type)
    ensures
        r@ == int_ty(),
{
    let r = Type::TNamed("Int".to_owned());
    proof {
        reveal_strlit("Int");
        assert("Int"@ =~= seq!['I', 'n', 't']);
    }
    r
}

/// The built-in boolean type.
pub fn bool_type() -> (r: Type)
    ensures
        r@ == bool_ty(),
{
    let r = Type::TNamed("Bool".to_owned());
    proof {
        reveal_strlit("Bool");
        assert("Bool"@ =~= seq!['B', 'o', 'o', 'l']);
    }
    r
}

} // verus!
