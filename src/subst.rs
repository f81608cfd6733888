//! Substitutions from type variables to types: application and composition.
use vstd::prelude::*;
use crate::types::{Type, Ty, vars, copy_type};

verus! {

/// The result of replacing each variable of `t` bound in `s` by its image.
pub open spec fn apply(s: Map<u64, Ty>, t: Ty) -> Ty
    decreases t,
{
    match t {
        Ty::Named(_) => t,
        Ty::Var(v) => if s.contains_key(v) {
            s[v]
        } else {
            t
        },
        Ty::Fun(a, b) => Ty::Fun(Box::new(apply(s, *a)), Box::new(apply(s, *b))),
    }
}

/// The substitution that applies `s1` and then `s2`; a binding of `s2` wins over one of `s1`.
pub open spec fn compose_map(s1: Map<u64, Ty>, s2: Map<u64, Ty>) -> Map<u64, Ty> {
    Map::new(
        |k: u64| s1.contains_key(k) || s2.contains_key(k),
        |k: u64|
            if s2.contains_key(k) {
                s2[k]
            } else {
                apply(s2, s1[k])
            },
    )
}

/// The variables that occur in the images of `s`.
pub open spec fn range_vars(s: Map<u64, Ty>) -> Set<u64> {
    Set::new(|v: u64| exists|k: u64| s.contains_key(k) && #[trigger] vars(s[k]).contains(v))
}

/// A finite map from type variables to types, one binding per variable. It is kept fully
/// resolved: no bound variable occurs in an image, so a chain such as `a -> b, b -> Int` never
/// stands in it. Where inference discovers `a -> b` first and `b -> Int` later, composition
/// rewrites the earlier image and holds `a -> Int, b -> Int`; applying it once resolves `a` to
/// `Int`, as transitive resolution would.
pub struct Substitution {
    entries: Vec<(u64, Type)>,
}

spec fn unique_keys(es: Seq<(u64, Type)>) -> bool {
    forall|i: int, j: int| 0 <= i < j < es.len() ==> es[i].0 != es[j].0
}

spec fn index_in(es: Seq<(u64, Type)>, k: u64) -> int {
    choose|i: int| 0 <= i < es.len() && es[i].0 == k
}

spec fn map_of(es: Seq<(u64, Type)>) -> Map<u64, Ty> {
    Map::new(
        |k: u64| exists|i: int| 0 <= i < es.len() && es[i].0 == k,
        |k: u64| es[index_in(es, k)].1@,
    )
}

proof fn lemma_entry_in(es: Seq<(u64, Type)>, i: int)
    requires
        unique_keys(es),
        0 <= i < es.len(),
    ensures
        map_of(es).contains_key(es[i].0),
        map_of(es)[es[i].0] == es[i].1@,
{
    let k = es[i].0;
    assert(es[i].0 == k);
    let j = index_in(es, k);
    assert(j == i);
}

/// No variable bound in `s` occurs in an image of `s`: applying `s` once resolves every
/// bound variable, and applying it again changes nothing.
pub open spec fn idempotent(s: Map<u64, Ty>) -> bool {
    s.dom().disjoint(range_vars(s))
}

impl Substitution {
    #[verifier::type_invariant]
    spec fn well_formed(&self) -> bool {
        &&& unique_keys(self.entries@)
        &&& idempotent(map_of(self.entries@))
    }

    spec fn keys_unique(&self) -> bool {
        unique_keys(self.entries@)
    }

    spec fn index_of(&self, k: u64) -> int {
        index_in(self.entries@, k)
    }

    proof fn lemma_entry(&self, i: int)
        requires
            self.keys_unique(),
            0 <= i < self.entries.len(),
        ensures
            self@.contains_key(self.entries[i].0),
            self@[self.entries[i].0] == self.entries[i].1@,
    {
        lemma_entry_in(self.entries@, i);
    }

    /// The substitution with no bindings.
    pub fn new() -> (r: Substitution)
        ensures
            r@ == Map::<u64, Ty>::empty(),
    {
        let entries: Vec<(u64, Type)> = Vec::new();
        proof {
            assert(map_of(entries@) =~= Map::<u64, Ty>::empty());
            assert(range_vars(Map::<u64, Ty>::empty()) =~= Set::empty());
        }
        Substitution { entries }
    }

    /// The substitution that binds `v` to `t` alone, where `v` does not occur in `t`.
    pub fn singleton(v: u64, t: Type) -> (r: Substitution)
        requires
            !vars(t@).contains(v),
        ensures
            r@ == Map::<u64, Ty>::empty().insert(v, t@),
    {
        let ghost tv = t@;
        let mut entries: Vec<(u64, Type)> = Vec::new();
        entries.push((v, t));
        proof {
            lemma_entry_in(entries@, 0);
            let m = Map::<u64, Ty>::empty().insert(v, tv);
            assert(map_of(entries@) =~= m);
            assert forall|x: u64| range_vars(m).contains(x) implies vars(tv).contains(x) by {
                let k = choose|k: u64| m.contains_key(k) && #[trigger] vars(m[k]).contains(x);
            }
        }
        Substitution { entries }
    }

    /// Whether the substitution has no bindings.
    pub fn is_empty(&self) -> (r: bool)
        ensures
            r == (self@ == Map::<u64, Ty>::empty()),
    {
        proof {
            use_type_invariant(self);
            if self.entries.len() > 0 {
                self.lemma_entry(0);
            } else {
                assert(self@ =~= Map::<u64, Ty>::empty());
            }
        }
        self.entries.len() == 0
    }

    /// The type bound to `v`, if any.
    pub fn get(&self, v: u64) -> (r: Option<&Type>)
        ensures
            match r {
                Some(t) => self@.contains_key(v) && t@ == self@[v],
                None => !self@.contains_key(v),
            },
    {
        proof {
            use_type_invariant(self);
        }
        let mut i: usize = 0;
        while i < self.entries.len()
            invariant
                0 <= i <= self.entries.len(),
                forall|j: int| 0 <= j < i ==> self.entries[j].0 != v,
            decreases self.entries.len() - i,
        {
            if self.entries[i].0 == v {
                proof {
                    use_type_invariant(self);
                    self.lemma_entry(i as int);
                }
                return Some(&self.entries[i].1);
            }
            i += 1;
        }
        None
    }
}

impl View for Substitution {
    type V = Map<u64, Ty>;

    closed spec fn view(&self) -> Map<u64, Ty> {
        map_of(self.entries@)
    }
}

/// Rewrites `t`, replacing each variable bound in `subst` by its image, on both sides of a
/// function type. A `Substitution` never binds a variable that occurs in one of its images, so
/// this one pass resolves every bound variable: none is left in the result.
pub fn apply_to_subst(subst: &Substitution, t: Type) -> (r: Type)
    ensures
        r@ == apply(subst@, t@),
        vars(r@).disjoint(subst@.dom()),
        apply(subst@, r@) == r@,
    decreases t,
{
    proof {
        use_type_invariant(subst);
        lemma_apply_idempotent(subst@, t@);
    }
    match t {
        Type::TNamed(n) => Type::TNamed(n),
        Type::TVar(v) => match subst.get(v) {
            Some(x) => copy_type(x),
            None => Type::TVar(v),
        },
        Type::TFun { from, to } => {
            let from = apply_to_subst(subst, *from);
            let to = apply_to_subst(subst, *to);
            Type::TFun { from: Box::new(from), to: Box::new(to) }
        },
    }
}

/// Returns the substitution that applies `older` and then `newer`: `newer` is applied to every
/// image of `older`, and a binding of `newer` overrides one of `older` for the same variable.
/// No image of `newer` may mention a variable that `older` binds. Such a pair would leave a
/// chain in the result that nothing resolves: `older` is applied first, so a variable it binds
/// that `newer` reintroduces is never replaced. Every composition that unification and
/// inference make meets this, as they bind only variables that the images found so far no
/// longer mention.
#[verifier::rlimit(80)]
pub fn compose(older: &Substitution, newer: &Substitution) -> (r: Substitution)
    requires
        range_vars(newer@).disjoint(older@.dom()),
    ensures
        r@ == compose_map(older@, newer@),
        idempotent(r@),
{
    proof {
        use_type_invariant(older);
        use_type_invariant(newer);
    }
    let mut entries: Vec<(u64, Type)> = Vec::new();
    let mut i: usize = 0;
    while i < older.entries.len()
        invariant
            0 <= i <= older.entries.len(),
            older.keys_unique(),
            newer.keys_unique(),
            entries.len() <= i,
            forall|a: int, b: int|
                0 <= a < b < entries.len() ==> entries[a].0 != entries[b].0,
            forall|m: int|
                0 <= m < entries.len() ==> exists|j: int|
                    0 <= j < i && older.entries[j].0 == #[trigger] entries[m].0,
            forall|m: int|
                0 <= m < entries.len() ==> {
                    &&& !newer@.contains_key(#[trigger] entries[m].0)
                    &&& older@.contains_key(entries[m].0)
                    &&& entries[m].1@ == apply(newer@, older@[entries[m].0])
                },
            forall|j: int|
                0 <= j < i && !newer@.contains_key(#[trigger] older.entries[j].0) ==> exists|m: int|
                    0 <= m < entries.len() && entries[m].0 == older.entries[j].0,
        decreases older.entries.len() - i,
    {
        let k = older.entries[i].0;
        if newer.get(k).is_none() {
            let t = apply_to_subst(newer, copy_type(&older.entries[i].1));
            proof {
                older.lemma_entry(i as int);
            }
            let ghost prev = entries@;
            entries.push((k, t));
            proof {
                assert(entries[prev.len() as int].0 == k);
                assert forall|m: int| 0 <= m < entries.len() implies exists|j: int|
                    0 <= j < i + 1 && older.entries[j].0 == #[trigger] entries[m].0 by {
                    if m == prev.len() {
                        assert(older.entries[i as int].0 == entries[m].0);
                    } else {
                        assert(entries[m] == prev[m]);
                    }
                }
                assert forall|j: int|
                    0 <= j < i + 1 && !newer@.contains_key(#[trigger] older.entries[j].0) implies exists|m: int|
                    0 <= m < entries.len() && entries[m].0 == older.entries[j].0 by {
                    if j == i {
                        assert(entries[prev.len() as int].0 == older.entries[j].0);
                    } else {
                        let m = choose|m: int| 0 <= m < prev.len() && prev[m].0 == older.entries[j].0;
                        assert(entries[m] == prev[m]);
                    }
                }
            }
        }
        i += 1;
    }
    let n1: usize = entries.len();
    let ghost part1 = entries@;
    let mut j: usize = 0;
    while j < newer.entries.len()
        invariant
            0 <= j <= newer.entries.len(),
            n1 == part1.len(),
            entries.len() == n1 + j,
            older.keys_unique(),
            newer.keys_unique(),
            forall|a: int, b: int| 0 <= a < b < n1 ==> part1[a].0 != part1[b].0,
            forall|m: int|
                0 <= m < n1 ==> {
                    &&& !newer@.contains_key(#[trigger] part1[m].0)
                    &&& older@.contains_key(part1[m].0)
                    &&& part1[m].1@ == apply(newer@, older@[part1[m].0])
                },
            forall|m: int| 0 <= m < n1 ==> #[trigger] entries[m] == part1[m],
            forall|m: int| 0 <= m < j ==> #[trigger] entries[n1 + m] == newer.entries[m],
            forall|j: int|
                0 <= j < older.entries.len() && !newer@.contains_key(#[trigger] older.entries[j].0)
                    ==> exists|m: int| 0 <= m < n1 && part1[m].0 == older.entries[j].0,
        decreases newer.entries.len() - j,
    {
        let t = copy_type(&newer.entries[j].1);
        entries.push((newer.entries[j].0, t));
        j += 1;
    }
    proof {
        assert forall|a: int, b: int| 0 <= a < b < entries.len() implies entries[a].0
            != entries[b].0 by {
            if b >= n1 {
                assert(entries[n1 + (b - n1)] == newer.entries[b - n1]);
                newer.lemma_entry(b - n1);
                if a >= n1 {
                    assert(entries[n1 + (a - n1)] == newer.entries[a - n1]);
                } else {
                    assert(entries[a] == part1[a]);
                }
            } else {
                assert(entries[a] == part1[a]);
                assert(entries[b] == part1[b]);
            }
        }
    }
    proof {
        let c = compose_map(older@, newer@);
        assert forall|k: u64| map_of(entries@).contains_key(k) <==> c.contains_key(k) by {
            if newer@.contains_key(k) {
                let j = newer.index_of(k);
                assert(entries[n1 + j] == newer.entries[j]);
            } else if older@.contains_key(k) {
                let j = older.index_of(k);
                assert(!newer@.contains_key(older.entries[j].0));
                let m = choose|m: int| 0 <= m < n1 && part1[m].0 == older.entries[j].0;
                assert(entries[m] == part1[m]);
            }
            if map_of(entries@).contains_key(k) {
                let m = index_in(entries@, k);
                if m >= n1 {
                    assert(entries[n1 + (m - n1)] == newer.entries[m - n1]);
                    newer.lemma_entry(m - n1);
                } else {
                    assert(entries[m] == part1[m]);
                }
            }
        }
        assert forall|k: u64| map_of(entries@).contains_key(k) implies map_of(entries@)[k] == c[k] by {
            let m = index_in(entries@, k);
            lemma_entry_in(entries@, m);
            if m >= n1 {
                assert(entries[n1 + (m - n1)] == newer.entries[m - n1]);
                newer.lemma_entry(m - n1);
            } else {
                assert(entries[m] == part1[m]);
            }
        }
        assert(map_of(entries@) =~= c);
        lemma_compose_idempotent(older@, newer@);
    }
    Substitution { entries }
}

/// Applying the empty substitution leaves every type unchanged.
pub proof fn lemma_apply_empty(t: Ty)
    ensures
        apply(Map::empty(), t) == t,
    decreases t,
{
    if let Ty::Fun(a, b) = t {
        lemma_apply_empty(*a);
        lemma_apply_empty(*b);
    }
}

/// Applying a composition is applying its parts in turn, where the two bind disjoint variables.
pub proof fn lemma_apply_compose(s1: Map<u64, Ty>, s2: Map<u64, Ty>, t: Ty)
    requires
        s1.dom().disjoint(s2.dom()),
    ensures
        apply(compose_map(s1, s2), t) == apply(s2, apply(s1, t)),
    decreases t,
{
    if let Ty::Fun(a, b) = t {
        lemma_apply_compose(s1, s2, *a);
        lemma_apply_compose(s1, s2, *b);
    }
}

/// A substitution leaves alone a type in which none of its variables occurs.
pub proof fn lemma_apply_unbound(s: Map<u64, Ty>, t: Ty)
    requires
        vars(t).disjoint(s.dom()),
    ensures
        apply(s, t) == t,
    decreases t,
{
    if let Ty::Fun(a, b) = t {
        lemma_apply_unbound(s, *a);
        lemma_apply_unbound(s, *b);
    }
}

/// The variables left after applying `s` are the unbound ones of `t` and those of the images.
pub proof fn lemma_apply_vars(s: Map<u64, Ty>, t: Ty)
    ensures
        vars(apply(s, t)).subset_of(vars(t).difference(s.dom()).union(range_vars(s))),
    decreases t,
{
    match t {
        Ty::Var(v) => {
            if s.contains_key(v) {
                assert forall|x: u64| vars(s[v]).contains(x) implies range_vars(s).contains(x) by {
                }
            }
        },
        Ty::Fun(a, b) => {
            lemma_apply_vars(s, *a);
            lemma_apply_vars(s, *b);
        },
        _ => {},
    }
}

/// Composing two idempotent substitutions, where the images of the newer one mention no
/// variable bound by the older one, gives an idempotent substitution.
pub proof fn lemma_compose_idempotent(s1: Map<u64, Ty>, s2: Map<u64, Ty>)
    requires
        idempotent(s1),
        idempotent(s2),
        range_vars(s2).disjoint(s1.dom()),
    ensures
        idempotent(compose_map(s1, s2)),
{
    let c = compose_map(s1, s2);
    assert forall|x: u64| range_vars(c).contains(x) implies !c.dom().contains(x) by {
        let k = choose|k: u64| c.contains_key(k) && #[trigger] vars(c[k]).contains(x);
        if s2.contains_key(k) {
            assert(range_vars(s2).contains(x));
        } else {
            lemma_apply_vars(s2, s1[k]);
            if vars(s1[k]).contains(x) {
                assert(range_vars(s1).contains(x));
            } else {
                assert(range_vars(s2).contains(x));
            }
        }
    }
}

/// Applying an idempotent substitution leaves no bound variable, and applying it again
/// changes nothing.
pub proof fn lemma_apply_idempotent(s: Map<u64, Ty>, t: Ty)
    requires
        idempotent(s),
    ensures
        vars(apply(s, t)).disjoint(s.dom()),
        apply(s, apply(s, t)) == apply(s, t),
{
    lemma_apply_vars(s, t);
    lemma_apply_unbound(s, apply(s, t));
}
} // verus!
