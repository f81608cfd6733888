//! Typing environments and the inference context.
use vstd::prelude::*;
use crate::types::{Type, Ty, copy_type, vars, var_bound};
use crate::typing::{env_vars, span};
use crate::subst::{Substitution, apply, apply_to_subst};

verus! {

/// A map from variable names to their types, one binding per name.
pub struct Env {
    entries: Vec<(String, Type)>,
}

impl Env {
    #[verifier::type_invariant]
    spec fn names_unique(&self) -> bool {
        forall|i: int, j: int|
            0 <= i < j < self.entries.len() ==> self.entries[i].0@ != self.entries[j].0@
    }

    spec fn index_of(&self, k: Seq<char>) -> int {
        choose|i: int| 0 <= i < self.entries.len() && self.entries[i].0@ == k
    }

    proof fn lemma_entry(&self, i: int)
        requires
            self.names_unique(),
            0 <= i < self.entries.len(),
        ensures
            self@.contains_key(self.entries[i].0@),
            self@[self.entries[i].0@] == self.entries[i].1@,
    {
        let k = self.entries[i].0@;
        assert(self.entries[i].0@ == k);
        let j = self.index_of(k);
        assert(j == i);
    }

    /// The environment with no bindings.
    pub fn new() -> (r: Env)
        ensures
            r@ == Map::<Seq<char>, Ty>::empty(),
    {
        let r = Env { entries: Vec::new() };
        assert(r@ =~= Map::<Seq<char>, Ty>::empty());
        r
    }

    fn position(&self, name: &String) -> (r: Option<usize>)
        ensures
            match r {
                Some(i) => i < self.entries.len() && self.entries[i as int].0@ == name@,
                None => !self@.contains_key(name@),
            },
    {
        let mut i: usize = 0;
        while i < self.entries.len()
            invariant
                0 <= i <= self.entries.len(),
                forall|j: int| 0 <= j < i ==> self.entries[j].0@ != name@,
            decreases self.entries.len() - i,
        {
            if self.entries[i].0 == *name {
                return Some(i);
            }
            i += 1;
        }
        None
    }

    /// The type bound to `name`, if any.
    pub fn get(&self, name: &String) -> (r: Option<&Type>)
        ensures
            match r {
                Some(t) => self@.contains_key(name@) && t@ == self@[name@],
                None => !self@.contains_key(name@),
            },
    {
        match self.position(name) {
            Some(i) => {
                proof {
                    use_type_invariant(self);
                    self.lemma_entry(i as int);
                }
                Some(&self.entries[i].1)
            },
            None => None,
        }
    }

    /// Binds `name` to `t`, replacing an earlier binding of the same name.
    pub fn insert(&mut self, name: String, t: Type)
        ensures
            final(self)@ == old(self)@.insert(name@, t@),
    {
        proof {
            use_type_invariant(&*self);
        }
        let ghost pre = *self;
        let ghost k = name@;
        let ghost tv = t@;
        let pos = self.position(&name);
        let mut entries: Vec<(String, Type)> = Vec::new();
        std::mem::swap(&mut self.entries, &mut entries);
        match pos {
            Some(i) => {
                entries.set(i, (name, t));
                proof {
                    assert forall|a: int, b: int| 0 <= a < b < entries.len() implies entries[a].0@
                        != entries[b].0@ by {
                        if a != i && b != i {
                            assert(entries[a] == pre.entries[a] && entries[b] == pre.entries[b]);
                        } else if a == i {
                            assert(entries[b] == pre.entries[b]);
                        } else {
                            assert(entries[a] == pre.entries[a]);
                        }
                    }
                }
                std::mem::swap(&mut self.entries, &mut entries);
                proof {
                    assert forall|a: int| 0 <= a < self.entries.len() && a != i implies
                        self.entries[a] == pre.entries[a] by {}
                    self.lemma_entry(i as int);
                    assert forall|x: Seq<char>| #[trigger] self@.contains_key(x) <==> pre@.insert(
                        k,
                        tv,
                    ).contains_key(x) by {
                        if pre@.contains_key(x) {
                            let j = pre.index_of(x);
                            assert(self.entries[j].0@ == x);
                        }
                        if self@.contains_key(x) {
                            let j = self.index_of(x);
                            assert(j == i || pre.entries[j].0@ == x);
                        }
                    }
                    assert forall|x: Seq<char>| #[trigger] self@.contains_key(x) && x != k implies
                        self@[x] == pre@[x] by {
                        let j = self.index_of(x);
                        self.lemma_entry(j);
                        pre.lemma_entry(j);
                    }
                    assert(self@ =~= pre@.insert(k, tv));
                }
            },
            None => {
                entries.push((name, t));
                proof {
                    let n = pre.entries.len() as int;
                    assert forall|a: int| 0 <= a < n implies entries[a].0@ != k by {
                        assert(entries[a] == pre.entries[a]);
                        pre.lemma_entry(a);
                    }
                    assert forall|a: int, b: int| 0 <= a < b < entries.len() implies entries[a].0@
                        != entries[b].0@ by {
                        assert(entries[a] == pre.entries[a]);
                        if b < n {
                            assert(entries[b] == pre.entries[b]);
                        }
                    }
                }
                std::mem::swap(&mut self.entries, &mut entries);
                proof {
                    let n = pre.entries.len() as int;
                    assert forall|a: int| 0 <= a < n implies self.entries[a] == pre.entries[a] by {}
                    assert forall|a: int| 0 <= a < n implies self.entries[a].0@ != k by {
                        pre.lemma_entry(a);
                    }
                    self.lemma_entry(n);
                    assert forall|x: Seq<char>| #[trigger] self@.contains_key(x) <==> pre@.insert(
                        k,
                        tv,
                    ).contains_key(x) by {
                        if pre@.contains_key(x) {
                            let j = pre.index_of(x);
                            assert(self.entries[j].0@ == x);
                        }
                        if self@.contains_key(x) {
                            let j = self.index_of(x);
                            assert(j == n || pre.entries[j].0@ == x);
                        }
                    }
                    assert forall|x: Seq<char>| #[trigger] self@.contains_key(x) && x != k implies
                        self@[x] == pre@[x] by {
                        let j = self.index_of(x);
                        self.lemma_entry(j);
                        pre.lemma_entry(j);
                    }
                    assert(self@ =~= pre@.insert(k, tv));
                }
            },
        }
    }

    /// A copy of this environment with `s` applied to every bound type.
    pub fn apply_subst(&self, s: &Substitution) -> (r: Env)
        ensures
            r@ == apply_env(s@, self@),
    {
        proof {
            use_type_invariant(self);
        }
        let mut entries: Vec<(String, Type)> = Vec::new();
        let mut i: usize = 0;
        while i < self.entries.len()
            invariant
                0 <= i <= self.entries.len(),
                self.names_unique(),
                entries.len() == i,
                forall|a: int|
                    0 <= a < i ==> #[trigger] entries[a].0@ == self.entries[a].0@ && entries[a].1@
                        == apply(s@, self.entries[a].1@),
            decreases self.entries.len() - i,
        {
            let t = apply_to_subst(s, copy_type(&self.entries[i].1));
            entries.push((self.entries[i].0.clone(), t));
            i += 1;
        }
        let r = Env { entries };
        proof {
            assert forall|x: Seq<char>| #[trigger] r@.contains_key(x) <==> self@.contains_key(x) by {
                if self@.contains_key(x) {
                    let j = self.index_of(x);
                    assert(r.entries[j].0@ == x);
                }
                if r@.contains_key(x) {
                    let j = r.index_of(x);
                    assert(self.entries[j].0@ == x);
                }
            }
            assert forall|x: Seq<char>| #[trigger] r@.contains_key(x) implies r@[x] == apply(
                s@,
                self@[x],
            ) by {
                let j = r.index_of(x);
                r.lemma_entry(j);
                self.lemma_entry(j);
            }
            assert(r@ =~= apply_env(s@, self@));
        }
        r
    }

    /// The least bound above every type variable that the bindings mention.
    pub fn var_bound(&self) -> (r: u64)
        requires
            !env_vars(self@).contains(u64::MAX),
        ensures
            env_vars(self@).subset_of(span(0, r as int)),
            r == 0 || env_vars(self@).contains((r - 1) as u64),
    {
        proof {
            use_type_invariant(self);
        }
        let mut r: u64 = 0;
        let mut i: usize = 0;
        while i < self.entries.len()
            invariant
                0 <= i <= self.entries.len(),
                self.names_unique(),
                !env_vars(self@).contains(u64::MAX),
                forall|a: int, v: u64|
                    0 <= a < i && #[trigger] vars(self.entries[a].1@).contains(v) ==> v < r,
                r == 0 || env_vars(self@).contains((r - 1) as u64),
            decreases self.entries.len() - i,
        {
            proof {
                self.lemma_entry(i as int);
                assert forall|v: u64| vars(self.entries[i as int].1@).contains(v) implies env_vars(
                    self@,
                ).contains(v) by {
                    assert(vars(self@[self.entries[i as int].0@]).contains(v));
                }
            }
            let ghost prev = r;
            r = var_bound(&self.entries[i].1, r);
            proof {
                if r != prev {
                    assert(vars(self@[self.entries[i as int].0@]).contains((r - 1) as u64));
                }
            }
            i += 1;
        }
        proof {
            assert forall|v: u64| env_vars(self@).contains(v) implies span(0, r as int).contains(v) by {
                let k = choose|k: Seq<char>| self@.contains_key(k) && #[trigger] vars(self@[k]).contains(v);
                let j = self.index_of(k);
                self.lemma_entry(j);
                assert(vars(self.entries[j].1@).contains(v));
            }
        }
        r
    }

    /// A copy of this environment.
    pub fn copy(&self) -> (r: Env)
        ensures
            r@ == self@,
    {
        proof {
            use_type_invariant(self);
        }
        let mut entries: Vec<(String, Type)> = Vec::new();
        let mut i: usize = 0;
        while i < self.entries.len()
            invariant
                0 <= i <= self.entries.len(),
                entries.len() == i,
                forall|a: int| 0 <= a < i ==> #[trigger] entries[a] == self.entries[a],
            decreases self.entries.len() - i,
        {
            entries.push((self.entries[i].0.clone(), copy_type(&self.entries[i].1)));
            i += 1;
        }
        let r = Env { entries };
        assert(r.entries@ =~= self.entries@);
        r
    }
}

impl View for Env {
    type V = Map<Seq<char>, Ty>;

    closed spec fn view(&self) -> Map<Seq<char>, Ty> {
        Map::new(
            |k: Seq<char>| exists|i: int| 0 <= i < self.entries.len() && self.entries[i].0@ == k,
            |k: Seq<char>| self.entries[self.index_of(k)].1@,
        )
    }
}

/// The environment `e` with `s` applied to every bound type.
pub open spec fn apply_env(s: Map<u64, Ty>, e: Map<Seq<char>, Ty>) -> Map<Seq<char>, Ty> {
    Map::new(|k: Seq<char>| e.contains_key(k), |k: Seq<char>| apply(s, e[k]))
}

/// The state of one inference pass: the environment and the source of fresh type variables.
pub struct Context {
    env: Env,
    current: u64,
}

impl Context {
    /// The identifier that the next fresh type variable gets.
    pub closed spec fn next_var(&self) -> u64 {
        self.current
    }

    /// The bindings of the environment.
    pub closed spec fn bindings(&self) -> Map<Seq<char>, Ty> {
        self.env@
    }

    /// The environment.
    pub fn env(&self) -> (r: &Env)
        ensures
            r@ == self.bindings(),
    {
        &self.env
    }

    /// Puts `env` in place of the environment and returns the one it replaces.
    pub fn swap_env(&mut self, env: Env) -> (r: Env)
        ensures
            r@ == old(self).bindings(),
            final(self).bindings() == env@,
            final(self).next_var() == old(self).next_var(),
    {
        let prev = self.env.copy();
        self.env = env;
        prev
    }

    /// A context over `env` whose fresh variables lie above every type variable of `env`.
    pub fn new(env: Env) -> (r: Context)
        requires
            !env_vars(env@).contains(u64::MAX),
        ensures
            r.bindings() == env@,
            env_vars(env@).subset_of(span(0, r.next_var() as int)),
            r.next_var() == 0 || env_vars(env@).contains((r.next_var() - 1) as u64),
    {
        let current = env.var_bound();
        Context { env, current }
    }

    /// Binds `name` to `new_type` in the environment.
    pub fn new_from_current(&mut self, name: String, new_type: Type)
        ensures
            final(self).bindings() == old(self).bindings().insert(name@, new_type@),
            final(self).next_var() == old(self).next_var(),
    {
        self.env.insert(name, new_type);
    }
}

/// Mints a type variable that differs from every one minted before in `ctx`.
pub fn new_t_var(ctx: &mut Context) -> (r: Type)
    requires
        old(ctx).next_var() < u64::MAX,
    ensures
        r@ == Ty::Var(old(ctx).next_var()),
        final(ctx).next_var() == old(ctx).next_var() + 1,
        final(ctx).bindings() == old(ctx).bindings(),
{
    let v = ctx.current;
    ctx.current = ctx.current + 1;
    Type::TVar(v)
}

} // verus!
