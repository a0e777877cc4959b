//! A fixed-size set of locals, the dataflow state of the borrow-stack analysis.
use vstd::prelude::*;

use crate::mir::Local;

verus! {

/// A set of locals below a fixed domain size.
#[derive(Clone, Debug)]
pub struct LocalSet {
    bits: Vec<bool>,
}

/// One step of a gen/kill transfer function.
#[derive(Clone, Copy, Debug, PartialEq, Eq, Structural)]
pub enum GenKill {
    Gen(Local),
    Kill(Local),
}

impl GenKill {
    pub open spec fn local(self) -> Local {
        match self {
            GenKill::Gen(l) => l,
            GenKill::Kill(l) => l,
        }
    }
}

/// The set that results from applying `effects`, first to last, to `s`.
pub open spec fn apply_effects(s: Set<Local>, effects: Seq<GenKill>) -> Set<Local>
    decreases effects.len(),
{
    if effects.len() == 0 {
        s
    } else {
        let prev = apply_effects(s, effects.drop_last());
        match effects.last() {
            GenKill::Gen(l) => prev.insert(l),
            GenKill::Kill(l) => prev.remove(l),
        }
    }
}

/// The locals that `effects` leave in the set whatever it held: those whose last effect is a gen.
pub open spec fn gen_set(effects: Seq<GenKill>) -> Set<Local>
    decreases effects.len(),
{
    if effects.len() == 0 {
        Set::empty()
    } else {
        let prev = gen_set(effects.drop_last());
        match effects.last() {
            GenKill::Gen(l) => prev.insert(l),
            GenKill::Kill(l) => prev.remove(l),
        }
    }
}

/// The locals that `effects` take out of the set whatever it held: those whose last effect is a kill.
pub open spec fn kill_set(effects: Seq<GenKill>) -> Set<Local>
    decreases effects.len(),
{
    if effects.len() == 0 {
        Set::empty()
    } else {
        let prev = kill_set(effects.drop_last());
        match effects.last() {
            GenKill::Gen(l) => prev.remove(l),
            GenKill::Kill(l) => prev.insert(l),
        }
    }
}

/// Every local that `effects` touch is below `n`.
pub open spec fn effects_below(effects: Seq<GenKill>, n: nat) -> bool {
    forall|i: int| 0 <= i < effects.len() ==> #[trigger] effects[i].local() < n
}

/// A sequence of effects is a gen/kill transfer function: applying it to any set removes a
/// fixed set of locals and then adds a fixed set of locals.
pub proof fn lemma_apply_effects_is_gen_kill(s: Set<Local>, effects: Seq<GenKill>)
    ensures
        apply_effects(s, effects) == s.difference(kill_set(effects)).union(gen_set(effects)),
        gen_set(effects).disjoint(kill_set(effects)),
    decreases effects.len(),
{
    if effects.len() > 0 {
        lemma_apply_effects_is_gen_kill(s, effects.drop_last());
        assert(apply_effects(s, effects) =~= s.difference(kill_set(effects)).union(
            gen_set(effects),
        ));
        assert(gen_set(effects).disjoint(kill_set(effects)));
    } else {
        assert(s.difference(Set::empty()).union(Set::empty()) =~= s);
    }
}

/// A gen/kill transfer function is monotone: a larger set stays larger.
pub proof fn lemma_apply_effects_monotone(s1: Set<Local>, s2: Set<Local>, effects: Seq<GenKill>)
    requires
        s1.subset_of(s2),
    ensures
        apply_effects(s1, effects).subset_of(apply_effects(s2, effects)),
{
    lemma_apply_effects_is_gen_kill(s1, effects);
    lemma_apply_effects_is_gen_kill(s2, effects);
}

/// Killing each local of `locals` removes exactly those locals.
pub proof fn lemma_apply_kills(s: Set<Local>, locals: Seq<Local>)
    ensures
        apply_effects(s, locals.map_values(|l: Local| GenKill::Kill(l))) == s.difference(
            locals.to_set(),
        ),
    decreases locals.len(),
{
    let effects = locals.map_values(|l: Local| GenKill::Kill(l));
    if locals.len() == 0 {
        assert(locals.to_set() =~= Set::empty());
        assert(s.difference(Set::empty()) =~= s);
    } else {
        lemma_apply_kills(s, locals.drop_last());
        assert(effects.drop_last() =~= locals.drop_last().map_values(|l: Local| GenKill::Kill(l)));
        assert(locals.drop_last().push(locals.last()) =~= locals);
        locals.drop_last().lemma_push_to_set_commute(locals.last());
        assert(apply_effects(s, effects) =~= s.difference(locals.to_set()));
    }
}

impl View for LocalSet {
    type V = Set<Local>;

    closed spec fn view(&self) -> Set<Local> {
        Set::new(|l: Local| l < self.bits@.len() && self.bits@[l as int])
    }
}

impl LocalSet {
    /// The number of locals the set can hold: every member is below it.
    pub closed spec fn domain_size(&self) -> nat {
        self.bits@.len()
    }

    closed spec fn contains_spec(&self, l: Local) -> bool {
        l < self.bits@.len() && self.bits@[l as int]
    }

    /// An empty set over locals `0..domain_size`.
    pub fn new_empty(domain_size: usize) -> (r: LocalSet)
        ensures
            r.domain_size() == domain_size,
            r@ == Set::<Local>::empty(),
    {
        let mut bits: Vec<bool> = Vec::new();
        let mut i: usize = 0;
        while i < domain_size
            invariant
                i <= domain_size,
                bits@.len() == i,
                forall|j: int| 0 <= j < i ==> !bits@[j],
            decreases domain_size - i,
        {
            bits.push(false);
            i = i + 1;
        }
        let r = LocalSet { bits };
        assert(r@ =~= Set::<Local>::empty());
        r
    }

    pub fn domain_len(&self) -> (r: usize)
        ensures
            r == self.domain_size(),
    {
        self.bits.len()
    }

    pub fn contains(&self, l: Local) -> (r: bool)
        ensures
            r == self@.contains(l),
    {
        l < self.bits.len() && self.bits[l]
    }

    /// Adds a local to the set.
    pub fn insert(&mut self, l: Local)
        requires
            l < old(self).domain_size(),
        ensures
            final(self)@ == old(self)@.insert(l),
            final(self).domain_size() == old(self).domain_size(),
    {
        self.bits.set(l, true);
        assert(self@ =~= old(self)@.insert(l));
    }

    /// Removes a local from the set.
    pub fn remove(&mut self, l: Local)
        requires
            l < old(self).domain_size(),
        ensures
            final(self)@ == old(self)@.remove(l),
            final(self).domain_size() == old(self).domain_size(),
    {
        self.bits.set(l, false);
        assert(self@ =~= old(self)@.remove(l));
    }

    /// Applies gen/kill effects, first to last.
    pub fn apply(&mut self, effects: &Vec<GenKill>)
        requires
            effects_below(effects@, old(self).domain_size()),
        ensures
            final(self)@ == apply_effects(old(self)@, effects@),
            final(self).domain_size() == old(self).domain_size(),
    {
        let mut i: usize = 0;
        while i < effects.len()
            invariant
                i <= effects@.len(),
                effects_below(effects@, old(self).domain_size()),
                self.domain_size() == old(self).domain_size(),
                self@ == apply_effects(old(self)@, effects@.take(i as int)),
            decreases effects@.len() - i,
        {
            assert(effects@.take(i + 1).drop_last() =~= effects@.take(i as int));
            let e = effects[i];
            assert(e.local() < self.domain_size());
            match e {
                GenKill::Gen(l) => self.insert(l),
                GenKill::Kill(l) => self.remove(l),
            }
            i = i + 1;
        }
        assert(effects@.take(i as int) =~= effects@);
    }

    /// The members in increasing order.
    pub fn to_vec(&self) -> (r: Vec<Local>)
        ensures
            r@.to_set() == self@,
            forall|i: int, j: int| 0 <= i < j < r@.len() ==> r@[i] < r@[j],
    {
        let mut r: Vec<Local> = Vec::new();
        let mut i: usize = 0;
        while i < self.bits.len()
            invariant
                i <= self.bits@.len(),
                forall|x: Local| #[trigger] r@.contains(x) <==> (x < i && self.contains_spec(x)),
                forall|a: int, b: int| 0 <= a < b < r@.len() ==> r@[a] < r@[b],
                forall|a: int| 0 <= a < r@.len() ==> r@[a] < i,
            decreases self.bits@.len() - i,
        {
            if self.bits[i] {
                let ghost prev = r@;
                r.push(i);
                assert forall|x: Local| #[trigger] r@.contains(x) <==> (x < i + 1
                    && self.contains_spec(x)) by {
                    if r@.contains(x) {
                        let k = choose|k: int| 0 <= k < r@.len() && r@[k] == x;
                        if k < prev.len() {
                            assert(prev[k] == x);
                            assert(prev.contains(x));
                        }
                    }
                    if x < i + 1 && self.contains_spec(x) {
                        if x == i {
                            assert(r@[prev.len() as int] == x);
                        } else {
                            assert(prev.contains(x));
                            let k = choose|k: int| 0 <= k < prev.len() && prev[k] == x;
                            assert(r@[k] == x);
                        }
                    }
                }
            }
            i = i + 1;
        }
        assert(r@.to_set() =~= self@);
        r
    }
}

} // verus!
