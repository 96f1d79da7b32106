use vstd::prelude::*;

use rustc_hash::FxHashSet;

use crate::world::ms::constraint::{
    spec_direction_at, spec_direction_index, Constraint, ConstraintDirection,
};

verus! {

/// The set behind a constraint collection: each constraint is kept as the
/// key `(pattern_a_id, pattern_b_id, direction index)`.
#[verifier::external_body]
pub struct ConstraintKeySet {
    set: FxHashSet<(usize, usize, usize)>,
}

/// The keys that a key set holds.
pub uninterp spec fn key_set_contents(s: ConstraintKeySet) -> Set<(usize, usize, usize)>;

/// `FxHashSet::default`: an empty set.
#[verifier::external_body]
fn key_set_new() -> (r: ConstraintKeySet)
    ensures
        key_set_contents(r) == Set::<(usize, usize, usize)>::empty(),
{
    ConstraintKeySet { set: FxHashSet::default() }
}

/// `HashSet::insert`: afterwards the set holds `key` besides what it held;
/// the result tells whether `key` was new.
#[verifier::external_body]
fn key_set_insert(s: &mut ConstraintKeySet, key: (usize, usize, usize)) -> (r: bool)
    ensures
        key_set_contents(*final(s)) == key_set_contents(*old(s)).insert(key),
        r == !key_set_contents(*old(s)).contains(key),
{
    s.set.insert(key)
}

/// `HashSet::contains`: whether the set holds `key`.
#[verifier::external_body]
fn key_set_contains(s: &ConstraintKeySet, key: (usize, usize, usize)) -> (r: bool)
    ensures
        r == key_set_contents(*s).contains(key),
{
    s.set.contains(&key)
}

/// `HashSet::iter`, collected: every key of the set once, in the set's own
/// order, which is left unsaid.
#[verifier::external_body]
fn key_set_elements(s: &ConstraintKeySet) -> (r: Vec<(usize, usize, usize)>)
    ensures
        r@.to_set() == key_set_contents(*s),
        r@.no_duplicates(),
{
    s.set.iter().copied().collect()
}

/// The key under which a constraint is stored.
pub open spec fn constraint_key(c: Constraint) -> (usize, usize, usize) {
    (c.pattern_a_id, c.pattern_b_id, spec_direction_index(c.direction) as usize)
}

/// The constraint stored under a key.
pub open spec fn key_constraint(k: (usize, usize, usize)) -> Constraint {
    Constraint {
        pattern_a_id: k.0,
        pattern_b_id: k.1,
        direction: spec_direction_at(k.2 as int),
    }
}

/// A set of constraints between patterns.
pub struct ConstraintCollection {
    pub constraints: ConstraintKeySet,
}

impl ConstraintCollection {
    /// The keys of the constraints held.
    pub open spec fn keys(&self) -> Set<(usize, usize, usize)> {
        key_set_contents(self.constraints)
    }

    /// Every key held is that of a constraint.
    pub open spec fn well_formed(&self) -> bool {
        forall|k: (usize, usize, usize)| #[trigger] self.keys().contains(k) ==> k.2 < 8
    }

    /// Whether the collection holds `c`.
    pub open spec fn holds(&self, c: Constraint) -> bool {
        self.keys().contains(constraint_key(c))
    }

    pub fn new() -> (r: Self)
        ensures
            r.keys() == Set::<(usize, usize, usize)>::empty(),
            r.well_formed(),
    {
        ConstraintCollection { constraints: key_set_new() }
    }

    pub fn add(&mut self, constraint: Constraint)
        ensures
            final(self).keys() == old(self).keys().insert(constraint_key(constraint)),
            old(self).well_formed() ==> final(self).well_formed(),
    {
        let key = (constraint.pattern_a_id, constraint.pattern_b_id, constraint.direction.index());
        key_set_insert(&mut self.constraints, key);
        assert forall|k: (usize, usize, usize)| #[trigger] self.keys().contains(k) && old(
            self,
        ).well_formed() implies k.2 < 8 by {
            if k != key {
                assert(old(self).keys().contains(k));
            }
        }
    }

    pub fn contains(&self, constraint: &Constraint) -> (r: bool)
        ensures
            r == self.holds(*constraint),
    {
        let key = (constraint.pattern_a_id, constraint.pattern_b_id, constraint.direction.index());
        key_set_contains(&self.constraints, key)
    }

    /// Every constraint held, once each, in the order the set keeps them.
    pub fn to_vec(&self) -> (r: Vec<Constraint>)
        requires
            self.well_formed(),
        ensures
            r@.len() == self.keys().len(),
            forall|i: int| 0 <= i < r@.len() ==> self.holds(#[trigger] r@[i]),
            forall|c: Constraint| self.holds(c) ==> r@.contains(c),
            forall|i: int, j: int|
                0 <= i < j < r@.len() ==> #[trigger] r@[i] != #[trigger] r@[j],
    {
        let keys = key_set_elements(&self.constraints);
        let ghost ks = keys@;
        proof {
            ks.unique_seq_to_set();
        }
        let mut r: Vec<Constraint> = Vec::new();
        let mut i: usize = 0;
        while i < keys.len()
            invariant
                i <= keys.len(),
                ks == keys@,
                ks.to_set() == self.keys(),
                ks.no_duplicates(),
                self.well_formed(),
                r@.len() == i,
                forall|j: int| 0 <= j < i ==> #[trigger] r@[j] == key_constraint(ks[j]),
                forall|j: int| 0 <= j < i ==> constraint_key(#[trigger] r@[j]) == ks[j],
            decreases keys.len() - i,
        {
            let k = keys[i];
            assert(ks.to_set().contains(k));
            let c = Constraint {
                pattern_a_id: k.0,
                pattern_b_id: k.1,
                direction: ConstraintDirection::from_index(k.2),
            };
            r.push(c);
            i += 1;
        }
        assert forall|c: Constraint| self.holds(c) implies r@.contains(c) by {
            let k = constraint_key(c);
            assert(ks.to_set().contains(k));
            let j = choose|j: int| 0 <= j < ks.len() && ks[j] == k;
            assert(r@[j] == key_constraint(ks[j]));
            assert(r@[j] == c);
        }
        assert forall|j: int| 0 <= j < r@.len() implies self.holds(#[trigger] r@[j]) by {
            assert(ks.to_set().contains(ks[j]));
        }
        assert forall|a: int, b: int| 0 <= a < b < r@.len() implies #[trigger] r@[a] != #[trigger] r@[b] by {
            assert(constraint_key(r@[a]) == ks[a]);
            assert(constraint_key(r@[b]) == ks[b]);
        }
        r
    }
}

} // verus!
