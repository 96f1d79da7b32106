use vstd::prelude::*;

use crate::world::ms::constraint::{
    spec_direction_at, spec_direction_index, spec_reverse, Constraint, ConstraintDirection,
};
use crate::world::ms::constraint_collection::{constraint_key, ConstraintCollection};
use crate::world::ms::pattern::{
    transform_direction, transform_value, Pattern, PatternTransform, PatternValue,
};

verus! {

/// The patterns found in a reference grid, each once, with how often each
/// was found.
pub struct PatternCollection {
    pub patterns: Vec<Pattern>,
    pub pattern_counts: Vec<usize>,
}

/// The values of a sequence of patterns.
pub open spec fn pattern_values(ps: Seq<Pattern>) -> Seq<PatternValue> {
    Seq::new(ps.len(), |i: int| ps[i].value())
}

/// No value occurs twice.
pub open spec fn distinct_values(vs: Seq<PatternValue>) -> bool {
    forall|i: int, j: int| 0 <= i < vs.len() && 0 <= j < vs.len() && i != j ==> vs[i] != vs[j]
}

/// Every key of `keys` names patterns below `n`.
pub open spec fn keys_below(keys: Set<(usize, usize, usize)>, n: int) -> bool {
    forall|k: (usize, usize, usize)| #[trigger] keys.contains(k) ==> k.0 < n && k.1 < n && k.2 < 8
}

/// `new` keeps `old` as its prefix.
pub open spec fn extends(old: Seq<PatternValue>, new: Seq<PatternValue>) -> bool {
    old.len() <= new.len() && new.subrange(0, old.len() as int) == old
}

/// Both keys for the neighbour relation of patterns `a` and `b` in direction
/// `d` (as seen from `a`) and back.
pub open spec fn both_ways(
    k: (usize, usize, usize),
    a: int,
    b: int,
    d: ConstraintDirection,
) -> bool {
    ||| k == (a as usize, b as usize, spec_direction_index(d) as usize)
    ||| k == (b as usize, a as usize, spec_direction_index(spec_reverse(d)) as usize)
}

/// The position of the direction opposite to the one at position `d`.
pub open spec fn reverse_index(d: int) -> int {
    spec_direction_index(spec_reverse(spec_direction_at(d)))
}

/// Every held key `(a, b, d)` is matched by the key `(b, a, e)`, where `e`
/// is the direction opposite to `d`.
pub open spec fn keys_symmetric(keys: Set<(usize, usize, usize)>) -> bool {
    forall|a: usize, b: usize, d: usize|
        #[trigger] keys.contains((a, b, d)) ==> keys.contains((b, a, reverse_index(d as int) as usize))
}

/// The keys of a constraint and of the constraint back are each other's
/// partners.
pub proof fn lemma_reverse_key(dir: ConstraintDirection)
    ensures
        reverse_index(spec_direction_index(dir)) == spec_direction_index(spec_reverse(dir)),
        reverse_index(spec_direction_index(spec_reverse(dir))) == spec_direction_index(dir),
{
    crate::world::ms::constraint::lemma_direction_index_bijective(dir, dir);
    crate::world::ms::constraint::lemma_direction_index_bijective(spec_reverse(dir), spec_reverse(dir));
    crate::world::ms::constraint::lemma_reverse_involutive(dir);
}

/// Every pattern with value `va` and every pattern with value `vb` are
/// neighbours in direction `dir` (as seen from the first) and back.
pub open spec fn edge_present(
    keys: Set<(usize, usize, usize)>,
    vs: Seq<PatternValue>,
    va: PatternValue,
    vb: PatternValue,
    dir: ConstraintDirection,
) -> bool {
    forall|a: int, j: int|
        #![trigger vs[a], vs[j]]
        0 <= a < vs.len() && 0 <= j < vs.len() && vs[a] == va && vs[j] == vb ==> keys.contains(
            (a as usize, j as usize, spec_direction_index(dir) as usize),
        ) && keys.contains((j as usize, a as usize, spec_direction_index(spec_reverse(dir)) as usize))
}

/// Some pattern has value `v`.
pub open spec fn value_present(vs: Seq<PatternValue>, v: PatternValue) -> bool {
    exists|a: int| 0 <= a < vs.len() && vs[a] == v
}

/// A value of a prefix keeps its place.
pub proof fn lemma_extends_index(old: Seq<PatternValue>, new: Seq<PatternValue>, j: int)
    requires
        extends(old, new),
        0 <= j < old.len(),
    ensures
        new[j] == old[j],
{
    assert(new.subrange(0, old.len() as int)[j] == new[j]);
}

/// A present value stays present when the list grows.
pub proof fn lemma_present_extends(vs: Seq<PatternValue>, vs2: Seq<PatternValue>, v: PatternValue)
    requires
        extends(vs, vs2),
        value_present(vs, v),
    ensures
        value_present(vs2, v),
{
    let a = choose|a: int| 0 <= a < vs.len() && vs[a] == v;
    lemma_extends_index(vs, vs2, a);
}

/// Extending is transitive.
pub proof fn lemma_extends_trans(a: Seq<PatternValue>, b: Seq<PatternValue>, c: Seq<PatternValue>)
    requires
        extends(a, b),
        extends(b, c),
    ensures
        extends(a, c),
{
    assert forall|j: int| 0 <= j < a.len() implies c.subrange(0, a.len() as int)[j] == a[j] by {
        lemma_extends_index(b, c, j);
        lemma_extends_index(a, b, j);
    }
    assert(c.subrange(0, a.len() as int) =~= a);
}

/// Neighbour facts survive growing the patterns and the constraints.
pub proof fn lemma_edge_persists(
    keys: Set<(usize, usize, usize)>,
    vs: Seq<PatternValue>,
    keys2: Set<(usize, usize, usize)>,
    vs2: Seq<PatternValue>,
    va: PatternValue,
    vb: PatternValue,
    dir: ConstraintDirection,
)
    requires
        edge_present(keys, vs, va, vb, dir),
        value_present(vs, va),
        value_present(vs, vb),
        extends(vs, vs2),
        distinct_values(vs2),
        keys.subset_of(keys2),
    ensures
        edge_present(keys2, vs2, va, vb, dir),
        value_present(vs2, va),
        value_present(vs2, vb),
{
    let a0 = choose|a: int| 0 <= a < vs.len() && vs[a] == va;
    let b0 = choose|a: int| 0 <= a < vs.len() && vs[a] == vb;
    lemma_extends_index(vs, vs2, a0);
    lemma_extends_index(vs, vs2, b0);
    assert forall|a: int, j: int|
        #![trigger vs2[a], vs2[j]]
        0 <= a < vs2.len() && 0 <= j < vs2.len() && vs2[a] == va && vs2[j] == vb implies keys2.contains(
            (a as usize, j as usize, spec_direction_index(dir) as usize),
        ) && keys2.contains(
            (j as usize, a as usize, spec_direction_index(spec_reverse(dir)) as usize),
        ) by {
        assert(a == a0);
        assert(j == b0);
        assert(vs[a0] == va && vs[b0] == vb);
    }
}

/// What one matching constraint `(id, b, d)` and one transform source
/// `(t, s)` add: a pattern `j` with the transformed value of `b`, and the
/// transformed constraint between `s` and `j`, both ways.
pub open spec fn added_for(
    keys: Set<(usize, usize, usize)>,
    old: Seq<PatternValue>,
    vs: Seq<PatternValue>,
    id: int,
    t: PatternTransform,
    s: int,
    k: (usize, usize, usize),
) -> bool {
    exists|b: int, d: int, j: int|
        #![trigger keys.contains((id as usize, b as usize, d as usize)), vs[j]]
        keys.contains((id as usize, b as usize, d as usize)) && 0 <= b < old.len() && 0 <= d < 8 && 0 <= j < vs.len()
            && vs[j] == transform_value(t, old[b]) && both_ways(k, s, j, transform_direction(t, spec_direction_at(d)))
}

/// How often `v` occurs in `s`.
pub open spec fn occurrences(s: Seq<PatternValue>, v: PatternValue) -> nat
    decreases s.len(),
{
    if s.len() == 0 {
        0
    } else {
        occurrences(s.drop_last(), v) + if s.last() == v { 1nat } else { 0nat }
    }
}

/// The count of pattern `i` of `vs` after the sightings `calls` were added
/// to the counts `c0` of the first patterns: its count in `c0` (none for a
/// new pattern) plus how often it was sighted, stopping at `usize::MAX`.
pub open spec fn counted(c0: Seq<usize>, vs: Seq<PatternValue>, calls: Seq<PatternValue>, i: int) -> int {
    let n = (if i < c0.len() { c0[i] as int } else { 0int }) + occurrences(calls, vs[i]);
    if n > usize::MAX { usize::MAX as int } else { n }
}

/// `cs` are the counts of the patterns `vs` once the sightings `calls` were
/// added to the counts `c0` of the first patterns, each sighted pattern
/// being among `vs`.
pub open spec fn counts_after(
    c0: Seq<usize>,
    cs: Seq<usize>,
    vs: Seq<PatternValue>,
    calls: Seq<PatternValue>,
) -> bool {
    &&& c0.len() <= vs.len()
    &&& cs.len() == vs.len()
    &&& forall|i: int| 0 <= i < vs.len() ==> #[trigger] cs[i] == counted(c0, vs, calls, i)
    &&& forall|j: int| 0 <= j < calls.len() ==> value_present(vs, #[trigger] calls[j])
}

/// A value that occurs is present.
pub proof fn lemma_occurs_present(vs: Seq<PatternValue>, calls: Seq<PatternValue>, v: PatternValue)
    requires
        forall|j: int| 0 <= j < calls.len() ==> value_present(vs, #[trigger] calls[j]),
        occurrences(calls, v) > 0,
    ensures
        value_present(vs, v),
    decreases calls.len(),
{
    if calls.last() == v {
        assert(value_present(vs, calls[calls.len() - 1]));
    } else {
        assert forall|j: int| 0 <= j < calls.drop_last().len() implies value_present(vs, #[trigger] calls.drop_last()[j]) by {
            assert(calls.drop_last()[j] == calls[j]);
        }
        lemma_occurs_present(vs, calls.drop_last(), v);
    }
}

/// Adding one sighting of `v`, as `add_or_get` does, keeps the counts those
/// of the sightings with `v` added.
pub proof fn lemma_counts_step(
    c0: Seq<usize>,
    cs: Seq<usize>,
    vs: Seq<PatternValue>,
    calls: Seq<PatternValue>,
    cs2: Seq<usize>,
    vs2: Seq<PatternValue>,
    v: PatternValue,
    r: int,
)
    requires
        counts_after(c0, cs, vs, calls),
        distinct_values(vs2),
        0 <= r < vs2.len(),
        vs2[r] == v,
        r < vs.len() ==> vs2 == vs && cs2 == cs.update(
            r,
            if cs[r] < usize::MAX { (cs[r] + 1) as usize } else { cs[r] },
        ),
        r >= vs.len() ==> r == vs.len() && vs2 == vs.push(v) && cs2 == cs.push(1),
    ensures
        counts_after(c0, cs2, vs2, calls.push(v)),
{
    let calls2 = calls.push(v);
    assert(calls2.drop_last() =~= calls);
    assert forall|i: int| 0 <= i < vs2.len() implies #[trigger] cs2[i] == counted(c0, vs2, calls2, i) by {
        if i == r {
            if r >= vs.len() {
                if occurrences(calls, v) > 0 {
                    lemma_occurs_present(vs, calls, v);
                    let a = choose|a: int| 0 <= a < vs.len() && vs[a] == v;
                    assert(vs2[a] == v);
                }
            } else {
                assert(cs[r] == counted(c0, vs, calls, r));
            }
        } else {
            assert(vs2[i] != v);
            assert(cs[i] == counted(c0, vs, calls, i));
        }
    }
    assert forall|j: int| 0 <= j < calls2.len() implies value_present(vs2, #[trigger] calls2[j]) by {
        if j < calls.len() {
            assert(calls2[j] == calls[j]);
            assert(value_present(vs, calls[j]));
            let a = choose|a: int| 0 <= a < vs.len() && vs[a] == calls[j];
            assert(vs2[a] == vs[a]);
        } else {
            assert(vs2[r] == v);
        }
    }
}

/// The pair `(b, d)` of a constraint: the pattern it leads to and its
/// direction's position.
pub open spec fn pair_of(c: Constraint) -> (usize, usize) {
    (c.pattern_b_id, spec_direction_index(c.direction) as usize)
}

/// `ks` lists, each once, the pairs `(b, d)` of the constraints `(id, b, d)`
/// among `keys`.
pub open spec fn key_list(keys: Set<(usize, usize, usize)>, id: usize, ks: Seq<(usize, usize)>) -> bool {
    &&& ks.no_duplicates()
    &&& forall|b: usize, d: usize| #[trigger] ks.contains((b, d)) <==> keys.contains((id, b, d))
}

/// The sightings for the pairs `ks`, in turn: pattern `b` of `vs` under each
/// transform of `ts`, in turn.
pub open spec fn sightings(ks: Seq<(usize, usize)>, vs: Seq<PatternValue>, ts: Seq<PatternTransform>) -> Seq<PatternValue>
    decreases ks.len(),
{
    if ks.len() == 0 {
        Seq::empty()
    } else {
        sightings(ks.drop_last(), vs, ts) + Seq::new(ts.len(), |q: int| transform_value(ts[q], vs[ks.last().0 as int]))
    }
}

/// The sightings of `pattern` under each transform of `ts`, in turn.
pub open spec fn own_sightings(ts: Seq<PatternTransform>, pattern: PatternValue) -> Seq<PatternValue> {
    Seq::new(ts.len(), |q: int| transform_value(ts[q], pattern))
}

/// Occurrences add up over concatenation.
pub proof fn lemma_occurrences_add(a: Seq<PatternValue>, b: Seq<PatternValue>, v: PatternValue)
    ensures
        occurrences(a + b, v) == occurrences(a, v) + occurrences(b, v),
    decreases b.len(),
{
    if b.len() > 0 {
        lemma_occurrences_add(a, b.drop_last(), v);
        assert((a + b).drop_last() =~= a + b.drop_last());
    } else {
        assert(a + b =~= a);
    }
}

/// With no sightings the counts stay as they are.
pub proof fn lemma_counts_none(c: Seq<usize>, vs: Seq<PatternValue>)
    requires
        c.len() == vs.len(),
    ensures
        counts_after(c, c, vs, Seq::empty()),
{
}

/// Sightings added in two rounds are the sightings of both rounds.
pub proof fn lemma_counts_compose(
    a: Seq<usize>,
    b: Seq<usize>,
    c: Seq<usize>,
    vs1: Seq<PatternValue>,
    vs2: Seq<PatternValue>,
    c1: Seq<PatternValue>,
    c2: Seq<PatternValue>,
)
    requires
        counts_after(a, b, vs1, c1),
        counts_after(b, c, vs2, c2),
        extends(vs1, vs2),
        distinct_values(vs2),
    ensures
        counts_after(a, c, vs2, c1 + c2),
{
    assert forall|i: int| 0 <= i < vs2.len() implies #[trigger] c[i] == counted(a, vs2, c1 + c2, i) by {
        lemma_occurrences_add(c1, c2, vs2[i]);
        assert(c[i] == counted(b, vs2, c2, i));
        if i < vs1.len() {
            lemma_extends_index(vs1, vs2, i);
            assert(b[i] == counted(a, vs1, c1, i));
        } else {
            if occurrences(c1, vs2[i]) > 0 {
                lemma_occurs_present(vs1, c1, vs2[i]);
                let k = choose|k: int| 0 <= k < vs1.len() && vs1[k] == vs2[i];
                lemma_extends_index(vs1, vs2, k);
            }
        }
    }
    assert forall|j: int| 0 <= j < (c1 + c2).len() implies value_present(vs2, #[trigger] (c1 + c2)[j]) by {
        if j < c1.len() {
            assert((c1 + c2)[j] == c1[j]);
            assert(value_present(vs1, c1[j]));
            let k = choose|k: int| 0 <= k < vs1.len() && vs1[k] == c1[j];
            lemma_extends_index(vs1, vs2, k);
        } else {
            assert((c1 + c2)[j] == c2[j - c1.len()]);
        }
    }
}

/// Sightings read through a longer list of patterns that keeps the first as
/// its prefix are the same.
pub proof fn lemma_sightings_prefix(ks: Seq<(usize, usize)>, p0: Seq<PatternValue>, p3: Seq<PatternValue>, ts: Seq<PatternTransform>)
    requires
        extends(p0, p3),
        forall|k: int| 0 <= k < ks.len() ==> (#[trigger] ks[k]).0 < p0.len(),
    ensures
        sightings(ks, p3, ts) == sightings(ks, p0, ts),
    decreases ks.len(),
{
    if ks.len() > 0 {
        assert forall|k: int| 0 <= k < ks.drop_last().len() implies (#[trigger] ks.drop_last()[k]).0 < p0.len() by {
            assert(ks.drop_last()[k] == ks[k]);
        }
        lemma_sightings_prefix(ks.drop_last(), p0, p3, ts);
        assert(ks[ks.len() - 1].0 < p0.len());
        lemma_extends_index(p0, p3, ks.last().0 as int);
        assert(Seq::new(ts.len(), |q: int| transform_value(ts[q], p3[ks.last().0 as int])) =~= Seq::new(
            ts.len(),
            |q: int| transform_value(ts[q], p0[ks.last().0 as int]),
        ));
    }
}

impl PatternCollection {
    /// The values of the patterns held.
    pub open spec fn values(&self) -> Seq<PatternValue> {
        pattern_values(self.patterns@)
    }

    /// One count per pattern, each at least one, no pattern twice, every
    /// pattern rectangular.
    pub open spec fn well_formed(&self) -> bool {
        &&& self.patterns.len() == self.pattern_counts.len()
        &&& distinct_values(self.values())
        &&& forall|i: int| 0 <= i < self.patterns.len() ==> #[trigger] self.patterns@[i].well_formed()
        &&& forall|i: int| 0 <= i < self.pattern_counts.len() ==> #[trigger] self.pattern_counts@[i] >= 1
    }

    pub fn new() -> (r: Self)
        ensures
            r.values() == Seq::<PatternValue>::empty(),
            r.pattern_counts@ == Seq::<usize>::empty(),
            r.well_formed(),
    {
        let r = PatternCollection { patterns: Vec::new(), pattern_counts: Vec::new() };
        assert(r.values() =~= Seq::<PatternValue>::empty());
        r
    }

    pub fn get(&self, pattern_id: usize) -> (r: &Pattern)
        requires
            pattern_id < self.patterns.len(),
        ensures
            r == self.patterns@[pattern_id as int],
    {
        &self.patterns[pattern_id]
    }

    pub fn get_count(&self, pattern_id: usize) -> (r: usize)
        requires
            pattern_id < self.pattern_counts.len(),
        ensures
            r == self.pattern_counts@[pattern_id as int],
    {
        self.pattern_counts[pattern_id]
    }

    /// The ids of all patterns: `0..patterns.len()`.
    pub fn get_all_ids(&self) -> (r: Vec<usize>)
        ensures
            r@ == Seq::new(self.patterns.len() as nat, |i: int| i as usize),
    {
        let mut r: Vec<usize> = Vec::new();
        let mut i: usize = 0;
        while i < self.patterns.len()
            invariant
                i <= self.patterns.len(),
                r@ == Seq::new(i as nat, |k: int| k as usize),
            decreases self.patterns.len() - i,
        {
            r.push(i);
            i += 1;
            assert(r@ =~= Seq::new(i as nat, |k: int| k as usize));
        }
        r
    }

    /// The id of the held pattern equal to `pattern`, counting one more
    /// sighting of it; a new pattern is appended with a count of one. A
    /// count that has reached `usize::MAX` stays there.
    pub fn add_or_get(&mut self, pattern: Pattern) -> (r: usize)
        requires
            old(self).patterns.len() == old(self).pattern_counts.len(),
        ensures
            final(self).patterns.len() == final(self).pattern_counts.len(),
            r < final(self).patterns.len(),
            final(self).values()[r as int] == pattern.value(),
            (exists|i: int|
                0 <= i < old(self).patterns.len() && old(self).values()[i] == pattern.value()) ==> {
                &&& r < old(self).patterns.len()
                &&& forall|i: int| 0 <= i < r ==> old(self).values()[i] != pattern.value()
                &&& final(self).patterns@ == old(self).patterns@
                &&& final(self).pattern_counts@ == old(self).pattern_counts@.update(
                    r as int,
                    if old(self).pattern_counts@[r as int] < usize::MAX {
                        (old(self).pattern_counts@[r as int] + 1) as usize
                    } else {
                        old(self).pattern_counts@[r as int]
                    },
                )
            },
            (forall|i: int|
                0 <= i < old(self).patterns.len() ==> old(self).values()[i] != pattern.value()) ==> {
                &&& r == old(self).patterns.len()
                &&& final(self).patterns@ == old(self).patterns@.push(pattern)
                &&& final(self).pattern_counts@ == old(self).pattern_counts@.push(1)
            },
            old(self).well_formed() && pattern.well_formed() ==> final(self).well_formed(),
            extends(old(self).values(), final(self).values()),
            forall|j: int|
                old(self).values().len() <= j < final(self).values().len() ==> #[trigger] final(self).values()[j]
                    == pattern.value(),
            forall|n: usize|
                #[trigger] all_square(old(self).values(), n) && pattern.size == [n, n]
                    ==> all_square(final(self).values(), n),
            old(self).well_formed() ==> forall|c0: Seq<usize>, calls: Seq<PatternValue>|
                #[trigger] counts_after(c0, old(self).pattern_counts@, old(self).values(), calls) ==> counts_after(
                    c0,
                    final(self).pattern_counts@,
                    final(self).values(),
                    calls.push(pattern.value()),
                ),
    {
        let mut i: usize = 0;
        while i < self.patterns.len()
            invariant
                i <= self.patterns.len(),
                self.patterns.len() == self.pattern_counts.len(),
                self.patterns@ == old(self).patterns@,
                self.pattern_counts@ == old(self).pattern_counts@,
                forall|k: int| 0 <= k < i ==> old(self).values()[k] != pattern.value(),
            decreases self.patterns.len() - i,
        {
            assert(self.patterns@[i as int].value() == old(self).values()[i as int]);
            if self.patterns[i].same_as(&pattern) {
                let c = self.pattern_counts[i];
                if c < usize::MAX {
                    self.pattern_counts.set(i, c + 1);
                }
                assert(self.values() =~= old(self).values());
                assert(self.values().subrange(0, old(self).values().len() as int) =~= old(
                    self,
                ).values());
                proof {
                    assert(self.pattern_counts@ =~= old(self).pattern_counts@.update(
                        i as int,
                        if old(self).pattern_counts@[i as int] < usize::MAX {
                            (old(self).pattern_counts@[i as int] + 1) as usize
                        } else {
                            old(self).pattern_counts@[i as int]
                        },
                    ));
                    if old(self).well_formed() {
                        assert forall|c0: Seq<usize>, calls: Seq<PatternValue>|
                            #[trigger] counts_after(c0, old(self).pattern_counts@, old(self).values(), calls) implies counts_after(
                            c0,
                            self.pattern_counts@,
                            self.values(),
                            calls.push(pattern.value()),
                        ) by {
                            lemma_counts_step(
                                c0,
                                old(self).pattern_counts@,
                                old(self).values(),
                                calls,
                                self.pattern_counts@,
                                self.values(),
                                pattern.value(),
                                i as int,
                            );
                        }
                    }
                }
                return i;
            }
            i += 1;
        }
        assert(forall|k: int|
            0 <= k < old(self).patterns.len() ==> old(self).values()[k] != pattern.value());
        let id = self.patterns.len();
        self.patterns.push(pattern);
        self.pattern_counts.push(1);
        proof {
            assert(self.values() =~= old(self).values().push(pattern.value()));
            assert(self.values().subrange(0, old(self).values().len() as int) =~= old(
                self,
            ).values());
            if old(self).well_formed() {
                assert(distinct_values(self.values()));
                assert forall|c0: Seq<usize>, calls: Seq<PatternValue>|
                    #[trigger] counts_after(c0, old(self).pattern_counts@, old(self).values(), calls) implies counts_after(
                    c0,
                    self.pattern_counts@,
                    self.values(),
                    calls.push(pattern.value()),
                ) by {
                    lemma_counts_step(
                        c0,
                        old(self).pattern_counts@,
                        old(self).values(),
                        calls,
                        self.pattern_counts@,
                        self.values(),
                        pattern.value(),
                        id as int,
                    );
                }
            }
        }
        id
    }
}

/// Recorded pair `w = (b, d, q, j)`: constraint `(id, b, d)` is held, `j`
/// has the value of `b` transformed by source `q`, and the two constraints
/// between the source's pattern and `j` are `c1` and `c2`.
pub open spec fn pair_recorded(
    c0: Set<(usize, usize, usize)>,
    p0: Seq<PatternValue>,
    vs: Seq<PatternValue>,
    sources: Seq<(PatternTransform, usize)>,
    id: usize,
    w: (int, int, int, int),
    c1: Constraint,
    c2: Constraint,
) -> bool {
    &&& c0.contains((id, w.0 as usize, w.1 as usize))
    &&& 0 <= w.0 < p0.len()
    &&& 0 <= w.1 < 8
    &&& 0 <= w.2 < sources.len()
    &&& 0 <= w.3 < vs.len()
    &&& vs[w.3] == transform_value(sources[w.2].0, p0[w.0])
    &&& c1 == Constraint {
        pattern_a_id: sources[w.2].1,
        pattern_b_id: w.3 as usize,
        direction: transform_direction(sources[w.2].0, spec_direction_at(w.1)),
    }
    &&& c2 == Constraint {
        pattern_a_id: w.3 as usize,
        pattern_b_id: sources[w.2].1,
        direction: spec_reverse(transform_direction(sources[w.2].0, spec_direction_at(w.1))),
    }
}

/// The pair for constraint position `m` and source position `q` was recorded.
pub open spec fn position_recorded(
    pos: Map<(int, int), int>,
    ws: Seq<(int, int, int, int)>,
    cs: Seq<Constraint>,
    m: int,
    q: int,
) -> bool {
    &&& pos.dom().contains((m, q))
    &&& 0 <= pos[(m, q)] < ws.len()
    &&& ws[pos[(m, q)]].0 == cs[m].pattern_b_id
    &&& ws[pos[(m, q)]].1 == spec_direction_index(cs[m].direction)
    &&& ws[pos[(m, q)]].2 == q
}

/// Patterns with the values `va` and `vb` transformed by `t` are present,
/// and neighbours in direction `dir` transformed by `t`.
pub open spec fn transformed_edge(
    keys: Set<(usize, usize, usize)>,
    vs: Seq<PatternValue>,
    t: PatternTransform,
    va: PatternValue,
    vb: PatternValue,
    dir: ConstraintDirection,
) -> bool {
    &&& value_present(vs, transform_value(t, va))
    &&& value_present(vs, transform_value(t, vb))
    &&& edge_present(
        keys,
        vs,
        transform_value(t, va),
        transform_value(t, vb),
        transform_direction(t, dir),
    )
}

/// The neighbour relation of `va` and `vb` in direction `dir` carries over
/// to the first, second and third quarter turn of both.
pub open spec fn rotated_edges(
    keys: Set<(usize, usize, usize)>,
    vs: Seq<PatternValue>,
    va: PatternValue,
    vb: PatternValue,
    dir: ConstraintDirection,
) -> bool {
    let r = PatternTransform::Rotation;
    &&& transformed_edge(keys, vs, r, va, vb, dir)
    &&& transformed_edge(
        keys,
        vs,
        r,
        transform_value(r, va),
        transform_value(r, vb),
        transform_direction(r, dir),
    )
    &&& transformed_edge(
        keys,
        vs,
        r,
        transform_value(r, transform_value(r, va)),
        transform_value(r, transform_value(r, vb)),
        transform_direction(r, transform_direction(r, dir)),
    )
}

/// The neighbour relation of `va` and `vb` in direction `dir` carries over
/// to both patterns mirrored along the first axis, the second, and both.
pub open spec fn flipped_edges(
    keys: Set<(usize, usize, usize)>,
    vs: Seq<PatternValue>,
    va: PatternValue,
    vb: PatternValue,
    dir: ConstraintDirection,
) -> bool {
    &&& transformed_edge(keys, vs, PatternTransform::FlipX, va, vb, dir)
    &&& transformed_edge(keys, vs, PatternTransform::FlipY, va, vb, dir)
    &&& transformed_edge(keys, vs, PatternTransform::FlipXY, va, vb, dir)
}

/// A transformed neighbour relation survives growing the patterns and the
/// constraints.
pub proof fn lemma_transformed_edge_persists(
    keys: Set<(usize, usize, usize)>,
    vs: Seq<PatternValue>,
    keys2: Set<(usize, usize, usize)>,
    vs2: Seq<PatternValue>,
    t: PatternTransform,
    va: PatternValue,
    vb: PatternValue,
    dir: ConstraintDirection,
)
    requires
        transformed_edge(keys, vs, t, va, vb, dir),
        extends(vs, vs2),
        distinct_values(vs2),
        keys.subset_of(keys2),
    ensures
        transformed_edge(keys2, vs2, t, va, vb, dir),
{
    lemma_edge_persists(
        keys,
        vs,
        keys2,
        vs2,
        transform_value(t, va),
        transform_value(t, vb),
        transform_direction(t, dir),
    );
}

/// Every pattern is a square of side `n`.
pub open spec fn all_square(vs: Seq<PatternValue>, n: usize) -> bool {
    forall|i: int| 0 <= i < vs.len() ==> #[trigger] vs[i].1 == [n, n]
}

/// The transforms keep a square a square of the same side.
pub proof fn lemma_transform_square(t: PatternTransform, v: PatternValue, n: usize)
    requires
        v.1 == [n, n],
    ensures
        transform_value(t, v).1 == [n, n],
{
    assert([v.1[1], v.1[0]] =~= [n, n]);
}

/// The value at `k` is well formed.
pub open spec fn value_well_formed_at(vs: Seq<PatternValue>, k: int) -> bool {
    crate::world::ms::pattern::value_well_formed(vs[k])
}

/// A position in a sequence of pairs is the first or second of pair `m / 2`.
pub proof fn lemma_pair_of(m: int)
    requires
        m >= 0,
    ensures
        m == 2 * (m / 2) || m == 2 * (m / 2) + 1,
        m / 2 >= 0,
{
}

/// `v` is pattern `b` transformed by one of `ts`, for some constraint
/// `(id, b, d)` among `keys`, with `b` read in `vs`.
pub open spec fn made_from(
    keys: Set<(usize, usize, usize)>,
    vs: Seq<PatternValue>,
    ts: Seq<PatternTransform>,
    id: usize,
    v: PatternValue,
) -> bool {
    exists|b: usize, d: usize, q: int|
        #![trigger keys.contains((id, b, d)), ts[q]]
        keys.contains((id, b, d)) && 0 <= q < ts.len() && v == transform_value(ts[q], vs[b as int])
}

/// The transforms of a list of sources.
pub open spec fn source_transforms(sources: Seq<(PatternTransform, usize)>) -> Seq<PatternTransform> {
    Seq::new(sources.len(), |q: int| sources[q].0)
}

/// `v` is `pattern` transformed by one of `ts`.
pub open spec fn own_transform(ts: Seq<PatternTransform>, pattern: PatternValue, v: PatternValue) -> bool {
    exists|q: int| 0 <= q < ts.len() && v == transform_value(#[trigger] ts[q], pattern)
}

/// What adding the transforms `ts` of `pattern` (id `id`) and of its
/// neighbours may add: each new key `k` is, for some transform `ts[q]`,
/// a transformed constraint between the transformed `pattern` (at `s` in
/// `vs`) and a transformed neighbour, one way or back.
pub open spec fn key_from_transforms(
    keys: Set<(usize, usize, usize)>,
    old: Seq<PatternValue>,
    vs: Seq<PatternValue>,
    ts: Seq<PatternTransform>,
    pattern: PatternValue,
    id: usize,
    k: (usize, usize, usize),
) -> bool {
    exists|q: int, s: int|
        #![trigger ts[q], vs[s]]
        0 <= q < ts.len() && 0 <= s < vs.len() && vs[s] == transform_value(ts[q], pattern) && added_for(
            keys,
            old,
            vs,
            id as int,
            ts[q],
            s,
            k,
        )
}

/// A pattern read through a longer list of patterns that keeps the first
/// as its prefix is the same pattern.
pub proof fn lemma_made_from_prefix(
    keys: Set<(usize, usize, usize)>,
    p0: Seq<PatternValue>,
    p3: Seq<PatternValue>,
    ts: Seq<PatternTransform>,
    id: usize,
    v: PatternValue,
)
    requires
        extends(p0, p3),
        keys_below(keys, p0.len() as int),
        made_from(keys, p3, ts, id, v),
    ensures
        made_from(keys, p0, ts, id, v),
{
    let (b, d, q) = choose|b: usize, d: usize, q: int|
        #![trigger keys.contains((id, b, d)), ts[q]]
        keys.contains((id, b, d)) && 0 <= q < ts.len() && v == transform_value(ts[q], p3[b as int]);
    lemma_extends_index(p0, p3, b as int);
}

/// The patterns that adding the three mirror images of a pattern and of its
/// neighbours appends are those images.
pub proof fn lemma_flip_values(
    p0: Seq<PatternValue>,
    p1: Seq<PatternValue>,
    p2: Seq<PatternValue>,
    p3: Seq<PatternValue>,
    vs: Seq<PatternValue>,
    keys: Set<(usize, usize, usize)>,
    pv: PatternValue,
    id: usize,
)
    requires
        extends(p0, p1),
        extends(p1, p2),
        extends(p2, p3),
        extends(p3, vs),
        keys_below(keys, p0.len() as int),
        forall|j: int| p0.len() <= j < p1.len() ==> #[trigger] p1[j] == transform_value(PatternTransform::FlipX, pv),
        forall|j: int| p1.len() <= j < p2.len() ==> #[trigger] p2[j] == transform_value(PatternTransform::FlipY, pv),
        forall|j: int| p2.len() <= j < p3.len() ==> #[trigger] p3[j] == transform_value(PatternTransform::FlipXY, pv),
        forall|j: int| p3.len() <= j < vs.len() ==> made_from(keys, p3, flip_transforms(), id, #[trigger] vs[j]),
    ensures
        forall|j: int|
            p0.len() <= j < vs.len() ==> own_transform(flip_transforms(), pv, #[trigger] vs[j]) || made_from(
                keys,
                p0,
                flip_transforms(),
                id,
                vs[j],
            ),
{
    let ts = flip_transforms();
    lemma_extends_trans(p0, p1, p2);
    lemma_extends_trans(p0, p2, p3);
    lemma_extends_trans(p1, p2, p3);
    assert(ts[0] == PatternTransform::FlipX);
    assert(ts[1] == PatternTransform::FlipY);
    assert(ts[2] == PatternTransform::FlipXY);
    assert forall|j: int|
        p0.len() <= j < vs.len() implies own_transform(ts, pv, #[trigger] vs[j]) || made_from(keys, p0, ts, id, vs[j]) by {
        if j < p3.len() {
            lemma_extends_index(p3, vs, j);
            if j < p1.len() {
                lemma_extends_index(p1, p3, j);
                assert(vs[j] == transform_value(ts[0], pv));
            } else if j < p2.len() {
                lemma_extends_index(p2, p3, j);
                assert(vs[j] == transform_value(ts[1], pv));
            } else {
                assert(vs[j] == transform_value(ts[2], pv));
            }
        } else {
            lemma_made_from_prefix(keys, p0, p3, ts, id, vs[j]);
        }
    }
}

/// The patterns that adding the quarter turn of a pattern and of its
/// neighbours appends are those turned patterns.
pub proof fn lemma_rotation_values(
    p0: Seq<PatternValue>,
    p1: Seq<PatternValue>,
    vs: Seq<PatternValue>,
    keys: Set<(usize, usize, usize)>,
    pv: PatternValue,
    id: usize,
)
    requires
        extends(p0, p1),
        extends(p1, vs),
        keys_below(keys, p0.len() as int),
        forall|j: int| p0.len() <= j < p1.len() ==> #[trigger] p1[j] == transform_value(PatternTransform::Rotation, pv),
        forall|j: int| p1.len() <= j < vs.len() ==> made_from(keys, p1, rotation_transforms(), id, #[trigger] vs[j]),
    ensures
        forall|j: int|
            p0.len() <= j < vs.len() ==> own_transform(rotation_transforms(), pv, #[trigger] vs[j]) || made_from(
                keys,
                p0,
                rotation_transforms(),
                id,
                vs[j],
            ),
{
    let ts = rotation_transforms();
    assert(ts[0] == PatternTransform::Rotation);
    assert forall|j: int|
        p0.len() <= j < vs.len() implies own_transform(ts, pv, #[trigger] vs[j]) || made_from(keys, p0, ts, id, vs[j]) by {
        if j < p1.len() {
            lemma_extends_index(p1, vs, j);
            assert(vs[j] == transform_value(ts[0], pv));
        } else {
            lemma_made_from_prefix(keys, p0, p1, ts, id, vs[j]);
        }
    }
}

/// The keys that adding constraints for `sources`, whose transforms are
/// `ts` and whose patterns are `pv` transformed, adds are those of
/// `key_from_transforms`.
pub proof fn lemma_keys_from_sources(
    keys: Set<(usize, usize, usize)>,
    p0: Seq<PatternValue>,
    p3: Seq<PatternValue>,
    vs: Seq<PatternValue>,
    keys2: Set<(usize, usize, usize)>,
    sources: Seq<(PatternTransform, usize)>,
    ts: Seq<PatternTransform>,
    pv: PatternValue,
    id: usize,
)
    requires
        extends(p0, p3),
        p3.len() <= usize::MAX,
        keys_below(keys, p0.len() as int),
        source_transforms(sources) == ts,
        forall|q: int| 0 <= q < sources.len() ==> (#[trigger] sources[q]).1 < vs.len() && vs[sources[q].1 as int]
            == transform_value(sources[q].0, pv),
        forall|k: (usize, usize, usize)|
            #[trigger] keys2.contains(k) && !keys.contains(k) ==> exists|q: int|
                0 <= q < sources.len() && added_for(keys, p3, vs, id as int, sources[q].0, sources[q].1 as int, k),
    ensures
        forall|k: (usize, usize, usize)|
            #[trigger] keys2.contains(k) && !keys.contains(k) ==> key_from_transforms(keys, p0, vs, ts, pv, id, k),
{
    assert forall|k: (usize, usize, usize)|
        #[trigger] keys2.contains(k) && !keys.contains(k) implies key_from_transforms(keys, p0, vs, ts, pv, id, k) by {
        let q = choose|q: int|
            0 <= q < sources.len() && added_for(keys, p3, vs, id as int, sources[q].0, sources[q].1 as int, k);
        let s = sources[q].1 as int;
        assert(ts[q] == sources[q].0);
        assert(vs[s] == transform_value(ts[q], pv));
        let (b, d, j) = choose|b: int, d: int, j: int|
            #![trigger keys.contains((id as usize, b as usize, d as usize)), vs[j]]
            keys.contains((id as usize, b as usize, d as usize)) && 0 <= b < p3.len() && 0 <= d < 8 && 0 <= j < vs.len()
                && vs[j] == transform_value(sources[q].0, p3[b]) && both_ways(
                k,
                s,
                j,
                transform_direction(sources[q].0, spec_direction_at(d)),
            );
        assert(keys.contains((id as usize, b as usize, d as usize)));
        assert(b < p0.len());
        lemma_extends_index(p0, p3, b);
        assert(added_for(keys, p0, vs, id as int, ts[q], s, k));
    }
}

/// Adding the transforms `ts` of `pattern` (id `id`) and of its neighbours
/// took the patterns from `vs0` to `vs` and the keys from `keys0` to `keys`,
/// and added nothing else: every new pattern is `pattern` or a neighbour
/// transformed by one of `ts`, and every new key is a transformed
/// constraint between them.
#[verifier::opaque]
pub open spec fn only_transforms_added(
    keys0: Set<(usize, usize, usize)>,
    vs0: Seq<PatternValue>,
    keys: Set<(usize, usize, usize)>,
    vs: Seq<PatternValue>,
    ts: Seq<PatternTransform>,
    pattern: PatternValue,
    id: usize,
) -> bool {
    &&& forall|j: int|
        vs0.len() <= j < vs.len() ==> own_transform(ts, pattern, #[trigger] vs[j]) || made_from(
            keys0,
            vs0,
            ts,
            id,
            vs[j],
        )
    &&& forall|k: (usize, usize, usize)|
        #[trigger] keys.contains(k) && !keys0.contains(k) ==> key_from_transforms(keys0, vs0, vs, ts, pattern, id, k)
}

/// The counts after sighting a pattern's own transforms `own` and then,
/// for the listed constraints, its neighbours' transforms.
pub proof fn lemma_transform_counts(
    c0: Seq<usize>,
    c3: Seq<usize>,
    cf: Seq<usize>,
    p0: Seq<PatternValue>,
    p3: Seq<PatternValue>,
    vf: Seq<PatternValue>,
    own: Seq<PatternValue>,
    keys: Set<(usize, usize, usize)>,
    id: usize,
    ts: Seq<PatternTransform>,
)
    requires
        counts_after(c0, c3, p3, own),
        extends(p0, p3),
        extends(p3, vf),
        distinct_values(vf),
        keys_below(keys, p0.len() as int),
        exists|ks: Seq<(usize, usize)>| key_list(keys, id, ks) && #[trigger] counts_after(c3, cf, vf, sightings(ks, p3, ts)),
    ensures
        exists|ks: Seq<(usize, usize)>|
            key_list(keys, id, ks) && #[trigger] counts_after(c0, cf, vf, own + sightings(ks, p0, ts)),
{
    let ks = choose|ks: Seq<(usize, usize)>| key_list(keys, id, ks) && #[trigger] counts_after(c3, cf, vf, sightings(ks, p3, ts));
    assert forall|k: int| 0 <= k < ks.len() implies (#[trigger] ks[k]).0 < p0.len() by {
        assert(ks.contains(ks[k]));
        assert(keys.contains((id, ks[k].0, ks[k].1)));
    }
    lemma_sightings_prefix(ks, p0, p3, ts);
    lemma_counts_compose(c0, c3, cf, p3, vf, own, sightings(ks, p0, ts));
}

/// `v` under the transforms of `w`, first to last.
pub open spec fn apply_value(w: Seq<PatternTransform>, v: PatternValue) -> PatternValue
    decreases w.len(),
{
    if w.len() == 0 {
        v
    } else {
        transform_value(w.last(), apply_value(w.drop_last(), v))
    }
}

/// Direction `d` under the transforms of `w`, first to last.
pub open spec fn apply_dir(w: Seq<PatternTransform>, d: ConstraintDirection) -> ConstraintDirection
    decreases w.len(),
{
    if w.len() == 0 {
        d
    } else {
        transform_direction(w.last(), apply_dir(w.drop_last(), d))
    }
}

/// Every transform of `w` is one of `ts`.
pub open spec fn word_of(w: Seq<PatternTransform>, ts: Seq<PatternTransform>) -> bool {
    forall|i: int| 0 <= i < w.len() ==> ts.contains(#[trigger] w[i])
}

/// `keys` holds a rule between patterns of `vs` with the values `va` and
/// `vb` in direction `d`.
pub open spec fn key_rule(
    keys: Set<(usize, usize, usize)>,
    vs: Seq<PatternValue>,
    va: PatternValue,
    vb: PatternValue,
    d: ConstraintDirection,
) -> bool {
    exists|a: usize, b: usize, di: usize|
        #[trigger] keys.contains((a, b, di)) && vs[a as int] == va && vs[b as int] == vb && spec_direction_at(di as int) == d
}

/// `v` is one of `vs0` under transforms of `ts`.
pub open spec fn value_from(vs0: Seq<PatternValue>, ts: Seq<PatternTransform>, v: PatternValue) -> bool {
    exists|w: Seq<PatternTransform>, a: int| 0 <= a < vs0.len() && word_of(w, ts) && v == #[trigger] apply_value(w, vs0[a])
}

/// The rule `(va, vb, d)` is one of the rules `base` under transforms of
/// `ts`.
pub open spec fn rule_from(
    base: spec_fn(PatternValue, PatternValue, ConstraintDirection) -> bool,
    ts: Seq<PatternTransform>,
    va: PatternValue,
    vb: PatternValue,
    d: ConstraintDirection,
) -> bool {
    exists|w: Seq<PatternTransform>, va0: PatternValue, vb0: PatternValue, d0: ConstraintDirection|
        #![trigger base(va0, vb0, d0), apply_value(w, va0), apply_value(w, vb0)]
        word_of(w, ts) && base(va0, vb0, d0) && va == apply_value(w, va0) && vb == apply_value(w, vb0) && d == apply_dir(w, d0)
}

/// The rules `base` hold both ways.
#[verifier::opaque]
pub open spec fn base_symmetric(base: spec_fn(PatternValue, PatternValue, ConstraintDirection) -> bool) -> bool {
    forall|va: PatternValue, vb: PatternValue, d: ConstraintDirection| #[trigger] base(va, vb, d) ==> base(vb, va, spec_reverse(d))
}

/// Every rule of `keys` over `vs` is one of the rules `base` under
/// transforms of `ts`.
#[verifier::opaque]
pub open spec fn rules_from(
    keys: Set<(usize, usize, usize)>,
    vs: Seq<PatternValue>,
    base: spec_fn(PatternValue, PatternValue, ConstraintDirection) -> bool,
    ts: Seq<PatternTransform>,
) -> bool {
    forall|k: (usize, usize, usize)|
        #[trigger] keys.contains(k) ==> rule_from(base, ts, vs[k.0 as int], vs[k.1 as int], spec_direction_at(k.2 as int))
}

/// Every pattern of `vs` is one of `vs0` under transforms of `ts`.
#[verifier::opaque]
pub open spec fn values_from(vs: Seq<PatternValue>, vs0: Seq<PatternValue>, ts: Seq<PatternTransform>) -> bool {
    forall|j: int| 0 <= j < vs.len() ==> value_from(vs0, ts, #[trigger] vs[j])
}

/// A transform and reversing a direction can be taken in either order.
pub proof fn lemma_transform_reverse(t: PatternTransform, d: ConstraintDirection)
    ensures
        transform_direction(t, spec_reverse(d)) == spec_reverse(transform_direction(t, d)),
{
    match t {
        PatternTransform::Rotation => match d {
            ConstraintDirection::Top => {},
            ConstraintDirection::Right => {},
            ConstraintDirection::Bottom => {},
            ConstraintDirection::Left => {},
            ConstraintDirection::TopRight => {},
            ConstraintDirection::BottomRight => {},
            ConstraintDirection::BottomLeft => {},
            ConstraintDirection::TopLeft => {},
        },
        PatternTransform::FlipX => match d {
            ConstraintDirection::Top => {},
            ConstraintDirection::Right => {},
            ConstraintDirection::Bottom => {},
            ConstraintDirection::Left => {},
            ConstraintDirection::TopRight => {},
            ConstraintDirection::BottomRight => {},
            ConstraintDirection::BottomLeft => {},
            ConstraintDirection::TopLeft => {},
        },
        PatternTransform::FlipY => match d {
            ConstraintDirection::Top => {},
            ConstraintDirection::Right => {},
            ConstraintDirection::Bottom => {},
            ConstraintDirection::Left => {},
            ConstraintDirection::TopRight => {},
            ConstraintDirection::BottomRight => {},
            ConstraintDirection::BottomLeft => {},
            ConstraintDirection::TopLeft => {},
        },
        PatternTransform::FlipXY => match d {
            ConstraintDirection::Top => {},
            ConstraintDirection::Right => {},
            ConstraintDirection::Bottom => {},
            ConstraintDirection::Left => {},
            ConstraintDirection::TopRight => {},
            ConstraintDirection::BottomRight => {},
            ConstraintDirection::BottomLeft => {},
            ConstraintDirection::TopLeft => {},
        },
    }
}

/// Transforms and reversing a direction can be taken in either order.
pub proof fn lemma_apply_dir_reverse(w: Seq<PatternTransform>, d: ConstraintDirection)
    ensures
        apply_dir(w, spec_reverse(d)) == spec_reverse(apply_dir(w, d)),
    decreases w.len(),
{
    if w.len() > 0 {
        lemma_apply_dir_reverse(w.drop_last(), d);
        lemma_transform_reverse(w.last(), apply_dir(w.drop_last(), d));
    }
}

/// One more transform at the end of a word.
pub proof fn lemma_apply_push(w: Seq<PatternTransform>, t: PatternTransform, v: PatternValue, d: ConstraintDirection)
    ensures
        apply_value(w.push(t), v) == transform_value(t, apply_value(w, v)),
        apply_dir(w.push(t), d) == transform_direction(t, apply_dir(w, d)),
{
    assert(w.push(t).drop_last() =~= w);
}

/// A rule from `base` stays one in the other direction when `base` holds
/// both ways.
pub proof fn lemma_rule_reverse(
    base: spec_fn(PatternValue, PatternValue, ConstraintDirection) -> bool,
    ts: Seq<PatternTransform>,
    va: PatternValue,
    vb: PatternValue,
    d: ConstraintDirection,
)
    requires
        base_symmetric(base),
        rule_from(base, ts, va, vb, d),
    ensures
        rule_from(base, ts, vb, va, spec_reverse(d)),
{
    reveal(base_symmetric);
    reveal(rules_from);
    reveal(values_from);
    let (w, va0, vb0, d0) = choose|w: Seq<PatternTransform>, va0: PatternValue, vb0: PatternValue, d0: ConstraintDirection|
        #![trigger base(va0, vb0, d0), apply_value(w, va0), apply_value(w, vb0)]
        word_of(w, ts) && base(va0, vb0, d0) && va == apply_value(w, va0) && vb == apply_value(w, vb0) && d == apply_dir(w, d0);
    lemma_apply_dir_reverse(w, d0);
    assert(base(vb0, va0, spec_reverse(d0)));
}

/// A rule from `base`, with both patterns and the direction under one more
/// transform `t` of `ts`, is one from `base`.
pub proof fn lemma_rule_push(
    base: spec_fn(PatternValue, PatternValue, ConstraintDirection) -> bool,
    ts: Seq<PatternTransform>,
    t: PatternTransform,
    va: PatternValue,
    vb: PatternValue,
    d: ConstraintDirection,
)
    requires
        rule_from(base, ts, va, vb, d),
        ts.contains(t),
    ensures
        rule_from(base, ts, transform_value(t, va), transform_value(t, vb), transform_direction(t, d)),
{
    let (w, va0, vb0, d0) = choose|w: Seq<PatternTransform>, va0: PatternValue, vb0: PatternValue, d0: ConstraintDirection|
        #![trigger base(va0, vb0, d0), apply_value(w, va0), apply_value(w, vb0)]
        word_of(w, ts) && base(va0, vb0, d0) && va == apply_value(w, va0) && vb == apply_value(w, vb0) && d == apply_dir(w, d0);
    let w2 = w.push(t);
    lemma_apply_push(w, t, va0, d0);
    lemma_apply_push(w, t, vb0, d0);
    assert(word_of(w2, ts)) by {
        assert forall|i: int| 0 <= i < w2.len() implies ts.contains(#[trigger] w2[i]) by {
            if i < w.len() {
                assert(w2[i] == w[i]);
            }
        }
    }
}

/// A value from `vs0`, under one more transform `t` of `ts`, is one from
/// `vs0`.
pub proof fn lemma_value_push(vs0: Seq<PatternValue>, ts: Seq<PatternTransform>, t: PatternTransform, v: PatternValue)
    requires
        value_from(vs0, ts, v),
        ts.contains(t),
    ensures
        value_from(vs0, ts, transform_value(t, v)),
{
    let (w, a) = choose|w: Seq<PatternTransform>, a: int| 0 <= a < vs0.len() && word_of(w, ts) && v == #[trigger] apply_value(w, vs0[a]);
    let w2 = w.push(t);
    lemma_apply_push(w, t, vs0[a], ConstraintDirection::Top);
    assert(word_of(w2, ts)) by {
        assert forall|i: int| 0 <= i < w2.len() implies ts.contains(#[trigger] w2[i]) by {
            if i < w.len() {
                assert(w2[i] == w[i]);
            }
        }
    }
}

/// Adding the transforms `tc` of pattern `pid` and of its neighbours keeps
/// every pattern one of `vs0` under transforms of `ts`, and every rule one
/// of `base` under them.
pub proof fn lemma_rules_step(
    c1: Set<(usize, usize, usize)>,
    v1: Seq<PatternValue>,
    c2: Set<(usize, usize, usize)>,
    v2: Seq<PatternValue>,
    tc: Seq<PatternTransform>,
    pv: PatternValue,
    pid: usize,
    vs0: Seq<PatternValue>,
    base: spec_fn(PatternValue, PatternValue, ConstraintDirection) -> bool,
    ts: Seq<PatternTransform>,
)
    requires
        only_transforms_added(c1, v1, c2, v2, tc, pv, pid),
        extends(v1, v2),
        keys_below(c1, v1.len() as int),
        pid < v1.len(),
        v2.len() <= usize::MAX,
        v1[pid as int] == pv,
        forall|q: int| 0 <= q < tc.len() ==> ts.contains(#[trigger] tc[q]),
        values_from(v1, vs0, ts),
    ensures
        base_symmetric(base) && rules_from(c1, v1, base, ts) ==> rules_from(c2, v2, base, ts),
        values_from(v2, vs0, ts),
{
    reveal(base_symmetric);
    reveal(rules_from);
    reveal(values_from);
    reveal(only_transforms_added);
    assert forall|j: int| 0 <= j < v2.len() implies value_from(vs0, ts, #[trigger] v2[j]) by {
        if j < v1.len() {
            lemma_extends_index(v1, v2, j);
        } else if own_transform(tc, pv, v2[j]) {
            let q = choose|q: int| 0 <= q < tc.len() && v2[j] == transform_value(#[trigger] tc[q], pv);
            assert(value_from(vs0, ts, v1[pid as int]));
            lemma_value_push(vs0, ts, tc[q], pv);
        } else {
            assert(made_from(c1, v1, tc, pid, v2[j]));
            let (b, d, q) = choose|b: usize, d: usize, q: int|
                #![trigger c1.contains((pid, b, d)), tc[q]]
                c1.contains((pid, b, d)) && 0 <= q < tc.len() && v2[j] == transform_value(tc[q], v1[b as int]);
            assert(b < v1.len());
            assert(value_from(vs0, ts, v1[b as int]));
            lemma_value_push(vs0, ts, tc[q], v1[b as int]);
        }
    }
    if base_symmetric(base) && rules_from(c1, v1, base, ts) {
    assert forall|k: (usize, usize, usize)|
        #[trigger] c2.contains(k) implies rule_from(base, ts, v2[k.0 as int], v2[k.1 as int], spec_direction_at(k.2 as int)) by {
        if c1.contains(k) {
            assert(k.0 < v1.len() && k.1 < v1.len());
            lemma_extends_index(v1, v2, k.0 as int);
            lemma_extends_index(v1, v2, k.1 as int);
        } else {
            assert(key_from_transforms(c1, v1, v2, tc, pv, pid, k));
            let (q, s) = choose|q: int, s: int|
                #![trigger tc[q], v2[s]]
                0 <= q < tc.len() && 0 <= s < v2.len() && v2[s] == transform_value(tc[q], pv) && added_for(
                    c1,
                    v1,
                    v2,
                    pid as int,
                    tc[q],
                    s,
                    k,
                );
            let t = tc[q];
            let (b, d, j) = choose|b: int, d: int, j: int|
                #![trigger c1.contains((pid as int as usize, b as usize, d as usize)), v2[j]]
                c1.contains((pid as int as usize, b as usize, d as usize)) && 0 <= b < v1.len() && 0 <= d < 8 && 0 <= j
                    < v2.len() && v2[j] == transform_value(t, v1[b]) && both_ways(k, s, j, transform_direction(t, spec_direction_at(d)));
            let key0 = (pid, b as usize, d as usize);
            assert(c1.contains(key0));
            assert(b as usize as int == b && d as usize as int == d);
            assert(rule_from(base, ts, v1[pid as int], v1[b], spec_direction_at(d)));
            lemma_rule_push(base, ts, t, pv, v1[b], spec_direction_at(d));
            let dir = transform_direction(t, spec_direction_at(d));
            crate::world::ms::constraint::lemma_direction_index_bijective(dir, dir);
            crate::world::ms::constraint::lemma_direction_index_bijective(spec_reverse(dir), spec_reverse(dir));
            if k == (s as usize, j as usize, spec_direction_index(dir) as usize) {
                assert(s as usize as int == s && j as usize as int == j);
            } else {
                assert(k == (j as usize, s as usize, spec_direction_index(spec_reverse(dir)) as usize));
                assert(s as usize as int == s && j as usize as int == j);
                lemma_rule_reverse(base, ts, transform_value(t, pv), transform_value(t, v1[b]), dir);
            }
        }
    }
    }
}

/// The rules of `keys` over `vs`, as a relation on values.
pub open spec fn rules_of(keys: Set<(usize, usize, usize)>, vs: Seq<PatternValue>) -> spec_fn(PatternValue, PatternValue, ConstraintDirection) -> bool {
    |va: PatternValue, vb: PatternValue, d: ConstraintDirection| key_rule(keys, vs, va, vb, d)
}

/// Before any transform, every rule and every pattern is one of its own.
pub proof fn lemma_rules_start(keys: Set<(usize, usize, usize)>, vs: Seq<PatternValue>, ts: Seq<PatternTransform>)
    requires
        keys_below(keys, vs.len() as int),
    ensures
        rules_from(keys, vs, rules_of(keys, vs), ts),
        values_from(vs, vs, ts),
        keys_symmetric(keys) ==> base_symmetric(rules_of(keys, vs)),
{
    reveal(base_symmetric);
    reveal(rules_from);
    reveal(values_from);
    let e = Seq::<PatternTransform>::empty();
    assert(word_of(e, ts));
    assert forall|k: (usize, usize, usize)| #[trigger] keys.contains(k) implies rule_from(
        rules_of(keys, vs),
        ts,
        vs[k.0 as int],
        vs[k.1 as int],
        spec_direction_at(k.2 as int),
    ) by {
        assert(key_rule(keys, vs, vs[k.0 as int], vs[k.1 as int], spec_direction_at(k.2 as int)));
        assert(rules_of(keys, vs)(vs[k.0 as int], vs[k.1 as int], spec_direction_at(k.2 as int)));
        assert(apply_value(e, vs[k.0 as int]) == vs[k.0 as int]);
        assert(apply_value(e, vs[k.1 as int]) == vs[k.1 as int]);
        assert(apply_dir(e, spec_direction_at(k.2 as int)) == spec_direction_at(k.2 as int));
    }
    assert forall|j: int| 0 <= j < vs.len() implies value_from(vs, ts, #[trigger] vs[j]) by {
        assert(apply_value(e, vs[j]) == vs[j]);
    }
    if keys_symmetric(keys) {
        assert forall|va: PatternValue, vb: PatternValue, d: ConstraintDirection| #[trigger] rules_of(keys, vs)(va, vb, d)
            implies rules_of(keys, vs)(vb, va, spec_reverse(d)) by {
            let (a, b, di) = choose|a: usize, b: usize, di: usize|
                #[trigger] keys.contains((a, b, di)) && vs[a as int] == va && vs[b as int] == vb && spec_direction_at(di as int) == d;
            assert(di < 8);
            crate::world::ms::constraint::lemma_direction_at_index(di as int);
            crate::world::ms::constraint::lemma_direction_index_bijective(spec_reverse(d), spec_reverse(d));
            crate::world::ms::constraint::lemma_direction_index_bijective(d, d);
            assert(keys.contains((b, a, reverse_index(di as int) as usize)));
            assert(key_rule(keys, vs, vb, va, spec_reverse(d)));
        }
    }
}

/// The quarter turn and the three mirror images.
pub open spec fn all_transforms() -> Seq<PatternTransform> {
    seq![PatternTransform::Rotation, PatternTransform::FlipX, PatternTransform::FlipY, PatternTransform::FlipXY]
}

/// Applying two words in turn is applying the joined word.
pub proof fn lemma_apply_concat(w1: Seq<PatternTransform>, w2: Seq<PatternTransform>, v: PatternValue, d: ConstraintDirection)
    ensures
        apply_value(w1 + w2, v) == apply_value(w2, apply_value(w1, v)),
        apply_dir(w1 + w2, d) == apply_dir(w2, apply_dir(w1, d)),
    decreases w2.len(),
{
    if w2.len() == 0 {
        assert(w1 + w2 =~= w1);
    } else {
        lemma_apply_concat(w1, w2.drop_last(), v, d);
        assert((w1 + w2).drop_last() =~= w1 + w2.drop_last());
        assert((w1 + w2).last() == w2.last());
    }
}

/// A word of a word of `ts1` then of `ts2` is a word of `ts` when `ts`
/// holds both.
pub proof fn lemma_word_concat(
    w1: Seq<PatternTransform>,
    w2: Seq<PatternTransform>,
    ts1: Seq<PatternTransform>,
    ts2: Seq<PatternTransform>,
    ts: Seq<PatternTransform>,
)
    requires
        word_of(w1, ts1),
        word_of(w2, ts2),
        forall|t: PatternTransform| ts1.contains(t) ==> ts.contains(t),
        forall|t: PatternTransform| ts2.contains(t) ==> ts.contains(t),
    ensures
        word_of(w1 + w2, ts),
{
    assert forall|i: int| 0 <= i < (w1 + w2).len() implies ts.contains(#[trigger] (w1 + w2)[i]) by {
        if i < w1.len() {
            assert((w1 + w2)[i] == w1[i]);
            assert(ts1.contains(w1[i]));
        } else {
            assert((w1 + w2)[i] == w2[i - w1.len()]);
            assert(ts2.contains(w2[i - w1.len()]));
        }
    }
}

/// Rules from the rules of `c1` under transforms of `ts2`, where those are
/// rules from `base` under transforms of `ts1`, are rules from `base` under
/// transforms of `ts`.
pub proof fn lemma_rules_compose(
    c2: Set<(usize, usize, usize)>,
    v2: Seq<PatternValue>,
    c1: Set<(usize, usize, usize)>,
    v1: Seq<PatternValue>,
    base: spec_fn(PatternValue, PatternValue, ConstraintDirection) -> bool,
    ts1: Seq<PatternTransform>,
    ts2: Seq<PatternTransform>,
    ts: Seq<PatternTransform>,
)
    requires
        rules_from(c2, v2, rules_of(c1, v1), ts2),
        rules_from(c1, v1, base, ts1),
        forall|t: PatternTransform| ts1.contains(t) ==> ts.contains(t),
        forall|t: PatternTransform| ts2.contains(t) ==> ts.contains(t),
    ensures
        rules_from(c2, v2, base, ts),
{
    reveal(rules_from);
    assert forall|k: (usize, usize, usize)|
        #[trigger] c2.contains(k) implies rule_from(base, ts, v2[k.0 as int], v2[k.1 as int], spec_direction_at(k.2 as int)) by {
        let va = v2[k.0 as int];
        let vb = v2[k.1 as int];
        let d = spec_direction_at(k.2 as int);
        assert(rule_from(rules_of(c1, v1), ts2, va, vb, d));
        let (w2, va1, vb1, d1) = choose|w: Seq<PatternTransform>, va0: PatternValue, vb0: PatternValue, d0: ConstraintDirection|
            #![trigger rules_of(c1, v1)(va0, vb0, d0), apply_value(w, va0), apply_value(w, vb0)]
            word_of(w, ts2) && rules_of(c1, v1)(va0, vb0, d0) && va == apply_value(w, va0) && vb == apply_value(w, vb0) && d
                == apply_dir(w, d0);
        assert(key_rule(c1, v1, va1, vb1, d1));
        let (a, b, di) = choose|a: usize, b: usize, di: usize|
            #[trigger] c1.contains((a, b, di)) && v1[a as int] == va1 && v1[b as int] == vb1 && spec_direction_at(di as int) == d1;
        assert(rule_from(base, ts1, va1, vb1, d1));
        let (w1, va0, vb0, d0) = choose|w: Seq<PatternTransform>, va0: PatternValue, vb0: PatternValue, d0: ConstraintDirection|
            #![trigger base(va0, vb0, d0), apply_value(w, va0), apply_value(w, vb0)]
            word_of(w, ts1) && base(va0, vb0, d0) && va1 == apply_value(w, va0) && vb1 == apply_value(w, vb0) && d1
                == apply_dir(w, d0);
        lemma_apply_concat(w1, w2, va0, d0);
        lemma_apply_concat(w1, w2, vb0, d0);
        lemma_word_concat(w1, w2, ts1, ts2, ts);
    }
}

/// Patterns from `v1` under transforms of `ts2`, where those are from `v0`
/// under transforms of `ts1`, are from `v0` under transforms of `ts`.
pub proof fn lemma_values_compose(
    v2: Seq<PatternValue>,
    v1: Seq<PatternValue>,
    v0: Seq<PatternValue>,
    ts1: Seq<PatternTransform>,
    ts2: Seq<PatternTransform>,
    ts: Seq<PatternTransform>,
)
    requires
        values_from(v2, v1, ts2),
        values_from(v1, v0, ts1),
        forall|t: PatternTransform| ts1.contains(t) ==> ts.contains(t),
        forall|t: PatternTransform| ts2.contains(t) ==> ts.contains(t),
    ensures
        values_from(v2, v0, ts),
{
    reveal(values_from);
    assert forall|j: int| 0 <= j < v2.len() implies value_from(v0, ts, #[trigger] v2[j]) by {
        let (w2, a) = choose|w: Seq<PatternTransform>, a: int| 0 <= a < v1.len() && word_of(w, ts2) && v2[j] == #[trigger] apply_value(w, v1[a]);
        assert(value_from(v0, ts1, v1[a]));
        let (w1, b) = choose|w: Seq<PatternTransform>, b: int| 0 <= b < v0.len() && word_of(w, ts1) && v1[a] == #[trigger] apply_value(w, v0[b]);
        lemma_apply_concat(w1, w2, v0[b], ConstraintDirection::Top);
        lemma_word_concat(w1, w2, ts1, ts2, ts);
    }
}

/// The three mirror images: along the first axis, the second, and both.
pub open spec fn flip_transforms() -> Seq<PatternTransform> {
    seq![PatternTransform::FlipX, PatternTransform::FlipY, PatternTransform::FlipXY]
}

/// The quarter turn.
pub open spec fn rotation_transforms() -> Seq<PatternTransform> {
    seq![PatternTransform::Rotation]
}

impl PatternCollection {
    /// Adds (or finds) the transformed pattern `b` and records the transformed
    /// constraint between `source_id` and it, both ways, in `new_constraints`.
    fn add_transformed_pair(
        &mut self,
        t: PatternTransform,
        source_id: usize,
        b: usize,
        d: ConstraintDirection,
        new_constraints: &mut Vec<Constraint>,
    ) -> (r: usize)
        requires
            old(self).well_formed(),
            b < old(self).patterns.len(),
            source_id < old(self).patterns.len(),
        ensures
            final(self).well_formed(),
            extends(old(self).values(), final(self).values()),
            r < final(self).patterns.len(),
            final(self).values()[r as int] == transform_value(t, old(self).values()[b as int]),
            forall|j: int|
                old(self).values().len() <= j < final(self).values().len() ==> #[trigger] final(self).values()[j]
                    == transform_value(t, old(self).values()[b as int]),
            forall|c0: Seq<usize>, calls: Seq<PatternValue>|
                #[trigger] counts_after(c0, old(self).pattern_counts@, old(self).values(), calls) ==> counts_after(
                    c0,
                    final(self).pattern_counts@,
                    final(self).values(),
                    calls.push(transform_value(t, old(self).values()[b as int])),
                ),
            forall|n: usize|
                #[trigger] all_square(old(self).values(), n) ==> all_square(final(self).values(), n),
            final(new_constraints)@ == old(new_constraints)@.push(
                Constraint {
                    pattern_a_id: source_id,
                    pattern_b_id: r,
                    direction: transform_direction(t, d),
                },
            ).push(
                Constraint {
                    pattern_a_id: r,
                    pattern_b_id: source_id,
                    direction: spec_reverse(transform_direction(t, d)),
                },
            ),
    {
        proof {
            assert(self.values()[b as int] == self.patterns@[b as int].value());
            assert(self.patterns@[b as int].well_formed());
            crate::world::ms::pattern::lemma_transform_well_formed(t, self.values()[b as int]);
        }
        let other = self.patterns[b].transformed(t);
        proof {
            assert forall|n: usize| #[trigger] all_square(self.values(), n) implies other.size == [
                n,
                n,
            ] by {
                lemma_transform_square(t, self.values()[b as int], n);
            }
        }
        let other_id = self.add_or_get(other);
        let td = t.direction(d);
        new_constraints.push(
            Constraint { pattern_a_id: source_id, pattern_b_id: other_id, direction: td },
        );
        new_constraints.push(
            Constraint { pattern_a_id: other_id, pattern_b_id: source_id, direction: td.reverse() },
        );
        other_id
    }

    /// For every constraint `(pattern_id, b, d)` held, and every source
    /// `(t, s)` in order, adds the pattern `b` transformed by `t` and the
    /// constraint between `s` and it in direction `d` transformed by `t`,
    /// both ways.
    fn add_transformed_constraints(
        &mut self,
        constraint_collection: &mut ConstraintCollection,
        pattern_id: usize,
        sources: &Vec<(PatternTransform, usize)>,
    )
        requires
            old(self).well_formed(),
            keys_below(old(constraint_collection).keys(), old(self).patterns.len() as int),
            forall|q: int| 0 <= q < sources.len() ==> #[trigger] sources@[q].1 < old(self).patterns.len(),
        ensures
            final(self).well_formed(),
            extends(old(self).values(), final(self).values()),
            keys_below(final(constraint_collection).keys(), final(self).patterns.len() as int),
            old(constraint_collection).keys().subset_of(final(constraint_collection).keys()),
            keys_symmetric(old(constraint_collection).keys()) ==> keys_symmetric(
                final(constraint_collection).keys(),
            ),
            forall|n: usize|
                #[trigger] all_square(old(self).values(), n) ==> all_square(final(self).values(), n),
            forall|b: usize, d: usize, q: int|
                #![trigger old(constraint_collection).keys().contains((pattern_id, b, d)), sources@[q]]
                old(constraint_collection).keys().contains((pattern_id, b, d)) && 0 <= q
                    < sources.len() ==> value_present(
                    final(self).values(),
                    transform_value(sources@[q].0, old(self).values()[b as int]),
                ) && edge_present(
                    final(constraint_collection).keys(),
                    final(self).values(),
                    old(self).values()[sources@[q].1 as int],
                    transform_value(sources@[q].0, old(self).values()[b as int]),
                    transform_direction(sources@[q].0, spec_direction_at(d as int)),
                ),
            forall|j: int|
                old(self).values().len() <= j < final(self).values().len() ==> made_from(
                    old(constraint_collection).keys(),
                    old(self).values(),
                    source_transforms(sources@),
                    pattern_id,
                    #[trigger] final(self).values()[j],
                ),
            exists|ks: Seq<(usize, usize)>|
                key_list(old(constraint_collection).keys(), pattern_id, ks) && #[trigger] counts_after(
                    old(self).pattern_counts@,
                    final(self).pattern_counts@,
                    final(self).values(),
                    sightings(ks, old(self).values(), source_transforms(sources@)),
                ),
            forall|k: (usize, usize, usize)|
                #[trigger] final(constraint_collection).keys().contains(k) && !old(
                    constraint_collection,
                ).keys().contains(k) ==> exists|q: int|
                    0 <= q < sources.len() && added_for(
                        old(constraint_collection).keys(),
                        old(self).values(),
                        final(self).values(),
                        pattern_id as int,
                        sources@[q].0,
                        sources@[q].1 as int,
                        k,
                    ),
    {
        let ghost p0 = self.values();
        let ghost c0 = constraint_collection.keys();
        let ghost n_sources = sources@.len();
        assert(self.values().subrange(0, p0.len() as int) =~= p0);
        let cs = constraint_collection.to_vec();
        assert forall|c: Constraint| #[trigger] c0.contains(constraint_key(c)) implies cs@.contains(
            c,
        ) by {
            assert(constraint_collection.holds(c));
        }
        let ghost c_start = self.pattern_counts@;
        let ghost ts = source_transforms(sources@);
        let ghost mut ks: Seq<(usize, usize)> = Seq::empty();
        proof {
            lemma_counts_none(c_start, p0);
        }
        let mut new_constraints: Vec<Constraint> = Vec::new();
        // one entry per recorded pair: (b, direction index, source position, new pattern id)
        let ghost mut ws: Seq<(int, int, int, int)> = Seq::empty();
        // where the pair of constraint position m and source position q was recorded
        let ghost mut pos: Map<(int, int), int> = Map::empty();
        let mut i: usize = 0;
        while i < cs.len()
            invariant
                0 <= i <= cs.len(),
                self.well_formed(),
                extends(p0, self.values()),
                forall|n: usize| #[trigger] all_square(p0, n) ==> all_square(self.values(), n),
                c0 == old(constraint_collection).keys(),
                p0 == old(self).values(),
                n_sources == sources@.len(),
                keys_below(c0, p0.len() as int),
                forall|q: int| 0 <= q < sources.len() ==> #[trigger] sources@[q].1 < p0.len(),
                forall|m: int| 0 <= m < cs@.len() ==> c0.contains(constraint_key(#[trigger] cs@[m])),
                forall|m1: int, m2: int| 0 <= m1 < m2 < cs@.len() ==> #[trigger] cs@[m1] != #[trigger] cs@[m2],
                c_start == old(self).pattern_counts@,
                ts == source_transforms(sources@),
                counts_after(c_start, self.pattern_counts@, self.values(), sightings(ks, p0, ts)),
                ks.no_duplicates(),
                forall|k: int|
                    0 <= k < ks.len() ==> exists|m: int|
                        0 <= m < i && cs@[m].pattern_a_id == pattern_id && #[trigger] ks[k] == pair_of(cs@[m]),
                forall|m: int| 0 <= m < i && cs@[m].pattern_a_id == pattern_id ==> ks.contains(pair_of(#[trigger] cs@[m])),
                forall|j: int|
                    p0.len() <= j < self.values().len() ==> made_from(
                        c0,
                        p0,
                        source_transforms(sources@),
                        pattern_id,
                        #[trigger] self.values()[j],
                    ),
                new_constraints@.len() == 2 * ws.len(),
                forall|u: int|
                    #![trigger ws[u]]
                    0 <= u < ws.len() ==> pair_recorded(
                        c0,
                        p0,
                        self.values(),
                        sources@,
                        pattern_id,
                        ws[u],
                        new_constraints@[2 * u],
                        new_constraints@[2 * u + 1],
                    ),
                forall|m: int, q: int|
                    #![trigger position_recorded(pos, ws, cs@, m, q)]
                    0 <= m < i && 0 <= q < n_sources && cs@[m].pattern_a_id == pattern_id
                        ==> position_recorded(pos, ws, cs@, m, q),
            decreases cs.len() - i,
        {
            let c = cs[i];
            let ghost ks_prev = ks;
            if c.pattern_a_id == pattern_id {
                assert(c0.contains(constraint_key(c)));
                proof {
                    if ks_prev.contains(pair_of(c)) {
                        let k = choose|k: int| 0 <= k < ks_prev.len() && ks_prev[k] == pair_of(c);
                        let m = choose|m: int|
                            0 <= m < i && cs@[m].pattern_a_id == pattern_id && #[trigger] ks_prev[k] == pair_of(cs@[m]);
                        crate::world::ms::constraint::lemma_direction_index_bijective(cs@[m].direction, c.direction);
                        crate::world::ms::constraint::lemma_direction_index_bijective(c.direction, c.direction);
                        crate::world::ms::constraint::lemma_direction_index_bijective(cs@[m].direction, cs@[m].direction);
                        assert(cs@[m] == c);
                        assert(cs@[m] != cs@[i as int]);
                    }
                    ks = ks.push(pair_of(c));
                    assert forall|k: int|
                        0 <= k < ks.len() implies exists|m: int|
                            0 <= m < i + 1 && cs@[m].pattern_a_id == pattern_id && #[trigger] ks[k] == pair_of(cs@[m]) by {
                        if k < ks_prev.len() {
                            assert(ks[k] == ks_prev[k]);
                        } else {
                            assert(ks[k] == pair_of(cs@[i as int]));
                        }
                    }
                    assert forall|m: int| 0 <= m < i + 1 && cs@[m].pattern_a_id == pattern_id implies ks.contains(pair_of(#[trigger] cs@[m])) by {
                        if m < i {
                            assert(ks_prev.contains(pair_of(cs@[m])));
                            let k = choose|k: int| 0 <= k < ks_prev.len() && ks_prev[k] == pair_of(cs@[m]);
                            assert(ks[k] == ks_prev[k]);
                        } else {
                            assert(ks[ks.len() - 1] == pair_of(cs@[m]));
                        }
                    }
                }
                proof {
                    assert(c.pattern_b_id < p0.len());
                    assert(sightings(ks_prev, p0, ts) + Seq::new(
                        0nat,
                        |q2: int| transform_value(ts[q2], p0[c.pattern_b_id as int]),
                    ) =~= sightings(ks_prev, p0, ts));
                }
                let mut q: usize = 0;
                while q < sources.len()
                    invariant
                        0 <= i < cs.len(),
                        c == cs@[i as int],
                        c.pattern_a_id == pattern_id,
                        c0.contains(constraint_key(c)),
                        0 <= q <= sources.len(),
                        c_start == old(self).pattern_counts@,
                        ts == source_transforms(sources@),
                        c.pattern_b_id < p0.len(),
                        counts_after(
                            c_start,
                            self.pattern_counts@,
                            self.values(),
                            sightings(ks_prev, p0, ts) + Seq::new(
                                q as nat,
                                |q2: int| transform_value(ts[q2], p0[c.pattern_b_id as int]),
                            ),
                        ),
                        forall|j: int|
                            p0.len() <= j < self.values().len() ==> made_from(
                                c0,
                                p0,
                                source_transforms(sources@),
                                pattern_id,
                                #[trigger] self.values()[j],
                            ),
                        self.well_formed(),
                        extends(p0, self.values()),
                        forall|n: usize| #[trigger] all_square(p0, n) ==> all_square(self.values(), n),
                        c0 == old(constraint_collection).keys(),
                        p0 == old(self).values(),
                        n_sources == sources@.len(),
                        keys_below(c0, p0.len() as int),
                        forall|q: int| 0 <= q < sources.len() ==> #[trigger] sources@[q].1 < p0.len(),
                        new_constraints@.len() == 2 * ws.len(),
                        forall|u: int|
                            #![trigger ws[u]]
                            0 <= u < ws.len() ==> pair_recorded(
                                c0,
                                p0,
                                self.values(),
                                sources@,
                                pattern_id,
                                ws[u],
                                new_constraints@[2 * u],
                                new_constraints@[2 * u + 1],
                            ),
                        forall|m: int, q2: int|
                            #![trigger position_recorded(pos, ws, cs@, m, q2)]
                            0 <= m < i && 0 <= q2 < n_sources && cs@[m].pattern_a_id == pattern_id
                                ==> position_recorded(pos, ws, cs@, m, q2),
                        forall|q2: int|
                            #![trigger position_recorded(pos, ws, cs@, i as int, q2)]
                            0 <= q2 < q ==> position_recorded(pos, ws, cs@, i as int, q2),
                    decreases sources.len() - q,
                {
                    let ghost before = self.values();
                    let ghost ncb = new_constraints@;
                    let ghost ws_before = ws;
                    let ghost pos_before = pos;
                    let (t, s) = sources[q];
                    proof {
                        lemma_extends_index(p0, self.values(), c.pattern_b_id as int);
                        assert(c.pattern_b_id < p0.len());
                    }
                    let j = self.add_transformed_pair(
                        t,
                        s,
                        c.pattern_b_id,
                        c.direction,
                        &mut new_constraints,
                    );
                    proof {
                        lemma_extends_trans(p0, before, self.values());
                        lemma_extends_index(p0, before, c.pattern_b_id as int);
                        let prev_calls = sightings(ks_prev, p0, ts) + Seq::new(
                            q as nat,
                            |q2: int| transform_value(ts[q2], p0[c.pattern_b_id as int]),
                        );
                        assert(ts[q as int] == t);
                        assert(prev_calls.push(transform_value(t, before[c.pattern_b_id as int])) =~= sightings(
                            ks_prev,
                            p0,
                            ts,
                        ) + Seq::new(
                            (q + 1) as nat,
                            |q2: int| transform_value(ts[q2], p0[c.pattern_b_id as int]),
                        ));
                        crate::world::ms::constraint::lemma_direction_index_bijective(
                            c.direction,
                            c.direction,
                        );
                        assert forall|j2: int|
                            p0.len() <= j2 < self.values().len() implies made_from(
                            c0,
                            p0,
                            source_transforms(sources@),
                            pattern_id,
                            #[trigger] self.values()[j2],
                        ) by {
                            if j2 < before.len() {
                                lemma_extends_index(before, self.values(), j2);
                                assert(made_from(c0, p0, source_transforms(sources@), pattern_id, before[j2]));
                            } else {
                                lemma_extends_index(p0, before, c.pattern_b_id as int);
                                let key = constraint_key(c);
                                assert(source_transforms(sources@)[q as int] == t);
                                assert(c0.contains((pattern_id, c.pattern_b_id, key.2)));
                            }
                        }
                        let w = (
                            c.pattern_b_id as int,
                            spec_direction_index(c.direction),
                            q as int,
                            j as int,
                        );
                        ws = ws.push(w);
                        pos = pos.insert((i as int, q as int), ws_before.len() as int);
                        assert forall|u: int|
                            #![trigger ws[u]]
                            0 <= u < ws.len() implies pair_recorded(
                            c0,
                            p0,
                            self.values(),
                            sources@,
                            pattern_id,
                            ws[u],
                            new_constraints@[2 * u],
                            new_constraints@[2 * u + 1],
                        ) by {
                            if u < ws_before.len() {
                                assert(ws[u] == ws_before[u]);
                                lemma_extends_index(before, self.values(), ws[u].3);
                                assert(new_constraints@[2 * u] == ncb[2 * u]);
                                assert(new_constraints@[2 * u + 1] == ncb[2 * u + 1]);
                            } else {
                                assert(ws[u] == w);
                                lemma_extends_index(p0, before, c.pattern_b_id as int);
                            }
                        }
                        assert forall|m: int, q2: int|
                            #![trigger position_recorded(pos, ws, cs@, m, q2)]
                            0 <= m < i && 0 <= q2 < n_sources && cs@[m].pattern_a_id == pattern_id
                                implies position_recorded(pos, ws, cs@, m, q2) by {
                            assert(position_recorded(pos_before, ws_before, cs@, m, q2));
                            assert((m, q2) != (i as int, q as int));
                            assert(pos[(m, q2)] == pos_before[(m, q2)]);
                        }
                        assert forall|q2: int|
                            #![trigger position_recorded(pos, ws, cs@, i as int, q2)]
                            0 <= q2 < q + 1 implies position_recorded(pos, ws, cs@, i as int, q2) by {
                            if q2 < q {
                                assert(position_recorded(pos_before, ws_before, cs@, i as int, q2));
                                assert(pos[(i as int, q2)] == pos_before[(i as int, q2)]);
                            }
                        }
                    }
                    q += 1;
                }
                proof {
                    assert(ks.drop_last() =~= ks_prev);
                    assert(Seq::new(
                        q as nat,
                        |q2: int| transform_value(ts[q2], p0[c.pattern_b_id as int]),
                    ) =~= Seq::new(ts.len(), |q2: int| transform_value(ts[q2], p0[ks.last().0 as int])));
                }
            }
            i += 1;
        }
        let ghost p1 = self.values();
        let mut k: usize = 0;
        while k < new_constraints.len()
            invariant
                k <= new_constraints.len(),
                self.well_formed(),
                p1 == self.values(),
                forall|j: int|
                    p0.len() <= j < self.values().len() ==> made_from(
                        c0,
                        p0,
                        source_transforms(sources@),
                        pattern_id,
                        #[trigger] self.values()[j],
                    ),
                forall|n: usize| #[trigger] all_square(p0, n) ==> all_square(self.values(), n),
                p0 == old(self).values(),
                extends(p0, self.values()),
                n_sources == sources@.len(),
                forall|q: int| 0 <= q < sources.len() ==> #[trigger] sources@[q].1 < p0.len(),
                new_constraints@.len() == 2 * ws.len(),
                forall|u: int|
                    #![trigger ws[u]]
                    0 <= u < ws.len() ==> pair_recorded(
                        c0,
                        p0,
                        self.values(),
                        sources@,
                        pattern_id,
                        ws[u],
                        new_constraints@[2 * u],
                        new_constraints@[2 * u + 1],
                    ),
                forall|key: (usize, usize, usize)|
                    #[trigger] constraint_collection.keys().contains(key) <==> c0.contains(key)
                        || exists|m: int|
                        0 <= m < k && constraint_key(#[trigger] new_constraints@[m]) == key,
            decreases new_constraints.len() - k,
        {
            let ghost before = constraint_collection.keys();
            proof {
                lemma_pair_of(k as int);
                let u = k as int / 2;
                assert(pair_recorded(
                    c0,
                    p0,
                    self.values(),
                    sources@,
                    pattern_id,
                    ws[u],
                    new_constraints@[2 * u],
                    new_constraints@[2 * u + 1],
                ));
                lemma_extends_index(p0, self.values(), sources@[ws[u].2].1 as int);
            }
            constraint_collection.add(new_constraints[k]);
            k += 1;
            assert forall|key: (usize, usize, usize)|
                #[trigger] constraint_collection.keys().contains(key) <==> c0.contains(key)
                    || exists|m: int|
                    0 <= m < k && constraint_key(#[trigger] new_constraints@[m]) == key by {
                if constraint_collection.keys().contains(key) && !c0.contains(key) {
                    if key == constraint_key(new_constraints@[k - 1]) {
                    } else {
                        assert(before.contains(key));
                    }
                }
                if exists|m: int| 0 <= m < k && constraint_key(#[trigger] new_constraints@[m]) == key {
                    let m = choose|m: int| 0 <= m < k && constraint_key(#[trigger] new_constraints@[m]) == key;
                    if m < k - 1 {
                        assert(before.contains(key));
                    }
                }
            }
        }
        proof {
            assert forall|b: usize, d: usize| #[trigger] ks.contains((b, d)) <==> c0.contains((pattern_id, b, d)) by {
                if ks.contains((b, d)) {
                    let k = choose|k: int| 0 <= k < ks.len() && ks[k] == (b, d);
                    let m = choose|m: int|
                        0 <= m < cs@.len() && cs@[m].pattern_a_id == pattern_id && #[trigger] ks[k] == pair_of(cs@[m]);
                    assert(c0.contains(constraint_key(cs@[m])));
                }
                if c0.contains((pattern_id, b, d)) {
                    assert(d < 8);
                    crate::world::ms::constraint::lemma_direction_at_index(d as int);
                    let cc = Constraint {
                        pattern_a_id: pattern_id,
                        pattern_b_id: b,
                        direction: spec_direction_at(d as int),
                    };
                    assert(constraint_key(cc) == (pattern_id, b, d));
                    assert(cs@.contains(cc));
                    let m = choose|m: int| 0 <= m < cs@.len() && cs@[m] == cc;
                    assert(ks.contains(pair_of(cs@[m])));
                }
            }
            assert(key_list(c0, pattern_id, ks));
        }
        proof {
            let c1 = constraint_collection.keys();
            let vs = self.values();
            assert forall|key: (usize, usize, usize)| #[trigger] c1.contains(key) implies key.0
                < vs.len() && key.1 < vs.len() && key.2 < 8 by {
                if !c0.contains(key) {
                    let m = choose|m: int|
                        0 <= m < new_constraints@.len() && constraint_key(
                            #[trigger] new_constraints@[m],
                        ) == key;
                    lemma_pair_of(m);
                    let u = m / 2;
                    assert(pair_recorded(
                        c0,
                        p0,
                        vs,
                        sources@,
                        pattern_id,
                        ws[u],
                        new_constraints@[2 * u],
                        new_constraints@[2 * u + 1],
                    ));
                    crate::world::ms::constraint::lemma_direction_index_bijective(
                        new_constraints@[m].direction,
                        new_constraints@[m].direction,
                    );
                }
            }
            assert(c0.subset_of(c1));
            assert forall|b: usize, d: usize, q: int|
                #![trigger c0.contains((pattern_id, b, d)), sources@[q]]
                c0.contains((pattern_id, b, d)) && 0 <= q < sources.len() implies value_present(
                vs,
                transform_value(sources@[q].0, p0[b as int]),
            ) && edge_present(
                c1,
                vs,
                p0[sources@[q].1 as int],
                transform_value(sources@[q].0, p0[b as int]),
                transform_direction(sources@[q].0, spec_direction_at(d as int)),
            ) by {
                let key = (pattern_id, b, d);
                assert(d < 8 && b < p0.len());
                crate::world::ms::constraint::lemma_direction_at_index(d as int);
                let c = Constraint {
                    pattern_a_id: pattern_id,
                    pattern_b_id: b,
                    direction: spec_direction_at(d as int),
                };
                assert(constraint_key(c) == key);
                assert(cs@.contains(c));
                let m = choose|m: int| 0 <= m < cs@.len() && cs@[m] == c;
                assert(position_recorded(pos, ws, cs@, m, q));
                let u = pos[(m, q)];
                let w = ws[u];
                assert(pair_recorded(
                    c0,
                    p0,
                    vs,
                    sources@,
                    pattern_id,
                    ws[u],
                    new_constraints@[2 * u],
                    new_constraints@[2 * u + 1],
                ));
                assert(w.0 == b && w.1 == d && w.2 == q);
                assert(c1.contains(constraint_key(new_constraints@[2 * u])));
                assert(c1.contains(constraint_key(new_constraints@[2 * u + 1])));
                let src = sources@[q].1 as int;
                lemma_extends_index(p0, vs, src);
                let dir = transform_direction(sources@[q].0, spec_direction_at(d as int));
                crate::world::ms::constraint::lemma_direction_index_bijective(dir, dir);
                crate::world::ms::constraint::lemma_direction_index_bijective(
                    spec_reverse(dir),
                    spec_reverse(dir),
                );
                assert forall|a: int, j: int|
                    #![trigger vs[a], vs[j]]
                    0 <= a < vs.len() && 0 <= j < vs.len() && vs[a] == p0[src] && vs[j]
                        == transform_value(sources@[q].0, p0[b as int]) implies c1.contains(
                    (a as usize, j as usize, spec_direction_index(dir) as usize),
                ) && c1.contains(
                    (j as usize, a as usize, spec_direction_index(spec_reverse(dir)) as usize),
                ) by {
                    assert(a == src);
                    assert(j == w.3);
                }
            }
            if keys_symmetric(c0) {
                assert forall|a: usize, b: usize, d: usize|
                    #[trigger] c1.contains((a, b, d)) implies c1.contains(
                    (b, a, reverse_index(d as int) as usize),
                ) by {
                    if !c0.contains((a, b, d)) {
                        let m = choose|m: int|
                            0 <= m < new_constraints@.len() && constraint_key(
                                #[trigger] new_constraints@[m],
                            ) == (a, b, d);
                        lemma_pair_of(m);
                        let u = m / 2;
                        assert(pair_recorded(
                            c0,
                            p0,
                            vs,
                            sources@,
                            pattern_id,
                            ws[u],
                            new_constraints@[2 * u],
                            new_constraints@[2 * u + 1],
                        ));
                        lemma_reverse_key(new_constraints@[2 * u].direction);
                        if m == 2 * u {
                            assert(c1.contains(constraint_key(new_constraints@[2 * u + 1])));
                        } else {
                            assert(c1.contains(constraint_key(new_constraints@[2 * u])));
                        }
                    }
                }
            }
            assert forall|key: (usize, usize, usize)|
                #[trigger] c1.contains(key) && !c0.contains(key) implies exists|q: int|
                0 <= q < sources.len() && added_for(
                    c0,
                    p0,
                    vs,
                    pattern_id as int,
                    sources@[q].0,
                    sources@[q].1 as int,
                    key,
                ) by {
                let m = choose|m: int|
                    0 <= m < new_constraints@.len() && constraint_key(#[trigger] new_constraints@[m])
                        == key;
                lemma_pair_of(m);
                let u = m / 2;
                let w = ws[u];
                assert(pair_recorded(
                    c0,
                    p0,
                    vs,
                    sources@,
                    pattern_id,
                    ws[u],
                    new_constraints@[2 * u],
                    new_constraints@[2 * u + 1],
                ));
                let q = w.2;
                assert(c0.contains((pattern_id as usize, w.0 as usize, w.1 as usize)));
                assert(vs[w.3] == transform_value(sources@[q].0, p0[w.0]));
                assert(added_for(
                    c0,
                    p0,
                    vs,
                    pattern_id as int,
                    sources@[q].0,
                    sources@[q].1 as int,
                    key,
                ));
            }
        }
    }
}

impl PatternCollection {
    /// Adds `pattern` turned a quarter, and for every constraint held from
    /// `pattern_id` to some pattern, that pattern turned a quarter and the
    /// turned constraint between the two turned patterns, both ways.
    /// Returns the turned pattern and its id.
    fn add_rotations_of_pattern(
        &mut self,
        constraint_collection: &mut ConstraintCollection,
        pattern: &Pattern,
        pattern_id: usize,
    ) -> (r: (Pattern, usize))
        requires
            old(self).well_formed(),
            keys_below(old(constraint_collection).keys(), old(self).patterns.len() as int),
            pattern.well_formed(),
        ensures
            final(self).well_formed(),
            extends(old(self).values(), final(self).values()),
            keys_below(final(constraint_collection).keys(), final(self).patterns.len() as int),
            old(constraint_collection).keys().subset_of(final(constraint_collection).keys()),
            keys_symmetric(old(constraint_collection).keys()) ==> keys_symmetric(
                final(constraint_collection).keys(),
            ),
            r.0.well_formed(),
            r.0.value() == transform_value(PatternTransform::Rotation, pattern.value()),
            forall|n: usize|
                #[trigger] all_square(old(self).values(), n) && pattern.size == [n, n]
                    ==> all_square(final(self).values(), n) && r.0.size == [n, n],
            r.1 < final(self).patterns.len(),
            final(self).values()[r.1 as int] == r.0.value(),
            forall|b: usize, d: usize|
                #[trigger] old(constraint_collection).keys().contains((pattern_id, b, d))
                    ==> transformed_edge(
                    final(constraint_collection).keys(),
                    final(self).values(),
                    PatternTransform::Rotation,
                    pattern.value(),
                    old(self).values()[b as int],
                    spec_direction_at(d as int),
                ),
            only_transforms_added(
                old(constraint_collection).keys(),
                old(self).values(),
                final(constraint_collection).keys(),
                final(self).values(),
                rotation_transforms(),
                pattern.value(),
                pattern_id,
            ),
            exists|ks: Seq<(usize, usize)>|
                key_list(old(constraint_collection).keys(), pattern_id, ks) && #[trigger] counts_after(
                    old(self).pattern_counts@,
                    final(self).pattern_counts@,
                    final(self).values(),
                    own_sightings(rotation_transforms(), pattern.value()) + sightings(ks, old(self).values(), rotation_transforms()),
                ),
    {
        let ghost p0 = self.values();
        let ghost c_old = constraint_collection.keys();
        let ghost counts0 = self.pattern_counts@;
        proof {
            lemma_counts_none(counts0, p0);
        }
        let rotated = pattern.get_rotation();
        proof {
            assert forall|n: usize| pattern.size == [n, n] implies rotated.size == [n, n] by {
                lemma_transform_square(PatternTransform::Rotation, pattern.value(), n);
            }
        }
        let rotated_id = self.add_or_get(rotated.copy());
        let ghost p1 = self.values();
        let ghost counts1 = self.pattern_counts@;
        proof {
            let own = Seq::<PatternValue>::empty().push(rotated.value());
            assert(counts_after(counts0, counts1, p1, own));
            assert(own =~= own_sightings(rotation_transforms(), pattern.value()));
        }
        let mut sources: Vec<(PatternTransform, usize)> = Vec::new();
        sources.push((PatternTransform::Rotation, rotated_id));
        proof {
            assert forall|k: (usize, usize, usize)|
                #[trigger] constraint_collection.keys().contains(k) implies k.0 < self.patterns.len()
                && k.1 < self.patterns.len() && k.2 < 8 by {
            }
        }
        self.add_transformed_constraints(constraint_collection, pattern_id, &sources);
        proof {
            lemma_extends_trans(p0, p1, self.values());
            lemma_extends_index(p1, self.values(), rotated_id as int);
            assert forall|b: usize, d: usize|
                #[trigger] old(constraint_collection).keys().contains((pattern_id, b, d))
                    implies transformed_edge(
                constraint_collection.keys(),
                self.values(),
                PatternTransform::Rotation,
                pattern.value(),
                p0[b as int],
                spec_direction_at(d as int),
            ) by {
                assert(sources@[0] == (PatternTransform::Rotation, rotated_id));
                lemma_extends_index(p0, p1, b as int);
            }
            assert(source_transforms(sources@) =~= rotation_transforms());
            assert forall|q: int| 0 <= q < sources.len() implies (#[trigger] sources@[q]).1 < self.values().len()
                && self.values()[sources@[q].1 as int] == transform_value(sources@[q].0, pattern.value()) by {
                assert(sources@[0] == (PatternTransform::Rotation, rotated_id));
            }
            let cf = self.pattern_counts@;
            let vf = self.values();
            let kf = constraint_collection.keys();
            assert(exists|ks: Seq<(usize, usize)>|
                key_list(c_old, pattern_id, ks) && #[trigger] counts_after(
                    counts0,
                    cf,
                    vf,
                    own_sightings(rotation_transforms(), pattern.value()) + sightings(ks, p0, rotation_transforms()),
                )) by {
                lemma_transform_counts(
                    counts0,
                    counts1,
                    cf,
                    p0,
                    p1,
                    vf,
                    own_sightings(rotation_transforms(), pattern.value()),
                    c_old,
                    pattern_id,
                    rotation_transforms(),
                );
            }
            assert(only_transforms_added(c_old, p0, kf, vf, rotation_transforms(), pattern.value(), pattern_id)) by {
                reveal(only_transforms_added);
                lemma_rotation_values(p0, p1, vf, c_old, pattern.value(), pattern_id);
                lemma_keys_from_sources(
                    c_old,
                    p0,
                    p1,
                    vf,
                    kf,
                    sources@,
                    rotation_transforms(),
                    pattern.value(),
                    pattern_id,
                );
            }
        }
        (rotated, rotated_id)
    }

    /// Adds `pattern` mirrored along the first axis, the second, and both,
    /// and for every constraint held from `pattern_id` to some pattern, that
    /// pattern mirrored the same ways and the mirrored constraints, both
    /// ways. Returns the pattern mirrored along the first axis and its id.
    #[verifier::rlimit(100)]
    #[verifier::spinoff_prover]
    fn add_flip_of_pattern(
        &mut self,
        constraint_collection: &mut ConstraintCollection,
        pattern: &Pattern,
        pattern_id: usize,
    ) -> (r: (Pattern, usize))
        requires
            old(self).well_formed(),
            keys_below(old(constraint_collection).keys(), old(self).patterns.len() as int),
            pattern.well_formed(),
        ensures
            final(self).well_formed(),
            extends(old(self).values(), final(self).values()),
            keys_below(final(constraint_collection).keys(), final(self).patterns.len() as int),
            old(constraint_collection).keys().subset_of(final(constraint_collection).keys()),
            keys_symmetric(old(constraint_collection).keys()) ==> keys_symmetric(
                final(constraint_collection).keys(),
            ),
            r.0.value() == transform_value(PatternTransform::FlipX, pattern.value()),
            value_present(final(self).values(), transform_value(PatternTransform::FlipY, pattern.value())),
            value_present(final(self).values(), transform_value(PatternTransform::FlipXY, pattern.value())),
            forall|n: usize|
                #[trigger] all_square(old(self).values(), n) && pattern.size == [n, n]
                    ==> all_square(final(self).values(), n),
            r.1 < final(self).patterns.len(),
            final(self).values()[r.1 as int] == r.0.value(),
            forall|b: usize, d: usize|
                #[trigger] old(constraint_collection).keys().contains((pattern_id, b, d))
                    ==> flipped_edges(
                    final(constraint_collection).keys(),
                    final(self).values(),
                    pattern.value(),
                    old(self).values()[b as int],
                    spec_direction_at(d as int),
                ),
            only_transforms_added(
                old(constraint_collection).keys(),
                old(self).values(),
                final(constraint_collection).keys(),
                final(self).values(),
                flip_transforms(),
                pattern.value(),
                pattern_id,
            ),
            exists|ks: Seq<(usize, usize)>|
                key_list(old(constraint_collection).keys(), pattern_id, ks) && #[trigger] counts_after(
                    old(self).pattern_counts@,
                    final(self).pattern_counts@,
                    final(self).values(),
                    own_sightings(flip_transforms(), pattern.value()) + sightings(ks, old(self).values(), flip_transforms()),
                ),
    {
        let ghost p0 = self.values();
        let ghost c_old = constraint_collection.keys();
        let ghost counts0 = self.pattern_counts@;
        proof {
            lemma_counts_none(counts0, p0);
        }
        let flipped_x = pattern.flip_x();
        let flipped_y = pattern.flip_y();
        let flipped_xy = flipped_x.flip_y();
        assert(flipped_x.size == pattern.size && flipped_y.size == pattern.size && flipped_xy.size
            == pattern.size);
        let flipped_x_id = self.add_or_get(flipped_x.copy());
        let ghost p1 = self.values();
        let flipped_y_id = self.add_or_get(flipped_y.copy());
        let ghost p2 = self.values();
        let flipped_xy_id = self.add_or_get(flipped_xy.copy());
        let ghost p3 = self.values();
        let ghost counts3 = self.pattern_counts@;
        proof {
            let own = Seq::<PatternValue>::empty().push(flipped_x.value()).push(flipped_y.value()).push(flipped_xy.value());
            assert(counts_after(counts0, counts3, p3, own));
            assert(own =~= own_sightings(flip_transforms(), pattern.value()));
        }
        proof {
            lemma_extends_trans(p0, p1, p2);
            lemma_extends_trans(p0, p2, p3);
            lemma_extends_trans(p1, p2, p3);
            lemma_extends_index(p1, p3, flipped_x_id as int);
            lemma_extends_index(p2, p3, flipped_y_id as int);
        }
        let mut sources: Vec<(PatternTransform, usize)> = Vec::new();
        sources.push((PatternTransform::FlipX, flipped_x_id));
        sources.push((PatternTransform::FlipY, flipped_y_id));
        sources.push((PatternTransform::FlipXY, flipped_xy_id));
        proof {
            assert forall|k: (usize, usize, usize)|
                #[trigger] constraint_collection.keys().contains(k) implies k.0 < self.patterns.len()
                && k.1 < self.patterns.len() && k.2 < 8 by {
            }
        }
        self.add_transformed_constraints(constraint_collection, pattern_id, &sources);
        proof {
            lemma_extends_trans(p0, p3, self.values());
            lemma_extends_index(p3, self.values(), flipped_x_id as int);
            lemma_extends_index(p3, self.values(), flipped_y_id as int);
            lemma_extends_index(p3, self.values(), flipped_xy_id as int);
            assert(self.values()[flipped_y_id as int] == transform_value(PatternTransform::FlipY, pattern.value()));
            assert(self.values()[flipped_xy_id as int] == transform_value(PatternTransform::FlipXY, pattern.value()));
            assert forall|b: usize, d: usize|
                #[trigger] old(constraint_collection).keys().contains((pattern_id, b, d))
                    implies flipped_edges(
                constraint_collection.keys(),
                self.values(),
                pattern.value(),
                p0[b as int],
                spec_direction_at(d as int),
            ) by {
                assert(sources@[0] == (PatternTransform::FlipX, flipped_x_id));
                assert(sources@[1] == (PatternTransform::FlipY, flipped_y_id));
                assert(sources@[2] == (PatternTransform::FlipXY, flipped_xy_id));
                lemma_extends_index(p0, p3, b as int);
            }
            assert(source_transforms(sources@) =~= flip_transforms());
            assert forall|q: int| 0 <= q < sources.len() implies (#[trigger] sources@[q]).1 < self.values().len()
                && self.values()[sources@[q].1 as int] == transform_value(sources@[q].0, pattern.value()) by {
                assert(sources@[0] == (PatternTransform::FlipX, flipped_x_id));
                assert(sources@[1] == (PatternTransform::FlipY, flipped_y_id));
                assert(sources@[2] == (PatternTransform::FlipXY, flipped_xy_id));
            }
            let cf = self.pattern_counts@;
            let vf = self.values();
            let kf = constraint_collection.keys();
            assert(exists|ks: Seq<(usize, usize)>|
                key_list(c_old, pattern_id, ks) && #[trigger] counts_after(
                    counts0,
                    cf,
                    vf,
                    own_sightings(flip_transforms(), pattern.value()) + sightings(ks, p0, flip_transforms()),
                )) by {
                lemma_transform_counts(
                    counts0,
                    counts3,
                    cf,
                    p0,
                    p3,
                    vf,
                    own_sightings(flip_transforms(), pattern.value()),
                    c_old,
                    pattern_id,
                    flip_transforms(),
                );
            }
            assert(only_transforms_added(c_old, p0, kf, vf, flip_transforms(), pattern.value(), pattern_id)) by {
                reveal(only_transforms_added);
                lemma_flip_values(p0, p1, p2, p3, vf, c_old, pattern.value(), pattern_id);
                lemma_keys_from_sources(
                    c_old,
                    p0,
                    p3,
                    vf,
                    kf,
                    sources@,
                    flip_transforms(),
                    pattern.value(),
                    pattern_id,
                );
            }
        }
        (flipped_x, flipped_x_id)
    }
}

/// The patterns of `ps` copied one by one.
fn copy_patterns(ps: &Vec<Pattern>) -> (r: Vec<Pattern>)
    ensures
        pattern_values(r@) == pattern_values(ps@),
        forall|i: int| 0 <= i < ps.len() ==> #[trigger] r@[i].value() == ps@[i].value(),
        r.len() == ps.len(),
{
    let mut r: Vec<Pattern> = Vec::new();
    let mut i: usize = 0;
    while i < ps.len()
        invariant
            i <= ps.len(),
            r.len() == i,
            forall|k: int| 0 <= k < i ==> #[trigger] r@[k].value() == ps@[k].value(),
        decreases ps.len() - i,
    {
        r.push(ps[i].copy());
        i += 1;
    }
    assert(pattern_values(r@) =~= pattern_values(ps@));
    r
}

/// One step of following a constraint through a transform: from the
/// transformed edge of `va`, `vb` the constraint key between the two
/// transformed patterns can be read off.
pub proof fn lemma_edge_key(
    keys: Set<(usize, usize, usize)>,
    vs: Seq<PatternValue>,
    t: PatternTransform,
    va: PatternValue,
    vb: PatternValue,
    dir: ConstraintDirection,
    a: int,
) -> (j: int)
    requires
        transformed_edge(keys, vs, t, va, vb, dir),
        0 <= a < vs.len(),
        vs[a] == transform_value(t, va),
    ensures
        0 <= j < vs.len(),
        vs[j] == transform_value(t, vb),
        keys.contains(
            (a as usize, j as usize, spec_direction_index(transform_direction(t, dir)) as usize),
        ),
        spec_direction_at(spec_direction_index(transform_direction(t, dir))) == transform_direction(
            t,
            dir,
        ),
        0 <= spec_direction_index(transform_direction(t, dir)) < 8,
{
    let j = choose|j: int| 0 <= j < vs.len() && vs[j] == transform_value(t, vb);
    assert(vs[a] == transform_value(t, va) && vs[j] == transform_value(t, vb));
    crate::world::ms::constraint::lemma_direction_index_bijective(
        transform_direction(t, dir),
        transform_direction(t, dir),
    );
    j
}

impl PatternCollection {
    /// Adds every pattern turned one, two and three quarters, and the turned
    /// constraints between them.
    pub fn add_rotations(&mut self, constraint_collection: &mut ConstraintCollection)
        requires
            old(self).well_formed(),
            keys_below(old(constraint_collection).keys(), old(self).patterns.len() as int),
        ensures
            final(self).well_formed(),
            extends(old(self).values(), final(self).values()),
            keys_below(final(constraint_collection).keys(), final(self).patterns.len() as int),
            old(constraint_collection).keys().subset_of(final(constraint_collection).keys()),
            keys_symmetric(old(constraint_collection).keys()) ==> keys_symmetric(
                final(constraint_collection).keys(),
            ),
            forall|n: usize|
                #[trigger] all_square(old(self).values(), n) ==> all_square(final(self).values(), n),
            forall|a: usize, b: usize, d: usize|
                #[trigger] old(constraint_collection).keys().contains((a, b, d)) ==> rotated_edges(
                    final(constraint_collection).keys(),
                    final(self).values(),
                    old(self).values()[a as int],
                    old(self).values()[b as int],
                    spec_direction_at(d as int),
                ),
            forall|a: int|
                0 <= a < old(self).values().len() ==> value_present(
                    final(self).values(),
                    transform_value(PatternTransform::Rotation, #[trigger] old(self).values()[a]),
                ) && value_present(final(self).values(), transform_value(PatternTransform::Rotation, transform_value(PatternTransform::Rotation, old(self).values()[a])))
                    && value_present(final(self).values(), transform_value(PatternTransform::Rotation, transform_value(PatternTransform::Rotation, transform_value(PatternTransform::Rotation, old(self).values()[a])))),
            keys_symmetric(old(constraint_collection).keys()) ==> rules_from(
                final(constraint_collection).keys(),
                final(self).values(),
                rules_of(old(constraint_collection).keys(), old(self).values()),
                rotation_transforms(),
            ),
            values_from(final(self).values(), old(self).values(), rotation_transforms()),
    {
        let ghost p0 = self.values();
        let ghost c0 = constraint_collection.keys();
        let snapshot = copy_patterns(&self.patterns);
        assert(self.values().subrange(0, p0.len() as int) =~= p0);
        assert forall|k: int| 0 <= k < p0.len() implies value_well_formed_at(p0, k) by {
            assert(self.patterns@[k].well_formed());
        }
        proof {
            lemma_rules_start(c0, p0, rotation_transforms());
        }
        let mut i: usize = 0;
        while i < snapshot.len()
            invariant
                i <= snapshot.len(),
                snapshot.len() == p0.len(),
                pattern_values(snapshot@) == p0,
                p0 == old(self).values(),
                c0 == old(constraint_collection).keys(),
                keys_below(c0, p0.len() as int),
                forall|k: int| 0 <= k < p0.len() ==> value_well_formed_at(p0, k),
                self.well_formed(),
                extends(p0, self.values()),
                forall|n: usize| #[trigger] all_square(p0, n) ==> all_square(self.values(), n),
                keys_below(constraint_collection.keys(), self.patterns.len() as int),
                c0.subset_of(constraint_collection.keys()),
                keys_symmetric(c0) ==> keys_symmetric(constraint_collection.keys()),
                forall|a: usize, b: usize, d: usize|
                    #[trigger] c0.contains((a, b, d)) && a < i ==> rotated_edges(
                        constraint_collection.keys(),
                        self.values(),
                        p0[a as int],
                        p0[b as int],
                        spec_direction_at(d as int),
                    ),
                forall|a: int|
                    0 <= a < i ==> value_present(self.values(), transform_value(PatternTransform::Rotation, #[trigger] p0[a]))
                        && value_present(self.values(), transform_value(PatternTransform::Rotation, transform_value(PatternTransform::Rotation, p0[a]))) && value_present(
                        self.values(),
                        transform_value(PatternTransform::Rotation, transform_value(PatternTransform::Rotation, transform_value(PatternTransform::Rotation, p0[a]))),
                    ),
                keys_symmetric(c0) ==> rules_from(constraint_collection.keys(), self.values(), rules_of(c0, p0), rotation_transforms()),
                values_from(self.values(), p0, rotation_transforms()),
            decreases snapshot.len() - i,
        {
            let ghost c_before = constraint_collection.keys();
            let ghost p_before = self.values();
            assert(snapshot@[i as int].value() == p0[i as int]);
            assert(value_well_formed_at(p0, i as int));
            let (rotated1, id1) = self.add_rotations_of_pattern(
                constraint_collection,
                &snapshot[i],
                i,
            );
            let ghost c1 = constraint_collection.keys();
            let ghost p1 = self.values();
            proof {
                let ts = rotation_transforms();
                assert(ts.contains(ts[0]));
                lemma_extends_index(p0, p_before, i as int);
                lemma_rules_step(c_before, p_before, c1, p1, ts, snapshot@[i as int].value(), i, p0, rules_of(c0, p0), ts);
                if keys_symmetric(c0) {
                    lemma_rules_start(c0, p0, ts);
                }
            }
            let (rotated2, id2) = self.add_rotations_of_pattern(constraint_collection, &rotated1, id1);
            let ghost c2 = constraint_collection.keys();
            let ghost p2 = self.values();
            proof {
                let ts = rotation_transforms();
                assert(ts.contains(ts[0]));
                lemma_rules_step(c1, p1, c2, p2, ts, rotated1.value(), id1, p0, rules_of(c0, p0), ts);
            }
            let (rotated3, id3) = self.add_rotations_of_pattern(constraint_collection, &rotated2, id2);
            let ghost c3 = constraint_collection.keys();
            let ghost p3 = self.values();
            proof {
                let ts = rotation_transforms();
                assert(ts.contains(ts[0]));
                lemma_rules_step(c2, p2, c3, p3, ts, rotated2.value(), id2, p0, rules_of(c0, p0), ts);
            }
            proof {
                lemma_extends_trans(p_before, p1, p2);
                lemma_extends_trans(p_before, p2, p3);
                lemma_extends_trans(p1, p2, p3);
                assert(p1[id1 as int] == transform_value(PatternTransform::Rotation, p0[i as int]));
                lemma_present_extends(p1, p3, transform_value(PatternTransform::Rotation, p0[i as int]));
                assert(p2[id2 as int] == transform_value(PatternTransform::Rotation, transform_value(PatternTransform::Rotation, p0[i as int])));
                lemma_present_extends(p2, p3, transform_value(PatternTransform::Rotation, transform_value(PatternTransform::Rotation, p0[i as int])));
                assert(p3[id3 as int] == transform_value(PatternTransform::Rotation, transform_value(PatternTransform::Rotation, transform_value(PatternTransform::Rotation, p0[i as int]))));
                assert forall|a: int|
                    0 <= a < i + 1 implies value_present(p3, transform_value(PatternTransform::Rotation, #[trigger] p0[a]))
                        && value_present(p3, transform_value(PatternTransform::Rotation, transform_value(PatternTransform::Rotation, p0[a]))) && value_present(
                        p3,
                        transform_value(PatternTransform::Rotation, transform_value(PatternTransform::Rotation, transform_value(PatternTransform::Rotation, p0[a]))),
                    ) by {
                    if a < i {
                        lemma_present_extends(p_before, p3, transform_value(PatternTransform::Rotation, p0[a]));
                        lemma_present_extends(p_before, p3, transform_value(PatternTransform::Rotation, transform_value(PatternTransform::Rotation, p0[a])));
                        lemma_present_extends(p_before, p3, transform_value(PatternTransform::Rotation, transform_value(PatternTransform::Rotation, transform_value(PatternTransform::Rotation, p0[a]))));
                    }
                }
            }
            proof {
                let rt = PatternTransform::Rotation;
                lemma_extends_trans(p_before, p1, p2);
                lemma_extends_trans(p_before, p2, p3);
                lemma_extends_trans(p1, p2, p3);
                lemma_extends_trans(p0, p_before, p3);
                assert forall|a: usize, b: usize, d: usize|
                    #[trigger] c0.contains((a, b, d)) && a < i + 1 implies rotated_edges(
                    c3,
                    p3,
                    p0[a as int],
                    p0[b as int],
                    spec_direction_at(d as int),
                ) by {
                    if a < i {
                        let va = p0[a as int];
                        let vb = p0[b as int];
                        let dir = spec_direction_at(d as int);
                        lemma_transformed_edge_persists(c_before, p_before, c3, p3, rt, va, vb, dir);
                        lemma_transformed_edge_persists(
                            c_before,
                            p_before,
                            c3,
                            p3,
                            rt,
                            transform_value(rt, va),
                            transform_value(rt, vb),
                            transform_direction(rt, dir),
                        );
                        lemma_transformed_edge_persists(
                            c_before,
                            p_before,
                            c3,
                            p3,
                            rt,
                            transform_value(rt, transform_value(rt, va)),
                            transform_value(rt, transform_value(rt, vb)),
                            transform_direction(rt, transform_direction(rt, dir)),
                        );
                    } else {
                        let va = p0[a as int];
                        let vb = p0[b as int];
                        let dir = spec_direction_at(d as int);
                        lemma_extends_index(p0, p_before, b as int);
                        assert(c_before.contains((i, b, d)));
                        // first quarter turn
                        assert(transformed_edge(c1, p1, rt, va, vb, dir));
                        let j1 = lemma_edge_key(c1, p1, rt, va, vb, dir, id1 as int);
                        let d1 = spec_direction_index(transform_direction(rt, dir));
                        assert(c1.contains((id1, j1 as usize, d1 as usize)));
                        // second quarter turn
                        assert(transformed_edge(
                            c2,
                            p2,
                            rt,
                            rotated1.value(),
                            p1[j1],
                            spec_direction_at(d1 as usize as int),
                        ));
                        let va2 = transform_value(rt, va);
                        let vb2 = transform_value(rt, vb);
                        let dir2 = transform_direction(rt, dir);
                        lemma_extends_index(p2, p3, id2 as int);
                        let j2 = lemma_edge_key(c2, p2, rt, va2, vb2, dir2, id2 as int);
                        let d2 = spec_direction_index(transform_direction(rt, dir2));
                        assert(c2.contains((id2, j2 as usize, d2 as usize)));
                        // third quarter turn
                        assert(transformed_edge(
                            c3,
                            p3,
                            rt,
                            rotated2.value(),
                            p2[j2],
                            spec_direction_at(d2 as usize as int),
                        ));
                        lemma_transformed_edge_persists(c1, p1, c3, p3, rt, va, vb, dir);
                        lemma_transformed_edge_persists(c2, p2, c3, p3, rt, va2, vb2, dir2);
                    }
                }
                lemma_extends_trans(p0, p_before, p3);
            }
            i += 1;
        }
    }

    /// Adds every pattern mirrored along the first axis, the second, and
    /// both, and the mirrored constraints between them.
    pub fn add_flips(&mut self, constraint_collection: &mut ConstraintCollection)
        requires
            old(self).well_formed(),
            keys_below(old(constraint_collection).keys(), old(self).patterns.len() as int),
        ensures
            final(self).well_formed(),
            extends(old(self).values(), final(self).values()),
            keys_below(final(constraint_collection).keys(), final(self).patterns.len() as int),
            old(constraint_collection).keys().subset_of(final(constraint_collection).keys()),
            keys_symmetric(old(constraint_collection).keys()) ==> keys_symmetric(
                final(constraint_collection).keys(),
            ),
            forall|n: usize|
                #[trigger] all_square(old(self).values(), n) ==> all_square(final(self).values(), n),
            forall|a: usize, b: usize, d: usize|
                #[trigger] old(constraint_collection).keys().contains((a, b, d)) ==> flipped_edges(
                    final(constraint_collection).keys(),
                    final(self).values(),
                    old(self).values()[a as int],
                    old(self).values()[b as int],
                    spec_direction_at(d as int),
                ),
            forall|a: int|
                0 <= a < old(self).values().len() ==> value_present(
                    final(self).values(),
                    transform_value(PatternTransform::FlipX, #[trigger] old(self).values()[a]),
                ) && value_present(final(self).values(), transform_value(PatternTransform::FlipY, old(self).values()[a]))
                    && value_present(final(self).values(), transform_value(PatternTransform::FlipXY, old(self).values()[a])),
            keys_symmetric(old(constraint_collection).keys()) ==> rules_from(
                final(constraint_collection).keys(),
                final(self).values(),
                rules_of(old(constraint_collection).keys(), old(self).values()),
                flip_transforms(),
            ),
            values_from(final(self).values(), old(self).values(), flip_transforms()),
    {
        let ghost p0 = self.values();
        let ghost c0 = constraint_collection.keys();
        let snapshot = copy_patterns(&self.patterns);
        assert(self.values().subrange(0, p0.len() as int) =~= p0);
        assert forall|k: int| 0 <= k < p0.len() implies value_well_formed_at(p0, k) by {
            assert(self.patterns@[k].well_formed());
        }
        proof {
            lemma_rules_start(c0, p0, flip_transforms());
        }
        let mut i: usize = 0;
        while i < snapshot.len()
            invariant
                i <= snapshot.len(),
                snapshot.len() == p0.len(),
                pattern_values(snapshot@) == p0,
                p0 == old(self).values(),
                c0 == old(constraint_collection).keys(),
                keys_below(c0, p0.len() as int),
                forall|k: int| 0 <= k < p0.len() ==> value_well_formed_at(p0, k),
                self.well_formed(),
                extends(p0, self.values()),
                forall|n: usize| #[trigger] all_square(p0, n) ==> all_square(self.values(), n),
                keys_below(constraint_collection.keys(), self.patterns.len() as int),
                c0.subset_of(constraint_collection.keys()),
                keys_symmetric(c0) ==> keys_symmetric(constraint_collection.keys()),
                forall|a: usize, b: usize, d: usize|
                    #[trigger] c0.contains((a, b, d)) && a < i ==> flipped_edges(
                        constraint_collection.keys(),
                        self.values(),
                        p0[a as int],
                        p0[b as int],
                        spec_direction_at(d as int),
                    ),
                forall|a: int|
                    0 <= a < i ==> value_present(self.values(), transform_value(PatternTransform::FlipX, #[trigger] p0[a]))
                        && value_present(self.values(), transform_value(PatternTransform::FlipY, p0[a])) && value_present(
                        self.values(),
                        transform_value(PatternTransform::FlipXY, p0[a]),
                    ),
                keys_symmetric(c0) ==> rules_from(constraint_collection.keys(), self.values(), rules_of(c0, p0), flip_transforms()),
                values_from(self.values(), p0, flip_transforms()),
            decreases snapshot.len() - i,
        {
            let ghost c_before = constraint_collection.keys();
            let ghost p_before = self.values();
            assert(snapshot@[i as int].value() == p0[i as int]);
            assert(value_well_formed_at(p0, i as int));
            let (fx, fx_id) = self.add_flip_of_pattern(constraint_collection, &snapshot[i], i);
            let ghost c1 = constraint_collection.keys();
            let ghost p1 = self.values();
            proof {
                let ts = flip_transforms();
                assert forall|q: int| 0 <= q < ts.len() implies ts.contains(#[trigger] ts[q]) by {}
                lemma_extends_index(p0, p_before, i as int);
                lemma_rules_step(c_before, p_before, c1, p1, ts, snapshot@[i as int].value(), i, p0, rules_of(c0, p0), ts);
                if keys_symmetric(c0) {
                    lemma_rules_start(c0, p0, ts);
                }
            }
            proof {
                assert forall|a: int|
                    0 <= a < i + 1 implies value_present(self.values(), transform_value(PatternTransform::FlipX, #[trigger] p0[a]))
                        && value_present(self.values(), transform_value(PatternTransform::FlipY, p0[a])) && value_present(
                        self.values(),
                        transform_value(PatternTransform::FlipXY, p0[a]),
                    ) by {
                    if a < i {
                        lemma_present_extends(p_before, p1, transform_value(PatternTransform::FlipX, p0[a]));
                        lemma_present_extends(p_before, p1, transform_value(PatternTransform::FlipY, p0[a]));
                        lemma_present_extends(p_before, p1, transform_value(PatternTransform::FlipXY, p0[a]));
                    } else {
                        assert(p1[fx_id as int] == transform_value(PatternTransform::FlipX, p0[a]));
                    }
                }
            }
            proof {
                lemma_extends_trans(p0, p_before, p1);
                assert forall|a: usize, b: usize, d: usize|
                    #[trigger] c0.contains((a, b, d)) && a < i + 1 implies flipped_edges(
                    c1,
                    p1,
                    p0[a as int],
                    p0[b as int],
                    spec_direction_at(d as int),
                ) by {
                    let va = p0[a as int];
                    let vb = p0[b as int];
                    let dir = spec_direction_at(d as int);
                    if a < i {
                        lemma_transformed_edge_persists(
                            c_before,
                            p_before,
                            c1,
                            p1,
                            PatternTransform::FlipX,
                            va,
                            vb,
                            dir,
                        );
                        lemma_transformed_edge_persists(
                            c_before,
                            p_before,
                            c1,
                            p1,
                            PatternTransform::FlipY,
                            va,
                            vb,
                            dir,
                        );
                        lemma_transformed_edge_persists(
                            c_before,
                            p_before,
                            c1,
                            p1,
                            PatternTransform::FlipXY,
                            va,
                            vb,
                            dir,
                        );
                    } else {
                        lemma_extends_index(p0, p_before, b as int);
                        assert(c_before.contains((i, b, d)));
                    }
                }
            }
            i += 1;
        }
    }
}

} // verus!
