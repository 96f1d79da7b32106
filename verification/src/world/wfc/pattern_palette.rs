use vstd::prelude::*;

use crate::world::wfc::pattern_data::{occurrences, PatternData};
use crate::world::world_tile_type::WorldTileType;
use crate::world::world_tile_type_flags::WorldTileTypeFlags;

verus! {

/// The position of a pattern in its palette.
#[derive(Clone, Copy, PartialEq, Eq, Debug, Hash, Structural)]
pub struct PatternId(pub usize);

/// One value per pattern of a palette, by pattern id.
#[derive(Debug)]
pub struct PatternArray<T>(pub Vec<T>);

impl<T> PatternArray<T> {
    /// `f` applied to every pattern id below `size`, in order.
    pub fn new<F: Fn(PatternId) -> T>(size: usize, f: F) -> (r: Self)
        requires
            forall|i: usize| i < size ==> #[trigger] f.requires((PatternId(i),)),
        ensures
            r.0.len() == size,
            forall|i: int| 0 <= i < size ==> f.ensures((PatternId(i as usize),), #[trigger] r.0@[i]),
    {
        let mut v: Vec<T> = Vec::new();
        let mut i: usize = 0;
        while i < size
            invariant
                i <= size,
                v.len() == i,
                forall|i: usize| i < size ==> #[trigger] f.requires((PatternId(i),)),
                forall|k: int| 0 <= k < i ==> f.ensures((PatternId(k as usize),), #[trigger] v@[k]),
            decreases size - i,
        {
            v.push(f(PatternId(i)));
            i += 1;
        }
        PatternArray(v)
    }
}

/// The largest width and the largest height among the first `k` sizes.
pub open spec fn max_size_of(sizes: Seq<[usize; 2]>, k: int) -> [usize; 2]
    decreases k,
{
    if k <= 0 {
        [0, 0]
    } else {
        let acc = max_size_of(sizes, k - 1);
        let s = sizes[k - 1];
        [
            if acc[0] >= s[0] { acc[0] } else { s[0] },
            if acc[1] >= s[1] { acc[1] } else { s[1] },
        ]
    }
}

/// The patterns of a wave function collapse, with their sizes at hand.
pub struct PatternPalette {
    patterns: Vec<PatternData>,
    size_cache: Vec<[usize; 2]>,
    max_size: [usize; 2],
}

/// The occurrences of the tile types of `flags` in the patterns, pattern by
/// pattern.
pub open spec fn palette_occurrences(
    tiles: spec_fn(int) -> Seq<Seq<WorldTileType>>,
    sizes: Seq<[usize; 2]>,
    k: int,
    flags: WorldTileTypeFlags,
) -> Seq<(PatternId, [usize; 2])>
    decreases k,
{
    if k <= 0 {
        Seq::empty()
    } else {
        palette_occurrences(tiles, sizes, k - 1, flags) + occurrences(
            tiles(k - 1),
            sizes[k - 1][0] as int,
            sizes[k - 1][1] as int,
            flags,
        ).map_values(|o: [usize; 2]| (PatternId((k - 1) as usize), o))
    }
}

/// The occurrences listed for the first `k` patterns name one of them and a
/// position inside it that holds a tile of a type in `flags`.
pub proof fn lemma_palette_occurrences_in_range(
    tiles: spec_fn(int) -> Seq<Seq<WorldTileType>>,
    sizes: Seq<[usize; 2]>,
    k: int,
    flags: WorldTileTypeFlags,
)
    requires
        0 <= k <= sizes.len(),
        k <= usize::MAX + 1,
    ensures
        forall|i: int|
            0 <= i < palette_occurrences(tiles, sizes, k, flags).len() ==> {
                let e = #[trigger] palette_occurrences(tiles, sizes, k, flags)[i];
                &&& e.0.0 < k
                &&& e.1[0] < sizes[e.0.0 as int][0]
                &&& e.1[1] < sizes[e.0.0 as int][1]
                &&& flags.has(tiles(e.0.0 as int)[e.1[0] as int][e.1[1] as int])
            },
    decreases k,
{
    if k > 0 {
        lemma_palette_occurrences_in_range(tiles, sizes, k - 1, flags);
        let size = sizes[k - 1];
        crate::world::wfc::pattern_data::lemma_occurrences_in_range(tiles(k - 1), size[0] as int, size[1] as int, flags);
        let a = palette_occurrences(tiles, sizes, k - 1, flags);
        let o = occurrences(tiles(k - 1), size[0] as int, size[1] as int, flags);
        let b = o.map_values(|p: [usize; 2]| (PatternId((k - 1) as usize), p));
        assert forall|i: int| 0 <= i < (a + b).len() implies {
            let e = #[trigger] (a + b)[i];
            &&& e.0.0 < k
            &&& e.1[0] < sizes[e.0.0 as int][0]
            &&& e.1[1] < sizes[e.0.0 as int][1]
            &&& flags.has(tiles(e.0.0 as int)[e.1[0] as int][e.1[1] as int])
        } by {
            if i >= a.len() {
                assert((a + b)[i] == b[i - a.len()]);
                assert(b[i - a.len()] == (PatternId((k - 1) as usize), o[i - a.len()]));
            }
        }
    }
}

/// Every position of one of the first `k` patterns that holds a tile of a
/// type in `flags` is listed by `palette_occurrences`.
pub proof fn lemma_palette_occurrences_complete(
    tiles: spec_fn(int) -> Seq<Seq<WorldTileType>>,
    sizes: Seq<[usize; 2]>,
    k: int,
    flags: WorldTileTypeFlags,
    i: int,
    a: int,
    b: int,
)
    requires
        0 <= i < k <= sizes.len(),
        k <= usize::MAX + 1,
        0 <= a < sizes[i][0],
        0 <= b < sizes[i][1],
        flags.has(tiles(i)[a][b]),
    ensures
        exists|j: int|
            0 <= j < palette_occurrences(tiles, sizes, k, flags).len() && (#[trigger] palette_occurrences(tiles, sizes, k, flags)[j]).0.0
                == i && palette_occurrences(tiles, sizes, k, flags)[j].1[0] == a && palette_occurrences(tiles, sizes, k, flags)[j].1[1] == b,
    decreases k,
{
    let pa = palette_occurrences(tiles, sizes, k - 1, flags);
    let size = sizes[k - 1];
    let o = occurrences(tiles(k - 1), size[0] as int, size[1] as int, flags);
    let pb = o.map_values(|p: [usize; 2]| (PatternId((k - 1) as usize), p));
    assert(palette_occurrences(tiles, sizes, k, flags) == pa + pb);
    if i < k - 1 {
        lemma_palette_occurrences_complete(tiles, sizes, k - 1, flags, i, a, b);
        let j = choose|j: int| 0 <= j < pa.len() && (#[trigger] pa[j]).0.0 == i && pa[j].1[0] == a && pa[j].1[1] == b;
        assert((pa + pb)[j] == pa[j]);
    } else {
        crate::world::wfc::pattern_data::lemma_occurrences_complete(tiles(k - 1), size[0] as int, size[1] as int, flags, a, b);
        let j = choose|j: int| 0 <= j < o.len() && (#[trigger] o[j])[0] == a && o[j][1] == b;
        assert(pb[j] == (PatternId((k - 1) as usize), o[j]));
        assert((pa + pb)[pa.len() + j] == pb[j]);
    }
}

impl PatternPalette {
    /// The number of patterns.
    pub closed spec fn pattern_count(&self) -> nat {
        self.patterns@.len()
    }

    /// The size of pattern `i`.
    pub closed spec fn size_of(&self, i: int) -> [usize; 2] {
        self.patterns@[i].size()
    }

    /// The tiles of pattern `i`.
    pub closed spec fn tiles_of(&self, i: int) -> Seq<Seq<WorldTileType>> {
        self.patterns@[i].tile_view()
    }

    /// The sizes of the patterns, by id.
    pub open spec fn sizes(&self) -> Seq<[usize; 2]> {
        Seq::new(self.pattern_count(), |i: int| self.size_of(i))
    }

    /// The largest width and largest height among the patterns.
    pub closed spec fn max_size(&self) -> [usize; 2] {
        self.max_size
    }

    /// The size cache and largest size agree with the patterns, and every
    /// pattern fills a rectangle of its size.
    pub closed spec fn well_formed(&self) -> bool {
        &&& self.patterns@.len() <= usize::MAX
        &&& self.size_cache.len() == self.patterns.len()
        &&& forall|i: int| 0 <= i < self.patterns.len() ==> #[trigger] self.size_cache@[i] == self.patterns@[i].size()
        &&& forall|i: int| 0 <= i < self.patterns.len() ==> #[trigger] self.patterns@[i].well_formed()
        &&& self.max_size == max_size_of(self.sizes(), self.patterns.len() as int)
    }

    /// The palette facts a user of it relies on.
    pub proof fn lemma_well_formed(&self)
        requires
            self.well_formed(),
        ensures
            self.pattern_count() <= usize::MAX,
            self.max_size() == max_size_of(self.sizes(), self.pattern_count() as int),
            forall|i: int| 0 <= i < self.pattern_count() ==> #[trigger] self.tiles_of(i).len() == self.size_of(i)[0],
            forall|i: int, x: int|
                0 <= i < self.pattern_count() && 0 <= x < self.size_of(i)[0] ==> #[trigger] self.tiles_of(i)[x].len()
                    == self.size_of(i)[1],
    {
        assert forall|i: int| 0 <= i < self.pattern_count() implies #[trigger] self.tiles_of(i).len() == self.size_of(i)[0] by {
            assert(self.patterns@[i].well_formed());
        }
        assert forall|i: int, x: int|
            0 <= i < self.pattern_count() && 0 <= x < self.size_of(i)[0] implies #[trigger] self.tiles_of(i)[x].len()
                == self.size_of(i)[1] by {
            assert(self.patterns@[i].well_formed());
        }
    }

    /// A palette of `patterns`, with their sizes and the largest width and
    /// height among them.
    pub fn new(patterns: Vec<PatternData>) -> (r: Self)
        requires
            forall|i: int| 0 <= i < patterns.len() ==> #[trigger] patterns@[i].well_formed(),
        ensures
            r.well_formed(),
            r.pattern_count() == patterns.len(),
            forall|i: int| 0 <= i < patterns.len() ==> #[trigger] r.size_of(i) == patterns@[i].size(),
            forall|i: int| 0 <= i < patterns.len() ==> #[trigger] r.tiles_of(i) == patterns@[i].tile_view(),
    {
        let mut size_cache: Vec<[usize; 2]> = Vec::new();
        let mut max_size: [usize; 2] = [0, 0];
        let mut i: usize = 0;
        while i < patterns.len()
            invariant
                i <= patterns.len(),
                size_cache.len() == i,
                forall|k: int| 0 <= k < i ==> #[trigger] size_cache@[k] == patterns@[k].size(),
                max_size == max_size_of(Seq::new(patterns.len() as nat, |k: int| patterns@[k].size()), i as int),
            decreases patterns.len() - i,
        {
            let size = patterns[i].get_size();
            size_cache.push(size);
            max_size = [
                if max_size[0] >= size[0] { max_size[0] } else { size[0] },
                if max_size[1] >= size[1] { max_size[1] } else { size[1] },
            ];
            i += 1;
        }
        let r = PatternPalette { patterns, size_cache, max_size };
        assert(r.sizes() =~= Seq::new(r.patterns.len() as nat, |k: int| r.patterns@[k].size()));
        r
    }

    pub fn get_size(&self, pattern_id: &PatternId) -> (r: [usize; 2])
        requires
            self.well_formed(),
            pattern_id.0 < self.pattern_count(),
        ensures
            r == self.size_of(pattern_id.0 as int),
    {
        self.size_cache[pattern_id.0]
    }

    pub fn get_max_size(&self) -> (r: [usize; 2])
        ensures
            r == self.max_size(),
    {
        self.max_size
    }

    pub fn get_tile_type(&self, pattern_id: &PatternId, position: [usize; 2]) -> (r: WorldTileType)
        requires
            self.well_formed(),
            pattern_id.0 < self.pattern_count(),
            position[0] < self.size_of(pattern_id.0 as int)[0],
            position[1] < self.size_of(pattern_id.0 as int)[1],
        ensures
            r == self.tiles_of(pattern_id.0 as int)[position[0] as int][position[1] as int],
    {
        assert(self.patterns@[pattern_id.0 as int].well_formed());
        self.patterns[pattern_id.0].get_tile_type(position)
    }

    /// `f` applied to every pattern id, in order.
    pub fn get_pattern_array<T, F: Fn(PatternId) -> T>(&self, f: F) -> (r: PatternArray<T>)
        requires
            forall|i: usize| i < self.pattern_count() ==> #[trigger] f.requires((PatternId(i),)),
        ensures
            r.0.len() == self.pattern_count(),
            forall|i: int| 0 <= i < self.pattern_count() ==> f.ensures((PatternId(i as usize),), #[trigger] r.0@[i]),
    {
        PatternArray::new(self.patterns.len(), f)
    }

    /// Every position, pattern by pattern, at which a pattern holds a tile of
    /// a type in `type_flags`.
    pub fn get_type_occurances_in_patterns(&self, type_flags: WorldTileTypeFlags) -> (r: Vec<(PatternId, [usize; 2])>)
        requires
            self.well_formed(),
        ensures
            r@ == palette_occurrences(|i: int| self.tiles_of(i), self.sizes(), self.pattern_count() as int, type_flags),
    {
        let ghost tiles = |i: int| self.tiles_of(i);
        let mut r: Vec<(PatternId, [usize; 2])> = Vec::new();
        let mut id: usize = 0;
        while id < self.patterns.len()
            invariant
                self.well_formed(),
                tiles == |i: int| self.tiles_of(i),
                id <= self.pattern_count(),
                r@ == palette_occurrences(tiles, self.sizes(), id as int, type_flags),
            decreases self.pattern_count() - id,
        {
            assert(self.patterns@[id as int].well_formed());
            let occ = self.patterns[id].get_tile_occurances(type_flags);
            let ghost front = r@;
            let mut k: usize = 0;
            while k < occ.len()
                invariant
                    k <= occ.len(),
                    r@ == front + occ@.take(k as int).map_values(|o: [usize; 2]| (PatternId(id), o)),
                decreases occ.len() - k,
            {
                r.push((PatternId(id), occ[k]));
                k += 1;
                assert(r@ =~= front + occ@.take(k as int).map_values(|o: [usize; 2]| (PatternId(id), o)));
            }
            assert(occ@.take(occ.len() as int) =~= occ@);
            id += 1;
        }
        r
    }
}

} // verus!
