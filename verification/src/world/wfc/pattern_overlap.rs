use vstd::prelude::*;

use crate::world::wfc::pattern_palette::{PatternId, PatternPalette};

verus! {

/// A pattern placed so that the cell in question lies at `offset` within it.
#[derive(Debug, Clone, Copy)]
pub struct PatternOverlap {
    pub pattern: PatternId,
    pub offset: [usize; 2],
}

/// The positions of a `w` by `h` rectangle, column by column and top to
/// bottom within a column.
pub open spec fn all_offsets(w: int, h: int) -> Seq<[usize; 2]>
    decreases w,
{
    if w <= 0 {
        Seq::empty()
    } else {
        all_offsets(w - 1, h) + Seq::new(h as nat, |y: int| [(w - 1) as usize, y as usize])
    }
}

impl PatternOverlap {
    /// The pattern placed.
    pub open spec fn pattern_id(&self) -> PatternId {
        self.pattern
    }

    /// Where the cell lies within the pattern.
    pub open spec fn offset_in(&self) -> [usize; 2] {
        self.offset
    }

    /// Every placement of pattern `pattern_id` over a cell.
    pub fn get_all_possible(palette: &PatternPalette, pattern_id: PatternId) -> (r: Vec<Self>)
        requires
            palette.well_formed(),
            pattern_id.0 < palette.pattern_count(),
        ensures
            r.len() == all_offsets(palette.size_of(pattern_id.0 as int)[0] as int, palette.size_of(pattern_id.0 as int)[1] as int).len(),
            forall|i: int| 0 <= i < r.len() ==> (#[trigger] r@[i]).pattern_id() == pattern_id
                && r@[i].offset_in() == all_offsets(
                palette.size_of(pattern_id.0 as int)[0] as int,
                palette.size_of(pattern_id.0 as int)[1] as int,
            )[i],
    {
        let pattern_size = palette.get_size(&pattern_id);
        let mut r: Vec<Self> = Vec::new();
        let mut x: usize = 0;
        while x < pattern_size[0]
            invariant
                x <= pattern_size[0],
                r.len() == all_offsets(x as int, pattern_size[1] as int).len(),
                forall|i: int| 0 <= i < r.len() ==> (#[trigger] r@[i]).pattern_id() == pattern_id
                    && r@[i].offset_in() == all_offsets(x as int, pattern_size[1] as int)[i],
            decreases pattern_size[0] - x,
        {
            let ghost front = r@;
            let mut y: usize = 0;
            while y < pattern_size[1]
                invariant
                    x < pattern_size[0],
                    y <= pattern_size[1],
                    front.len() == all_offsets(x as int, pattern_size[1] as int).len(),
                    r.len() == front.len() + y,
                    forall|i: int| 0 <= i < front.len() ==> #[trigger] r@[i] == front[i],
                    forall|i: int| 0 <= i < r.len() ==> (#[trigger] r@[i]).pattern_id() == pattern_id,
                    forall|i: int| 0 <= i < front.len() ==> (#[trigger] r@[i]).offset_in() == all_offsets(x as int, pattern_size[1] as int)[i],
                    forall|j: int| 0 <= j < y ==> (#[trigger] r@[front.len() + j]).offset_in() == [x, j as usize],
                decreases pattern_size[1] - y,
            {
                r.push(PatternOverlap { offset: [x, y], pattern: pattern_id });
                y += 1;
            }
            proof {
                let h = pattern_size[1] as int;
                let next = all_offsets(x + 1, h);
                assert(next == all_offsets(x as int, h) + Seq::new(h as nat, |y: int| [x, y as usize]));
                assert forall|i: int| 0 <= i < r.len() implies (#[trigger] r@[i]).offset_in() == next[i] by {
                    if i >= front.len() {
                        assert(r@[front.len() + (i - front.len())] == r@[i]);
                    }
                }
            }
            x += 1;
        }
        r
    }
}

} // verus!
