use vstd::prelude::*;

use crate::block::world::terrain::Terrain;

verus! {

/// The height above which the terrain is cut away for viewing.
pub struct TerrainSlice {
    y: u32,
    min: u32,
    max: u32,
    is_enabled: bool,
}

/// Sent when the slice height changes.
pub struct TerrainSliceChanged {
    pub prev: u32,
    pub value: u32,
}

/// `v` clamped to the interval `[lo, hi]`.
pub open spec fn spec_clamp(v: int, lo: int, hi: int) -> int {
    if v < lo {
        lo
    } else if v > hi {
        hi
    } else {
        v
    }
}

impl View for TerrainSlice {
    /// `(y, min, max, is_enabled)`
    type V = (u32, u32, u32, bool);

    closed spec fn view(&self) -> (u32, u32, u32, bool) {
        (self.y, self.min, self.max, self.is_enabled)
    }
}

impl TerrainSlice {
    pub fn new(y: u32, min: u32, max: u32, is_enabled: bool) -> (r: Self)
        ensures
            r@ == (y, min, max, is_enabled),
    {
        TerrainSlice { y, min, max, is_enabled }
    }

    /// The slice height currently in force: the chosen height when slicing is enabled,
    /// the top of the world otherwise.
    pub open spec fn spec_value(&self) -> u32 {
        if self@.3 {
            self@.0
        } else {
            self@.2
        }
    }

    /// Moves the slice to `v`, clamped between the slice's bounds, and returns the
    /// height now in force. The bounds, read as i32, must be ordered (`i32::clamp`
    /// panics otherwise).
    pub fn set_value(&mut self, v: i32) -> (r: u32)
        requires
            (old(self)@.1 as i32) <= (old(self)@.2 as i32),
        ensures
            final(self)@ == (
                spec_clamp(v as int, (old(self)@.1 as i32) as int, (old(self)@.2 as i32) as int) as i32 as u32,
                old(self)@.1,
                old(self)@.2,
                old(self)@.3,
            ),
            r == final(self).spec_value(),
    {
        let lo = self.min as i32;
        let hi = self.max as i32;
        let c = if v < lo {
            lo
        } else if v > hi {
            hi
        } else {
            v
        };
        self.y = c as u32;
        self.get_value()
    }

    pub fn get_value(&self) -> (r: u32)
        ensures
            r == self.spec_value(),
    {
        if self.is_enabled {
            self.y
        } else {
            self.max
        }
    }

    /// Whether `scroll` can be applied: the bounds, read as i32, are ordered and the moved
    /// height fits in an i32 (where `scroll` would panic otherwise).
    pub fn can_scroll(&self, scroll: i32) -> (r: bool)
        ensures
            r == ((self@.1 as i32) <= (self@.2 as i32) && i32::MIN <= (self@.0 as i32) + scroll <= i32::MAX),
    {
        (self.min as i32) <= (self.max as i32) && (self.y as i32).checked_add(scroll).is_some()
    }

    /// One line of mouse-wheel scrolling: moves the slice by `scroll` and reports the
    /// height in force before and after.
    pub fn scroll(&mut self, scroll: i32) -> (r: TerrainSliceChanged)
        requires
            (old(self)@.1 as i32) <= (old(self)@.2 as i32),
            i32::MIN <= (old(self)@.0 as i32) + scroll <= i32::MAX,
        ensures
            r.prev == old(self).spec_value(),
            final(self)@ == (
                spec_clamp(
                    (old(self)@.0 as i32) + scroll,
                    (old(self)@.1 as i32) as int,
                    (old(self)@.2 as i32) as int,
                ) as i32 as u32,
                old(self)@.1,
                old(self)@.2,
                old(self)@.3,
            ),
            r.value == final(self).spec_value(),
    {
        let cur_slice = self.get_value();
        let slice = self.y as i32;
        let value = self.set_value(slice + scroll);
        TerrainSliceChanged { prev: cur_slice, value }
    }
}

/// The slice a world starts with: at height 16, between 0 and the world's height,
/// enabled.
pub fn setup_terrain_slice(terrain: &Terrain) -> (r: TerrainSlice)
    requires
        terrain.chunk_size * terrain.chunk_count_y <= u32::MAX,
    ensures
        r@ == (16u32, 0u32, (terrain.chunk_size * terrain.chunk_count_y) as u32, true),
{
    let max = terrain.chunk_size * terrain.chunk_count_y;
    TerrainSlice { y: 16, max, min: 0, is_enabled: true }
}

/// Clamping lands between the bounds when they are ordered, leaves a value already
/// between them unchanged, and moves one outside to the nearer bound.
pub proof fn lemma_clamp_bounds(v: int, lo: int, hi: int)
    requires
        lo <= hi,
    ensures
        lo <= spec_clamp(v, lo, hi) <= hi,
        lo <= v <= hi ==> spec_clamp(v, lo, hi) == v,
        v < lo ==> spec_clamp(v, lo, hi) == lo,
        v > hi ==> spec_clamp(v, lo, hi) == hi,
        spec_clamp(spec_clamp(v, lo, hi), lo, hi) == spec_clamp(v, lo, hi),
{
}

} // verus!
