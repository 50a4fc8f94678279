//! Measurement constraints: a min/max size box bounding a node's permitted
//! measured size, with clamping arithmetic.

use vstd::prelude::*;

use crate::geometry::Size;
use crate::num::{sat_add, spec_sat_add};

verus! {

/// Sentinel for an unbounded ("infinite") maximum extent on one axis.
pub const UNBOUNDED: i64 = i64::MAX;

/// An axis-aligned size box: a measured size must lie between `min` and
/// `max` on each axis. `max` may be unbounded per axis; `min` never is.
#[derive(Debug, Clone, Copy, PartialEq, Eq, Structural)]
pub struct Constraints {
    pub min: Size,
    pub max: Size,
}

/// `v` clamped into `[lo, hi]`.
pub open spec fn spec_clamp(v: int, lo: int, hi: int) -> int {
    if v < lo {
        lo
    } else if v > hi {
        hi
    } else {
        v
    }
}

/// The larger of `v` and zero.
pub open spec fn spec_floor_zero(v: int) -> int {
    if v < 0 {
        0
    } else {
        v
    }
}

impl Constraints {
    /// A well-formed box keeps `0 <= min <= max` on each axis.
    pub open spec fn wf(self) -> bool {
        0 <= self.min.width <= self.max.width && 0 <= self.min.height <= self.max.height
    }

    /// Builds a box from the four extents, flooring each at zero.
    pub fn new(min_width: i64, max_width: i64, min_height: i64, max_height: i64) -> (r: Constraints)
        ensures
            r.min.width == spec_floor_zero(min_width as int),
            r.max.width == spec_floor_zero(max_width as int),
            r.min.height == spec_floor_zero(min_height as int),
            r.max.height == spec_floor_zero(max_height as int),
    {
        Constraints {
            min: Size {
                width: if min_width < 0 {
                    0
                } else {
                    min_width
                },
                height: if min_height < 0 {
                    0
                } else {
                    min_height
                },
            },
            max: Size {
                width: if max_width < 0 {
                    0
                } else {
                    max_width
                },
                height: if max_height < 0 {
                    0
                } else {
                    max_height
                },
            },
        }
    }

    /// `value` clamped into the box's width range.
    pub fn apply_width(&self, value: i64) -> (r: i64)
        requires
            self.min.width <= self.max.width,
        ensures
            r == spec_clamp(value as int, self.min.width as int, self.max.width as int),
    {
        if value < self.min.width {
            self.min.width
        } else if value > self.max.width {
            self.max.width
        } else {
            value
        }
    }

    /// `value` clamped into the box's height range.
    pub fn apply_height(&self, value: i64) -> (r: i64)
        requires
            self.min.height <= self.max.height,
        ensures
            r == spec_clamp(value as int, self.min.height as int, self.max.height as int),
    {
        if value < self.min.height {
            self.min.height
        } else if value > self.max.height {
            self.max.height
        } else {
            value
        }
    }

    /// The size after clamping per axis.
    pub open spec fn spec_apply(self, value: Size) -> Size {
        Size {
            width: spec_clamp(value.width as int, self.min.width as int, self.max.width as int) as i64,
            height: spec_clamp(
                value.height as int,
                self.min.height as int,
                self.max.height as int,
            ) as i64,
        }
    }

    /// Clamps each axis of `value` into the box.
    pub fn apply(&self, value: Size) -> (r: Size)
        requires
            self.min.width <= self.max.width,
            self.min.height <= self.max.height,
        ensures
            r == self.spec_apply(value),
    {
        Size { width: self.apply_width(value.width), height: self.apply_height(value.height) }
    }

    /// The box shifted by `(horizontal, vertical)`: minima are raised (or
    /// lowered) and floored at zero; a bounded maximum shifts the same way,
    /// an unbounded one stays unbounded.
    pub open spec fn spec_offset(self, horizontal: int, vertical: int) -> Constraints {
        Constraints {
            min: Size {
                width: spec_floor_zero(spec_sat_add(self.min.width as int, horizontal)) as i64,
                height: spec_floor_zero(spec_sat_add(self.min.height as int, vertical)) as i64,
            },
            max: Size {
                width: if self.max.width == UNBOUNDED {
                    UNBOUNDED
                } else {
                    spec_floor_zero(spec_sat_add(self.max.width as int, horizontal)) as i64
                },
                height: if self.max.height == UNBOUNDED {
                    UNBOUNDED
                } else {
                    spec_floor_zero(spec_sat_add(self.max.height as int, vertical)) as i64
                },
            },
        }
    }

    /// Shifts the box by `(horizontal, vertical)`.
    pub fn offset(&self, horizontal: i64, vertical: i64) -> (r: Constraints)
        ensures
            r == self.spec_offset(horizontal as int, vertical as int),
    {
        Constraints::new(
            sat_add(self.min.width, horizontal),
            if self.max.width == UNBOUNDED {
                UNBOUNDED
            } else {
                sat_add(self.max.width, horizontal)
            },
            sat_add(self.min.height, vertical),
            if self.max.height == UNBOUNDED {
                UNBOUNDED
            } else {
                sat_add(self.max.height, vertical)
            },
        )
    }

    pub fn has_bounded_width(&self) -> (r: bool)
        ensures
            r == (self.max.width != UNBOUNDED),
    {
        self.max.width != UNBOUNDED
    }

    pub fn has_bounded_height(&self) -> (r: bool)
        ensures
            r == (self.max.height != UNBOUNDED),
    {
        self.max.height != UNBOUNDED
    }
}

impl Default for Constraints {
    /// The loose box: zero minima, unbounded maxima.
    fn default() -> (r: Constraints)
        ensures
            r.min.width == 0 && r.min.height == 0,
            r.max.width == UNBOUNDED && r.max.height == UNBOUNDED,
    {
        Constraints {
            min: Size { width: 0, height: 0 },
            max: Size { width: UNBOUNDED, height: UNBOUNDED },
        }
    }
}

/// For every well-formed box, applying it clamps each axis of `value` into
/// `[min, max]`: the result lies in the box, and a value already inside the
/// box passes through unchanged.
pub proof fn lemma_apply_clamps(c: Constraints, value: Size)
    requires
        c.wf(),
    ensures
        c.min.width <= c.spec_apply(value).width <= c.max.width,
        c.min.height <= c.spec_apply(value).height <= c.max.height,
        c.min.width <= value.width <= c.max.width ==> c.spec_apply(value).width == value.width,
        c.min.height <= value.height <= c.max.height ==> c.spec_apply(value).height
            == value.height,
{
}

/// For every well-formed box, shifting it raises (or lowers) each minimum
/// but floors it at zero, leaves an unbounded maximum axis unbounded, and
/// shifts a bounded one, floored at zero; the shifted box is well-formed
/// again.
pub proof fn lemma_offset_shifts(c: Constraints, horizontal: int, vertical: int)
    requires
        c.wf(),
    ensures
        c.spec_offset(horizontal, vertical).min.width == spec_floor_zero(
            spec_sat_add(c.min.width as int, horizontal),
        ),
        c.spec_offset(horizontal, vertical).min.height == spec_floor_zero(
            spec_sat_add(c.min.height as int, vertical),
        ),
        c.max.width == UNBOUNDED ==> c.spec_offset(horizontal, vertical).max.width == UNBOUNDED,
        c.max.height == UNBOUNDED ==> c.spec_offset(horizontal, vertical).max.height == UNBOUNDED,
        c.max.width != UNBOUNDED ==> c.spec_offset(horizontal, vertical).max.width
            == spec_floor_zero(spec_sat_add(c.max.width as int, horizontal)),
        c.max.height != UNBOUNDED ==> c.spec_offset(horizontal, vertical).max.height
            == spec_floor_zero(spec_sat_add(c.max.height as int, vertical)),
        c.spec_offset(horizontal, vertical).wf(),
{
}

} // verus!
