//! Keeping numeric settings within their bounds, and the report of the
//! check made before an export to the legacy format.
use vstd::prelude::*;

verus! {

/// A value with an integer rank by which bounds are compared.
pub trait Bounded: Sized {
    /// The integer the value stands for.
    spec fn rank(&self) -> int;

    /// Whether this value is below `other`.
    fn below(&self, other: &Self) -> (r: bool)
        ensures
            r == (self.rank() < other.rank()),
    ;
}

impl Bounded for u64 {
    open spec fn rank(&self) -> int {
        *self as int
    }

    fn below(&self, other: &Self) -> (r: bool) {
        *self < *other
    }
}

impl Bounded for usize {
    open spec fn rank(&self) -> int {
        *self as int
    }

    fn below(&self, other: &Self) -> (r: bool) {
        *self < *other
    }
}

impl Bounded for u32 {
    open spec fn rank(&self) -> int {
        *self as int
    }

    fn below(&self, other: &Self) -> (r: bool) {
        *self < *other
    }
}

impl Bounded for i32 {
    open spec fn rank(&self) -> int {
        *self as int
    }

    fn below(&self, other: &Self) -> (r: bool) {
        *self < *other
    }
}

/// `v` raised to `min` when below it, then lowered to `max` when above it.
pub open spec fn bounded_value<T: Bounded>(v: T, min: T, max: T) -> T {
    let raised = if v.rank() < min.rank() { min } else { v };
    if max.rank() < raised.rank() { max } else { raised }
}

/// Whether bringing `v` within `min..=max` changes it.
pub open spec fn bound_changes<T: Bounded>(v: T, min: T, max: T) -> bool {
    let raised = if v.rank() < min.rank() { min } else { v };
    v.rank() < min.rank() || max.rank() < raised.rank()
}

/// Brings `value` within `min..=max` (a value below `min` is raised first,
/// then one above `max` lowered) and says whether it changed.
pub fn sanitize_bounded<T: Bounded>(value: &mut T, min: T, max: T) -> (changed: bool)
    ensures
        *final(value) == bounded_value(*old(value), min, max),
        changed == bound_changes(*old(value), min, max),
{
    let mut changed = false;
    if value.below(&min) {
        *value = min;
        changed = true;
    }
    if max.below(&*value) {
        *value = max;
        changed = true;
    }
    changed
}

/// Brings a `u64` setting within `min..=max`; says whether it changed.
pub fn sanitize_u64(value: &mut u64, min: u64, max: u64) -> (changed: bool)
    ensures
        *final(value) == bounded_value(*old(value), min, max),
        changed == bound_changes(*old(value), min, max),
{
    sanitize_bounded(value, min, max)
}

/// Brings a `usize` setting within `min..=max`; says whether it changed.
pub fn sanitize_usize(value: &mut usize, min: usize, max: usize) -> (changed: bool)
    ensures
        *final(value) == bounded_value(*old(value), min, max),
        changed == bound_changes(*old(value), min, max),
{
    sanitize_bounded(value, min, max)
}

/// Brings a `u32` setting within `min..=max`; says whether it changed.
pub fn sanitize_u32(value: &mut u32, min: u32, max: u32) -> (changed: bool)
    ensures
        *final(value) == bounded_value(*old(value), min, max),
        changed == bound_changes(*old(value), min, max),
{
    sanitize_bounded(value, min, max)
}

/// Brings an `i32` setting within `min..=max`; says whether it changed.
pub fn sanitize_i32(value: &mut i32, min: i32, max: i32) -> (changed: bool)
    ensures
        *final(value) == bounded_value(*old(value), min, max),
        changed == bound_changes(*old(value), min, max),
{
    sanitize_bounded(value, min, max)
}

/// What the check before an export to the legacy format found: problems
/// that block the export, and warnings about what it will lose.
#[derive(Clone, Debug, Default)]
pub struct NetstarExportValidationReport {
    pub errors: Vec<String>,
    pub warnings: Vec<String>,
}

impl NetstarExportValidationReport {
    /// The number of blocking problems.
    pub fn error_count(&self) -> (n: usize)
        ensures
            n == self.errors@.len(),
    {
        self.errors.len()
    }

    /// The number of warnings.
    pub fn warning_count(&self) -> (n: usize)
        ensures
            n == self.warnings@.len(),
    {
        self.warnings.len()
    }

    /// Nothing was found at all.
    pub fn is_clean(&self) -> (r: bool)
        ensures
            r == (self.errors@.len() == 0 && self.warnings@.len() == 0),
    {
        self.errors.len() == 0 && self.warnings.len() == 0
    }
}

} // verus!
