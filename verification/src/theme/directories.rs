//! The subdirectories that an index document describes, and how well each
//! of them fits a requested size.
use vstd::prelude::*;

verus! {

/// The kind of a subdirectory, with the bounds that belong to the kind.
#[derive(Clone, Copy, Debug, PartialEq, Eq, Structural)]
pub enum DirectoryType {
    /// Icons of exactly the nominal size.
    Fixed,
    /// Icons that scale to any size from `min_size` to `max_size`.
    Scalable { min_size: u16, max_size: u16 },
    /// Icons usable within `threshold` of the nominal size.
    Threshold { threshold: u16 },
}

/// One subdirectory of a theme, as its section of the index document
/// describes it.
#[derive(Clone, Debug, PartialEq, Eq)]
pub struct Directory {
    /// The path of the subdirectory below the theme's directory.
    pub name: String,
    /// The nominal size of its icons.
    pub size: u16,
    /// The display scale its icons are drawn for.
    pub scale: u16,
    /// The kind of the subdirectory.
    pub type_: DirectoryType,
}

/// A [`Directory`] with its name as a sequence of characters.
pub ghost struct DirectoryView {
    pub name: Seq<char>,
    pub size: u16,
    pub scale: u16,
    pub type_: DirectoryType,
}

impl View for Directory {
    type V = DirectoryView;

    open spec fn view(&self) -> DirectoryView {
        DirectoryView { name: self.name@, size: self.size, scale: self.scale, type_: self.type_ }
    }
}

/// The views of a list of directories.
pub open spec fn directory_views(dirs: Seq<Directory>) -> Seq<DirectoryView> {
    dirs.map_values(|d: Directory| d@)
}

/// How far the span from `low` to `high` lies from `wanted`: positive where
/// the whole span is above it, negative where the whole span is below it,
/// zero where the span holds it.
pub open spec fn span_distance(low: int, high: int, wanted: int) -> int {
    if wanted < low {
        low - wanted
    } else if wanted > high {
        high - wanted
    } else {
        0
    }
}

/// The bound that every size distance stays strictly within.
pub open spec fn distance_bound() -> int {
    0x4_0000_0000
}

impl DirectoryView {
    /// Whether icons of this subdirectory fit `size` at `scale` exactly.
    pub open spec fn fits(self, size: u16, scale: u16) -> bool {
        self.scale == scale && match self.type_ {
            DirectoryType::Fixed => self.size == size,
            DirectoryType::Scalable { min_size, max_size } => min_size <= size <= max_size,
            DirectoryType::Threshold { threshold } => self.size - threshold <= size <= self.size
                + threshold,
        }
    }

    /// The lowest size in pixels that this subdirectory serves.
    pub open spec fn low(self) -> int {
        match self.type_ {
            DirectoryType::Fixed => self.size * self.scale,
            DirectoryType::Scalable { min_size, max_size } => min_size * self.scale,
            DirectoryType::Threshold { threshold } => (self.size - threshold) * self.scale,
        }
    }

    /// The highest size in pixels that this subdirectory serves.
    pub open spec fn high(self) -> int {
        match self.type_ {
            DirectoryType::Fixed => self.size * self.scale,
            DirectoryType::Scalable { min_size, max_size } => max_size * self.scale,
            DirectoryType::Threshold { threshold } => (self.size + threshold) * self.scale,
        }
    }

    /// The signed distance in pixels between what this subdirectory serves
    /// and `size` at `scale`: negative where the subdirectory is smaller
    /// than the request, positive where it is larger, zero where it holds
    /// the requested size.
    pub open spec fn distance(self, size: u16, scale: u16) -> int {
        span_distance(self.low(), self.high(), size * scale)
    }

    /// Whether this subdirectory takes part in a search for the closest
    /// size: a fixed one does so only at its own scale.
    pub open spec fn is_candidate(self, scale: u16) -> bool {
        !(self.type_ is Fixed && self.scale != scale)
    }
}

/// The product of two 16-bit numbers.
fn pixels(size: i64, scale: u16) -> (product: i64)
    requires
        -0x1_0000 < size < 0x2_0000,
    ensures
        product == size * scale,
        -0x1_0000_0000 < product < 0x2_0000_0000,
{
    assert(-0x1_0000_0000 < size * scale < 0x2_0000_0000) by (nonlinear_arith)
        requires
            -0x1_0000 < size < 0x2_0000,
            0 <= scale < 0x1_0000,
    ;
    size * (scale as i64)
}

impl Directory {
    /// Whether icons of this subdirectory fit `size` at `scale` exactly:
    /// the scales are equal, and the size is the nominal one (fixed), lies
    /// within the bounds (scalable) or within the threshold of the nominal
    /// size (threshold).
    pub fn match_size(&self, size: u16, scale: u16) -> (fit: bool)
        ensures
            fit == self@.fits(size, scale),
    {
        if self.scale != scale {
            false
        } else {
            match self.type_ {
                DirectoryType::Fixed => self.size == size,
                DirectoryType::Scalable { min_size, max_size } => min_size <= size && size
                    <= max_size,
                DirectoryType::Threshold { threshold } => {
                    let nominal: i64 = self.size as i64;
                    let wanted: i64 = size as i64;
                    nominal - (threshold as i64) <= wanted && wanted <= nominal + (
                    threshold as i64)
                },
            }
        }
    }

    /// The signed distance in pixels between what this subdirectory serves
    /// and `size` at `scale`.
    pub fn directory_size_distance(&self, size: u16, scale: u16) -> (distance: i64)
        ensures
            distance == self@.distance(size, scale),
            -distance_bound() < distance < distance_bound(),
    {
        let wanted: i64 = pixels(size as i64, scale);
        let (low, high): (i64, i64) = match self.type_ {
            DirectoryType::Fixed => {
                let nominal: i64 = pixels(self.size as i64, self.scale);
                (nominal, nominal)
            },
            DirectoryType::Scalable { min_size, max_size } => (
                pixels(min_size as i64, self.scale),
                pixels(max_size as i64, self.scale),
            ),
            DirectoryType::Threshold { threshold } => (
                pixels(self.size as i64 - threshold as i64, self.scale),
                pixels(self.size as i64 + threshold as i64, self.scale),
            ),
        };
        if wanted < low {
            low - wanted
        } else if wanted > high {
            high - wanted
        } else {
            0
        }
    }

    /// Whether this subdirectory takes part in a search for the closest
    /// size at `scale`.
    pub fn is_candidate(&self, scale: u16) -> (candidate: bool)
        ensures
            candidate == self@.is_candidate(scale),
    {
        match self.type_ {
            DirectoryType::Fixed => self.scale == scale,
            _ => true,
        }
    }
}

/// A subdirectory that fits a request exactly lies at distance zero from it.
pub proof fn lemma_fit_has_no_distance(dir: DirectoryView, size: u16, scale: u16)
    requires
        dir.fits(size, scale),
    ensures
        dir.distance(size, scale) == 0,
{
    let s = scale as int;
    match dir.type_ {
        DirectoryType::Fixed => {},
        DirectoryType::Scalable { min_size, max_size } => {
            assert(min_size * s <= size * s <= max_size * s) by (nonlinear_arith)
                requires
                    min_size <= size <= max_size,
                    0 <= s,
            ;
        },
        DirectoryType::Threshold { threshold } => {
            let lo = dir.size - threshold;
            let hi = dir.size + threshold;
            assert(lo * s <= size * s <= hi * s) by (nonlinear_arith)
                requires
                    lo <= size <= hi,
                    0 <= s,
            ;
        },
    }
}

} // verus!
