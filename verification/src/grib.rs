//! Reading the messages of a GRIB2 file into products.
//!
//! The sections of a message arrive one after another: who made it, its grid,
//! its product, how its values are packed, its bitmap, and the values. Each
//! changes what the reader knows, and the values become points on the base grid
//! of their product.

use vstd::prelude::*;

use bit_vec::BitVec;

use crate::bitmap::{bitmap_flags, bits_of};
use crate::calendar::{in_calendar, instant, is_valid, seconds_of, Civil};
use crate::model::{BandSpec, LngLatGrid, PointValue};

verus! {

/// What the reader needs of a grid definition.
#[derive(Clone, Copy, Debug, PartialEq, Eq, Structural)]
pub struct GridDefinition {
    pub n_i: u32,
    pub n_j: u32,
    pub la1: i32,
    pub lo1: i32,
    pub resolution_and_component_flags: u8,
    pub la2: i32,
    pub lo2: i32,
    pub d_i: u32,
    pub d_j: u32,
    pub scanning_mode: u8,
}

/// One time range of a statistical product.
#[derive(Clone, Copy, Debug, PartialEq, Eq, Structural)]
pub struct TimeRange {
    pub statistical_process: u8,
}

/// The period that a statistical product covers: its end, and its time ranges.
#[derive(Debug)]
pub struct TimeInterval {
    pub end: Civil,
    pub time_ranges: Vec<TimeRange>,
}

/// How far ahead of its reference time a product is, and in which unit.
#[derive(Clone, Copy, Debug, PartialEq, Eq, Structural)]
pub struct ForecastOffset {
    pub indicator_of_unit_of_time_range: u8,
    pub forecast_time: i32,
}

/// Why a grid cannot be laid on the base grid of its product.
#[derive(Clone, Copy, Debug, PartialEq, Eq, Structural)]
pub enum GridFault {
    ZeroIncrement,
    FinerAfterValues,
    ExtentPrecedesOrigin,
    UnequalWidths,
    NotPowerOfTwo(u32),
    CornerPrecedesOrigin,
    LongitudeCountZero,
    LongitudeOverflow,
    LatitudeCountZero,
    LatitudeOverflow,
    LatitudePrecedesOrigin,
    ScanningMode(u8),
    ExceedsCoordinates { x_first: u32, y_first: u32, x_last: u32, y_last: u32 },
}

/// Why a message cannot be read.
#[derive(Clone, Copy, Debug, PartialEq, Eq, Structural)]
pub enum GribError {
    Grid(GridFault),
    NoTimeRange,
    PeriodEnd(Civil),
    TimeUnit(u8),
    GridTemplate(u16),
    ResolutionFlags(u8),
    ScanningMode(u8),
    BitmapTooShort,
    FewerValuesThanBitmap,
    FewerValuesThanGrid,
}

impl GribError {
    /// The message contradicts itself, rather than ask for what is not
    /// supported.
    pub open spec fn invalid(self) -> bool {
        self is NoTimeRange || self is PeriodEnd || self is BitmapTooShort
            || self is FewerValuesThanBitmap || self is FewerValuesThanGrid
    }

    pub fn is_invalid_data(&self) -> (r: bool)
        ensures
            r == self.invalid(),
    {
        match self {
            GribError::NoTimeRange => true,
            GribError::PeriodEnd(_) => true,
            GribError::BitmapTooShort => true,
            GribError::FewerValuesThanBitmap => true,
            GribError::FewerValuesThanGrid => true,
            _ => false,
        }
    }
}

/// The statistical operation the first time range describes.
///
/// A statistical template promises at least one range; a truncated message
/// breaks that promise, and is reported.
pub fn first_statistical_process(interval: &TimeInterval) -> (process: Result<u8, GribError>)
    ensures
        process == if interval.time_ranges@.len() > 0 {
            Ok::<u8, GribError>(interval.time_ranges@[0].statistical_process)
        } else {
            Err::<u8, GribError>(GribError::NoTimeRange)
        },
{
    if interval.time_ranges.len() == 0 {
        Err(GribError::NoTimeRange)
    } else {
        Ok(interval.time_ranges[0].statistical_process)
    }
}

/// The seconds in a unit of time: minutes, hours or days.
pub open spec fn unit_seconds(unit: u8) -> Option<int> {
    if unit == 0 {
        Some(60)
    } else if unit == 1 {
        Some(3600)
    } else if unit == 2 {
        Some(86400)
    } else {
        None
    }
}

/// When a field is valid: at the end of the period that it covers, or as far
/// ahead of the reference time as it says.
pub open spec fn valid_time(
    reference: int,
    offset: ForecastOffset,
    period_end: Option<Civil>,
) -> Result<int, GribError> {
    match period_end {
        Some(end) => if is_valid(end) {
            Ok(seconds_of(end))
        } else {
            Err(GribError::PeriodEnd(end))
        },
        None => match unit_seconds(offset.indicator_of_unit_of_time_range) {
            Some(seconds) => Ok(reference + offset.forecast_time * seconds),
            None => Err(GribError::TimeUnit(offset.indicator_of_unit_of_time_range)),
        },
    }
}

/// When a field is valid.
///
/// A statistical product covers a period rather than an instant, and GRIB2
/// spells out where that period ends: the forecast time marks only where it
/// begins. A period that is there but cannot be read is not the same as none:
/// falling back to its start would give a plausible time that is quietly an
/// accumulation period wrong.
pub fn valid_datetime(
    reference_datetime: i64,
    offset: &ForecastOffset,
    interval: Option<&TimeInterval>,
) -> (datetime: Result<i64, GribError>)
    requires
        in_calendar(reference_datetime as int),
        valid_time(
            reference_datetime as int,
            *offset,
            match interval {
                Some(i) => Some(i.end),
                None => None,
            },
        ) matches Ok(t) ==> in_calendar(t),
    ensures
        match (
            datetime,
            valid_time(
                reference_datetime as int,
                *offset,
                match interval {
                    Some(i) => Some(i.end),
                    None => None,
                },
            ),
        ) {
            (Ok(t), Ok(expected)) => t == expected,
            (Err(e), Err(expected)) => e == expected,
            _ => false,
        },
{
    if let Some(interval) = interval {
        return match instant(interval.end) {
            Some(end) => Ok(end),
            None => Err(GribError::PeriodEnd(interval.end)),
        };
    }
    let unit: u8 = offset.indicator_of_unit_of_time_range;
    let ahead: i64 = offset.forecast_time as i64;
    if unit == 0 {
        Ok(reference_datetime + ahead * 60)
    } else if unit == 1 {
        Ok(reference_datetime + ahead * 3600)
    } else if unit == 2 {
        Ok(reference_datetime + ahead * 86400)
    } else {
        Err(GribError::TimeUnit(unit))
    }
}

/// The base-grid coordinates of a grid's lower-left corner, and by how much they
/// had to be moved down to a multiple of the cell width.
#[derive(Clone, Copy, Debug, PartialEq, Eq)]
pub struct GridCorner {
    pub x: u32,
    pub y: u32,
    pub snap: Option<(u32, u32)>,
}

/// The corner on the cell boundary at or before a corner.
pub open spec fn snapped(x_first: int, y_last: int, width: int) -> GridCorner {
    let dx = x_first % width;
    let dy = y_last % width;
    GridCorner {
        x: (x_first - dx) as u32,
        y: (y_last - dy) as u32,
        snap: if dx != 0 || dy != 0 {
            Some((dx as u32, dy as u32))
        } else {
            None
        },
    }
}

/// Moves a corner west and south to a cell boundary. A corner that does not sit
/// on one is moved visibly rather than with no diagnostic.
pub fn grid_corner(x_first: i64, y_last: i64, width: u32) -> (corner: GridCorner)
    requires
        x_first >= 0,
        y_last >= 0,
        width > 0,
    ensures
        corner == snapped(x_first as int, y_last as int, width as int),
{
    let step: i64 = width as i64;
    let dx: i64 = x_first % step;
    let dy: i64 = y_last % step;
    let snap: Option<(u32, u32)> = if dx != 0 || dy != 0 {
        Some((dx as u32, dy as u32))
    } else {
        None
    };
    GridCorner { x: (x_first - dx) as u32, y: (y_last - dy) as u32, snap }
}

/// Where the points of a grid end that starts at the given corner.
pub open spec fn last_row(g: GridDefinition, y_first: int, width: int) -> int {
    if g.scanning_mode == 0 {
        y_first - (g.n_j - 1) * width
    } else {
        y_first + (g.n_j - 1) * width
    }
}

/// What stops a grid from fitting the range of coordinates, if anything does.
pub open spec fn extent_fault(
    g: GridDefinition,
    x_first: int,
    y_first: int,
    width: int,
) -> Option<GridFault> {
    let x_last = x_first + (g.n_i - 1) * width;
    let y_last = last_row(g, y_first, width);
    if g.n_i == 0 {
        Some(GridFault::LongitudeCountZero)
    } else if (g.n_i - 1) * width > u32::MAX {
        Some(GridFault::LongitudeOverflow)
    } else if g.n_j == 0 {
        Some(GridFault::LatitudeCountZero)
    } else if (g.n_j - 1) * width > u32::MAX {
        Some(GridFault::LatitudeOverflow)
    } else if x_last > u32::MAX {
        Some(GridFault::LongitudeOverflow)
    } else if g.scanning_mode == 0 && y_last < 0 {
        Some(GridFault::LatitudePrecedesOrigin)
    } else if g.scanning_mode == 64 && y_last > u32::MAX {
        Some(GridFault::LatitudeOverflow)
    } else if g.scanning_mode != 0 && g.scanning_mode != 64 {
        Some(GridFault::ScanningMode(g.scanning_mode))
    } else if x_first > u16::MAX || x_last > u16::MAX || y_first > u16::MAX || y_last > u16::MAX {
        Some(
            GridFault::ExceedsCoordinates {
                x_first: x_first as u32,
                y_first: y_first as u32,
                x_last: x_last as u32,
                y_last: y_last as u32,
            },
        )
    } else {
        None
    }
}

/// Rejects grids whose coordinates cannot be represented by a point.
///
/// The loops that build points can then use ordinary arithmetic and lossless
/// casts without a malformed grid causing an overflow.
pub fn validate_grid_extent(
    template: &GridDefinition,
    x_first: u32,
    y_first: u32,
    width: u32,
) -> (outcome: Result<(), GridFault>)
    ensures
        outcome == match extent_fault(*template, x_first as int, y_first as int, width as int) {
            Some(fault) => Err::<(), GridFault>(fault),
            None => Ok::<(), GridFault>(()),
        },
{
    if template.n_i == 0 {
        return Err(GridFault::LongitudeCountZero);
    }
    proof {
        lemma_product_fits(template.n_i - 1, width as int);
        lemma_product_fits(template.n_j - 1, width as int);
    }
    let x_steps: u64 = (template.n_i - 1) as u64 * width as u64;
    if x_steps > u32::MAX as u64 {
        return Err(GridFault::LongitudeOverflow);
    }
    if template.n_j == 0 {
        return Err(GridFault::LatitudeCountZero);
    }
    let y_steps: u64 = (template.n_j - 1) as u64 * width as u64;
    if y_steps > u32::MAX as u64 {
        return Err(GridFault::LatitudeOverflow);
    }
    let x_last: u64 = x_first as u64 + x_steps;
    if x_last > u32::MAX as u64 {
        return Err(GridFault::LongitudeOverflow);
    }
    let y_last: u64 = if template.scanning_mode == 0 {
        if (y_first as u64) < y_steps {
            return Err(GridFault::LatitudePrecedesOrigin);
        }
        y_first as u64 - y_steps
    } else if template.scanning_mode == 64 {
        let y: u64 = y_first as u64 + y_steps;
        if y > u32::MAX as u64 {
            return Err(GridFault::LatitudeOverflow);
        }
        y
    } else {
        return Err(GridFault::ScanningMode(template.scanning_mode));
    };
    let most: u64 = u16::MAX as u64;
    if x_first as u64 > most || x_last > most || y_first as u64 > most || y_last > most {
        return Err(
            GridFault::ExceedsCoordinates {
                x_first,
                y_first,
                x_last: x_last as u32,
                y_last: y_last as u32,
            },
        );
    }
    Ok(())
}

proof fn lemma_product_fits(a: int, b: int)
    by (nonlinear_arith)
    requires
        -1 <= a <= 0xffff_ffff,
        0 <= b <= 0xffff_ffff,
    ensures
        a * b <= 0xffff_ffff_ffff_ffff,
        a >= 0 ==> a * b >= 0,
{
}

/// Whether a product may be laid on a grid with these increments, given which of
/// them are finer than the product's grid.
///
/// A product keeps the configured grid where its messages mix resolutions, but
/// a finer grid can only be taken over before the first value.
pub open spec fn refinement_fault(
    g: GridDefinition,
    finer: bool,
    has_points: bool,
) -> Option<GridFault> {
    if g.d_i == 0 || g.d_j == 0 {
        Some(GridFault::ZeroIncrement)
    } else if finer && has_points {
        Some(GridFault::FinerAfterValues)
    } else {
        None
    }
}

/// The grid that values are laid on: the one that the product has, or else the
/// one that is configured for it, with the finer increments taken over.
pub open spec fn refined(
    own: Option<LngLatGrid>,
    configured: LngLatGrid,
    finer_longitude: Option<u32>,
    finer_latitude: Option<u32>,
) -> LngLatGrid {
    let base = match own {
        Some(grid) => grid,
        None => configured,
    };
    LngLatGrid {
        lng_0: base.lng_0,
        lat_0: base.lat_0,
        lng_denom: match finer_longitude {
            Some(denominator) => denominator,
            None => base.lng_denom,
        },
        lat_denom: match finer_latitude {
            Some(denominator) => denominator,
            None => base.lat_denom,
        },
    }
}

/// The grid that the values of a message are laid on, of which a finer increment
/// is given by its cells per degree.
pub fn resolve_product_grid(
    template: &GridDefinition,
    own: Option<LngLatGrid>,
    configured: LngLatGrid,
    finer_longitude: Option<u32>,
    finer_latitude: Option<u32>,
    has_points: bool,
) -> (outcome: Result<LngLatGrid, GridFault>)
    ensures
        outcome == match refinement_fault(
            *template,
            finer_longitude is Some || finer_latitude is Some,
            has_points,
        ) {
            Some(fault) => Err::<LngLatGrid, GridFault>(fault),
            None => Ok::<LngLatGrid, GridFault>(
                refined(own, configured, finer_longitude, finer_latitude),
            ),
        },
{
    if template.d_i == 0 || template.d_j == 0 {
        return Err(GridFault::ZeroIncrement);
    }
    let mut grid: LngLatGrid = match own {
        Some(grid) => grid,
        None => configured,
    };
    if (finer_longitude.is_some() || finer_latitude.is_some()) && has_points {
        return Err(GridFault::FinerAfterValues);
    }
    if let Some(denominator) = finer_longitude {
        grid.lng_denom = denominator;
    }
    if let Some(denominator) = finer_latitude {
        grid.lat_denom = denominator;
    }
    Ok(grid)
}

/// Two to the power of `p`.
pub open spec fn power_of_two(p: nat) -> nat
    decreases p,
{
    if p == 0 {
        1
    } else {
        2 * power_of_two((p - 1) as nat)
    }
}

pub proof fn lemma_power_monotone(a: nat, b: nat)
    requires
        a <= b,
    ensures
        power_of_two(a) <= power_of_two(b),
    decreases b,
{
    if a < b {
        lemma_power_monotone(a, (b - 1) as nat);
    }
}

/// The power of two that a cell is wide, where its width is one.
pub fn cell_power(width: u32) -> (power: Result<u8, GridFault>)
    ensures
        match power {
            Ok(p) => p < 32 && power_of_two(p as nat) == width,
            Err(fault) => fault == GridFault::NotPowerOfTwo(width) && forall|p: nat|
                #[trigger] power_of_two(p) != width,
        },
{
    let mut power: u8 = 0;
    let mut value: u64 = 1;
    proof {
        assert(power_of_two(31) == 0x8000_0000 && power_of_two(32) == 0x1_0000_0000) by {
            reveal_with_fuel(power_of_two, 33);
        }
    }
    while value < width as u64
        invariant
            power <= 32,
            value >= 1,
            value == power_of_two(power as nat),
            value <= 0x1_0000_0000,
            power == 32 ==> value == 0x1_0000_0000,
            power_of_two(31) == 0x8000_0000,
            power_of_two(32) == 0x1_0000_0000,
            power < 32 ==> value <= 0x8000_0000,
            forall|p: nat| p < power ==> #[trigger] power_of_two(p) < width,
        decreases 0x1_0000_0000 - value,
    {
        proof {
            assert(power_of_two((power + 1) as nat) == 2 * value);
            if power < 31 {
                lemma_power_monotone((power + 1) as nat, 31);
            }
            assert forall|p: nat| p < power + 1 implies #[trigger] power_of_two(p) < width by {
                if p == power {
                    assert(power_of_two(p) == value);
                }
            }
        }
        power = power + 1;
        value = value * 2;
    }
    if value == width as u64 {
        Ok(power)
    } else {
        proof {
            assert forall|p: nat| #[trigger] power_of_two(p) != width by {
                if p >= power {
                    lemma_power_monotone(power as nat, p);
                }
            }
        }
        Err(GridFault::NotPowerOfTwo(width))
    }
}

/// Cell `k` of a grid carries a value. Without a bitmap every cell does.
pub open spec fn is_present(bits: Option<Seq<bool>>, k: int) -> bool {
    match bits {
        Some(flags) => 0 <= k < flags.len() && flags[k],
        None => true,
    }
}

/// How many of the first `k` cells carry a value.
pub open spec fn rank(bits: Option<Seq<bool>>, k: nat) -> nat
    decreases k,
{
    if k == 0 {
        0
    } else {
        rank(bits, (k - 1) as nat) + if is_present(bits, k - 1) {
            1nat
        } else {
            0nat
        }
    }
}

/// Where the values of a message go: its grid, the base-grid corner at which it
/// starts, the width of a cell and its power of two, and the band.
#[derive(Clone, Copy, Debug, PartialEq, Eq, Structural)]
pub struct Placement {
    pub grid: GridDefinition,
    pub x_first: u32,
    pub y_first: u32,
    pub width: u32,
    pub power: u8,
    pub band: u8,
}

impl Placement {
    /// The points of the grid lie in the range of coordinates.
    pub open spec fn fits(self) -> bool {
        extent_fault(
            self.grid,
            self.x_first as int,
            self.y_first as int,
            self.width as int,
        ) is None
    }

    pub open spec fn row(self, j: int) -> int {
        if self.grid.scanning_mode == 0 {
            self.y_first - j * self.width
        } else {
            self.y_first + j * self.width
        }
    }

    /// The point of cell `k`, cells counted along the rows.
    pub open spec fn point(self, k: int, value: i32) -> PointValue {
        PointValue {
            x: (self.x_first + (k % self.grid.n_i as int) * self.width) as u16,
            y: self.row(k / self.grid.n_i as int) as u16,
            point_id: 0,
            point_power: self.power,
            band_idx: self.band,
            value,
        }
    }

    pub open spec fn cells(self) -> int {
        self.grid.n_i * self.grid.n_j
    }
}

/// The points of the first `k` cells: a cell that carries a value takes the next
/// one, and becomes a point unless the value says that there is none.
pub open spec fn points_of(
    p: Placement,
    bits: Option<Seq<bool>>,
    values: Seq<i32>,
    k: nat,
) -> Seq<PointValue>
    decreases k,
{
    if k == 0 {
        Seq::empty()
    } else {
        let before = points_of(p, bits, values, (k - 1) as nat);
        let value = values[rank(bits, (k - 1) as nat) as int];
        if is_present(bits, k - 1) && value != i32::MIN {
            before.push(p.point(k - 1, value))
        } else {
            before
        }
    }
}

/// The bitmap does not reach cell `k`, or the values do not.
pub open spec fn runs_out(
    bits: Option<Seq<bool>>,
    values: Seq<i32>,
    k: int,
) -> Option<GribError> {
    match bits {
        Some(flags) => if k >= flags.len() {
            Some(GribError::BitmapTooShort)
        } else if flags[k] && rank(bits, k as nat) >= values.len() {
            Some(GribError::FewerValuesThanBitmap)
        } else {
            None
        },
        None => if rank(bits, k as nat) >= values.len() {
            Some(GribError::FewerValuesThanGrid)
        } else {
            None
        },
    }
}

/// The first `k` cells can be filled.
pub open spec fn suffices(bits: Option<Seq<bool>>, values: Seq<i32>, k: int) -> bool {
    forall|i: int| 0 <= i < k ==> #[trigger] runs_out(bits, values, i) is None
}

/// The bits of a bitmap, where there is one.
pub open spec fn flags_of(bitmap: Option<&BitVec>) -> Option<Seq<bool>> {
    match bitmap {
        Some(b) => Some(bits_of(*b)),
        None => None,
    }
}

/// Cell `k` is the first that cannot be filled, and the cells before it are.
pub open spec fn stopped_at(
    p: Placement,
    bits: Option<Seq<bool>>,
    values: Seq<i32>,
    before: Seq<PointValue>,
    after: Seq<PointValue>,
    error: GribError,
    k: int,
) -> bool {
    &&& 0 <= k < p.cells()
    &&& suffices(bits, values, k)
    &&& runs_out(bits, values, k) == Some(error)
    &&& after == before + points_of(p, bits, values, k as nat)
}

/// What went wrong, if anything did.
pub open spec fn fault_of(outcome: Result<(), GribError>) -> Option<GribError> {
    match outcome {
        Ok(_) => None,
        Err(error) => Some(error),
    }
}

/// The points of all cells were put behind those that were there, or the first
/// cell that could not be filled was reported.
pub open spec fn placed(
    p: Placement,
    bits: Option<Seq<bool>>,
    values: Seq<i32>,
    before: Seq<PointValue>,
    after: Seq<PointValue>,
    fault: Option<GribError>,
) -> bool {
    match fault {
        None => {
            &&& suffices(bits, values, p.cells())
            &&& after == before + points_of(p, bits, values, p.cells() as nat)
        },
        Some(error) => exists|k: int|
            #[trigger] stopped_at(p, bits, values, before, after, error, k),
    }
}

/// Turns the values of a message into points.
///
/// The points of the cells before a fault are kept; the fault is that of the
/// first cell that cannot be filled.
pub fn place_points(
    placement: &Placement,
    bitmap: Option<&BitVec>,
    values: &Vec<i32>,
    points: &mut Vec<PointValue>,
) -> (outcome: Result<(), GribError>)
    requires
        placement.fits(),
    ensures
        placed(
            *placement,
            flags_of(bitmap),
            values@,
            old(points)@,
            final(points)@,
            fault_of(outcome),
        ),
{
    let ghost p = *placement;
    let ghost bits = flags_of(bitmap);
    let ghost before = points@;
    let flags: Vec<bool> = match bitmap {
        Some(bitmap) => bitmap_flags(bitmap),
        None => Vec::new(),
    };
    let masked = bitmap.is_some();
    let n_i: u32 = placement.grid.n_i;
    let n_j: u32 = placement.grid.n_j;
    let width: u32 = placement.width;
    let mut cell: usize = 0;
    let mut next: usize = 0;
    let mut j: u32 = 0;
    proof {
        lemma_extent(p);
        assert(0 * n_i as int == 0);
        assert(points@ =~= before + points_of(p, bits, values@, 0));
    }
    while j < n_j
        invariant
            p == *placement,
            p.fits(),
            n_i == p.grid.n_i,
            n_j == p.grid.n_j,
            n_i > 0,
            width == p.width,
            j <= n_j,
            masked == (bits is Some),
            bits matches Some(f) ==> flags@ == f,
            cell == j * n_i,
            next == rank(bits, cell as nat),
            next <= values@.len(),
            suffices(bits, values@, cell as int),
            points@ == before + points_of(p, bits, values@, cell as nat),
            bits == flags_of(bitmap),
            before == old(points)@,
        decreases n_j - j,
    {
        proof {
            lemma_row(p, j as int);
        }
        let y: u16 = if placement.grid.scanning_mode == 0 {
            (placement.y_first - j * width) as u16
        } else {
            (placement.y_first + j * width) as u16
        };
        let mut i: u32 = 0;
        while i < n_i
            invariant
                p == *placement,
                p.fits(),
                n_i == p.grid.n_i,
                n_j == p.grid.n_j,
                width == p.width,
                j < n_j,
                i <= n_i,
                y == p.row(j as int),
                masked == (bits is Some),
                bits matches Some(f) ==> flags@ == f,
                cell == j * n_i + i,
                next == rank(bits, cell as nat),
                next <= values@.len(),
                suffices(bits, values@, cell as int),
                points@ == before + points_of(p, bits, values@, cell as nat),
                bits == flags_of(bitmap),
                before == old(points)@,
            decreases n_i - i,
        {
            proof {
                lemma_cell(p, i as int, j as int);
            }
            if masked && cell >= flags.len() {
                assert(stopped_at(p, bits, values@, before, points@, GribError::BitmapTooShort, cell as int));
                return Err(GribError::BitmapTooShort);
            }
            let present = !masked || flags[cell];
            if present {
                if next >= values.len() {
                    if masked {
                        assert(stopped_at(p, bits, values@, before, points@, GribError::FewerValuesThanBitmap, cell as int));
                        return Err(GribError::FewerValuesThanBitmap);
                    }
                    assert(stopped_at(p, bits, values@, before, points@, GribError::FewerValuesThanGrid, cell as int));
                    return Err(GribError::FewerValuesThanGrid);
                }
                let value: i32 = values[next];
                if value != i32::MIN {
                    points.push(
                        PointValue {
                            x: (placement.x_first + i * width) as u16,
                            y,
                            point_id: 0,
                            point_power: placement.power,
                            band_idx: placement.band,
                            value,
                        },
                    );
                }
            }
            proof {
                let k = cell as nat;
                assert(is_present(bits, k as int) == present);
                assert(rank(bits, k + 1) == rank(bits, k) + if present {
                    1nat
                } else {
                    0nat
                });
                assert(runs_out(bits, values@, k as int) is None);
                lemma_rank_bound(bits, k);
                if present && values@[next as int] != i32::MIN {
                    let point = p.point(k as int, values@[next as int]);
                    assert(points_of(p, bits, values@, k + 1) == points_of(p, bits, values@, k).push(
                        point,
                    ));
                    assert(points@ =~= before + points_of(p, bits, values@, k + 1));
                }
            }
            if present {
                next = next + 1;
            }
            cell = cell + 1;
            i = i + 1;
        }
        proof {
            assert((j + 1) * n_i == j * n_i + n_i) by (nonlinear_arith);
        }
        j = j + 1;
    }
    proof {
        assert(n_j * n_i == n_i * n_j) by (nonlinear_arith);
    }
    Ok(())
}

proof fn lemma_rank_bound(bits: Option<Seq<bool>>, k: nat)
    ensures
        rank(bits, k) <= k,
        bits is None ==> rank(bits, k) == k,
    decreases k,
{
    if k > 0 {
        lemma_rank_bound(bits, (k - 1) as nat);
    }
}

proof fn lemma_extent(p: Placement)
    requires
        p.fits(),
    ensures
        p.grid.n_i > 0,
        p.grid.n_j > 0,
        p.grid.scanning_mode == 0 || p.grid.scanning_mode == 64,
        p.x_first + (p.grid.n_i - 1) * p.width <= u16::MAX,
        0 <= p.row(p.grid.n_j - 1) <= u16::MAX,
        p.y_first <= u16::MAX,
{
}

/// Every row of a grid that fits lies in the range of coordinates.
proof fn lemma_row(p: Placement, j: int)
    requires
        p.fits(),
        0 <= j < p.grid.n_j,
    ensures
        0 <= p.row(j) <= u16::MAX,
        0 <= j * p.width <= u16::MAX,
{
    lemma_extent(p);
    let n = p.grid.n_j - 1;
    let w = p.width as int;
    assert(0 <= j * w <= n * w) by (nonlinear_arith)
        requires
            0 <= j <= n,
            w >= 0,
    ;
}

proof fn lemma_cell(p: Placement, i: int, j: int)
    requires
        p.fits(),
        0 <= i < p.grid.n_i,
        0 <= j < p.grid.n_j,
    ensures
        0 <= j * p.grid.n_i + i < p.cells(),
        (j * p.grid.n_i + i) % p.grid.n_i as int == i,
        (j * p.grid.n_i + i) / p.grid.n_i as int == j,
        0 <= i * p.width <= u16::MAX,
        0 <= p.x_first + i * p.width <= u16::MAX,
{
    lemma_extent(p);
    let n = p.grid.n_i as int;
    let m = p.grid.n_j as int;
    let w = p.width as int;
    assert(0 <= i * w <= (n - 1) * w) by (nonlinear_arith)
        requires
            0 <= i <= n - 1,
            w >= 0,
    ;
    assert(0 <= j * n + i < n * m) by (nonlinear_arith)
        requires
            0 <= i < n,
            0 <= j < m,
    ;
    assert((j * n + i) % n == i && (j * n + i) / n == j) by (nonlinear_arith)
        requires
            0 <= i < n,
            0 <= j,
    ;
}

/// The lesser of what was known and the values that are there.
pub open spec fn lowest(known: Option<i32>, values: Seq<i32>) -> Option<i32>
    decreases values.len(),
{
    if values.len() == 0 {
        known
    } else {
        let before = lowest(known, values.drop_last());
        let value = values.last();
        if value == i32::MIN {
            before
        } else {
            match before {
                Some(least) => Some(
                    if value < least {
                        value
                    } else {
                        least
                    },
                ),
                None => Some(value),
            }
        }
    }
}

/// The greater of what was known and the values that are there.
pub open spec fn highest(known: Option<i32>, values: Seq<i32>) -> Option<i32>
    decreases values.len(),
{
    if values.len() == 0 {
        known
    } else {
        let before = highest(known, values.drop_last());
        let value = values.last();
        if value == i32::MIN {
            before
        } else {
            match before {
                Some(most) => Some(
                    if value > most {
                        value
                    } else {
                        most
                    },
                ),
                None => Some(value),
            }
        }
    }
}

/// The least value is a value or was known before, and no value lies below it.
pub proof fn lemma_lowest(known: Option<i32>, values: Seq<i32>)
    ensures
        match lowest(known, values) {
            Some(least) => {
                &&& known == Some(least) || (least != i32::MIN && values.contains(least))
                &&& known matches Some(k) ==> least <= k
                &&& forall|i: int|
                    0 <= i < values.len() && #[trigger] values[i] != i32::MIN ==> least <= values[i]
            },
            None => known is None && forall|i: int|
                0 <= i < values.len() ==> #[trigger] values[i] == i32::MIN,
        },
    decreases values.len(),
{
    if values.len() > 0 {
        let rest = values.drop_last();
        lemma_lowest(known, rest);
        assert(values[values.len() - 1] == values.last());
        if let Some(least) = lowest(known, rest) {
            if rest.contains(least) {
                let i = choose|i: int| 0 <= i < rest.len() && rest[i] == least;
                assert(values[i] == least);
            }
        }
        assert forall|i: int| 0 <= i < rest.len() implies #[trigger] values[i] == rest[i] by {
        }
    }
}

/// The extremes of the values of one band, over what was known of it.
pub fn extremes(min: Option<i32>, max: Option<i32>, values: &Vec<i32>) -> (r: (
    Option<i32>,
    Option<i32>,
))
    ensures
        r.0 == lowest(min, values@),
        r.1 == highest(max, values@),
{
    let mut low = min;
    let mut high = max;
    let mut i: usize = 0;
    proof {
        assert(values@.take(0) =~= Seq::empty());
    }
    while i < values.len()
        invariant
            i <= values@.len(),
            low == lowest(min, values@.take(i as int)),
            high == highest(max, values@.take(i as int)),
        decreases values@.len() - i,
    {
        let value: i32 = values[i];
        proof {
            assert(values@.take(i + 1).drop_last() =~= values@.take(i as int));
            assert(values@.take(i + 1).last() == value);
        }
        if value != i32::MIN {
            low = match low {
                Some(least) => Some(
                    if value < least {
                        value
                    } else {
                        least
                    },
                ),
                None => Some(value),
            };
            high = match high {
                Some(most) => Some(
                    if value > most {
                        value
                    } else {
                        most
                    },
                ),
                None => Some(value),
            };
        }
        i = i + 1;
    }
    assert(values@.take(values@.len() as int) =~= values@);
    (low, high)
}

/// The bits of a single-precision number that is zero.
pub open spec fn is_zero_bits(bits: u32) -> bool {
    bits == 0 || bits == 0x8000_0000
}

/// The bits of no number.
pub open spec fn is_nan_bits(bits: u32) -> bool {
    (bits > 0x7f80_0000 && bits < 0x8000_0000) || bits > 0xff80_0000
}

/// Two single-precision numbers are equal.
pub open spec fn equal_bits(a: u32, b: u32) -> bool {
    !is_nan_bits(a) && !is_nan_bits(b) && (a == b || (is_zero_bits(a) && is_zero_bits(b)))
}

impl BandSpec {
    /// A band of which nothing but the name is known.
    pub open spec fn unread(name: Seq<char>, spec: BandSpec) -> bool {
        &&& spec.name@ == name
        &&& spec.reference_value == 0
        &&& spec.binary_scale == 0
        &&& spec.decimal_scale == 0
        &&& spec.min is None
        &&& spec.max is None
    }

    /// The messages of one band may not differ in their packing.
    pub open spec fn accepts(self, reference: u32, binary: i8, decimal: i8) -> bool {
        &&& is_zero_bits(self.reference_value) || equal_bits(self.reference_value, reference)
        &&& self.binary_scale == 0 || self.binary_scale == binary
        &&& self.decimal_scale == 0 || self.decimal_scale == decimal
    }
}

/// A place on the base grid.
#[derive(Clone, Copy, Debug, PartialEq, Eq, Structural)]
pub struct LowerLeft {
    pub x: i64,
    pub y: i64,
}

/// How a grid lies on the base grid of its product, as far as it takes
/// floating-point arithmetic to say: the cells per degree of an increment that is
/// finer, the origin in microdegrees, the width of a cell where it is whole and
/// the same both ways, and the corner where it does not precede the origin. The
/// grid that is configured for the product stands beside them.
#[derive(Clone, Copy, Debug)]
pub struct GridPlan {
    pub configured: LngLatGrid,
    pub finer_longitude: Option<u32>,
    pub finer_latitude: Option<u32>,
    pub origin_lng: i32,
    pub origin_lat: i32,
    pub width: Option<u32>,
    pub corner: Option<LowerLeft>,
}

impl GridPlan {
    pub open spec fn lower_left(self) -> LowerLeft {
        self.corner->0
    }

    pub open spec fn is_finer(self) -> bool {
        self.finer_longitude is Some || self.finer_latitude is Some
    }

    /// The grid of a product after values were laid on it.
    pub open spec fn grid_over(self, own: Option<LngLatGrid>) -> LngLatGrid {
        refined(own, self.configured, self.finer_longitude, self.finer_latitude)
    }
}

pub open spec fn least(a: i32, b: i32) -> i32 {
    if b < a {
        b
    } else {
        a
    }
}

/// A number is a power of two.
pub open spec fn is_power(width: u32) -> bool {
    exists|p: nat| #[trigger] power_of_two(p) == width
}

/// What stops the corner of a grid from being found, if anything does.
pub open spec fn corner_fault(g: GridDefinition, plan: GridPlan, has_points: bool) -> Option<
    GridFault,
> {
    let refined = refinement_fault(g, plan.is_finer(), has_points);
    if refined is Some {
        refined
    } else if least(g.lo1, g.lo2) < plan.origin_lng || least(g.la1, g.la2) < plan.origin_lat {
        Some(GridFault::ExtentPrecedesOrigin)
    } else {
        match (plan.width, plan.corner) {
            (None, _) => Some(GridFault::UnequalWidths),
            (Some(width), corner) => if !is_power(width) {
                Some(GridFault::NotPowerOfTwo(width))
            } else {
                match corner {
                    None => Some(GridFault::CornerPrecedesOrigin),
                    Some(_) => None,
                }
            },
        }
    }
}

/// The corner of a grid, moved to a cell boundary.
pub open spec fn plan_corner(plan: GridPlan) -> GridCorner {
    snapped(plan.lower_left().x as int, plan.lower_left().y as int, plan.width->0 as int)
}

/// What stops the values of a message from being placed, if anything does.
pub open spec fn plan_fault(g: GridDefinition, plan: GridPlan, has_points: bool) -> Option<
    GridFault,
> {
    match corner_fault(g, plan, has_points) {
        Some(fault) => Some(fault),
        None => extent_fault(
            g,
            plan_corner(plan).x as int,
            plan_corner(plan).y as int,
            plan.width->0 as int,
        ),
    }
}

/// By how much the corner of a grid is moved, where it is found.
pub open spec fn shift_of(g: GridDefinition, plan: GridPlan, has_points: bool) -> Option<
    (u32, u32),
> {
    match corner_fault(g, plan, has_points) {
        Some(_) => None,
        None => plan_corner(plan).snap,
    }
}

/// Where the values go when nothing stops them.
pub open spec fn plan_placement(
    g: GridDefinition,
    plan: GridPlan,
    band: u8,
    power: u8,
) -> Placement {
    let width = plan.width->0;
    let at = plan_corner(plan);
    Placement { grid: g, x_first: at.x, y_first: at.y, width, power, band }
}

fn smaller(a: i32, b: i32) -> (r: i32)
    ensures
        r == least(a, b),
{
    if b < a {
        b
    } else {
        a
    }
}

/// Finds the corner of a grid: the grid that the values are laid on, the power of
/// two of its cells, and where it starts.
fn find_corner(
    template: &GridDefinition,
    plan: &GridPlan,
    own: Option<LngLatGrid>,
    has_points: bool,
) -> (outcome: Result<(LngLatGrid, u8, GridCorner), GridFault>)
    requires
        plan.corner matches Some(c) ==> c.x >= 0 && c.y >= 0,
    ensures
        match outcome {
            Ok((grid, power, corner)) => {
                &&& corner_fault(*template, *plan, has_points) is None
                &&& grid == plan.grid_over(own)
                &&& power_of_two(power as nat) == plan.width->0
                &&& corner == plan_corner(*plan)
            },
            Err(fault) => corner_fault(*template, *plan, has_points) == Some(fault),
        },
{
    let grid: LngLatGrid = match resolve_product_grid(
        template,
        own,
        plan.configured,
        plan.finer_longitude,
        plan.finer_latitude,
        has_points,
    ) {
        Ok(grid) => grid,
        Err(fault) => {
            return Err(fault);
        },
    };
    if smaller(template.lo1, template.lo2) < plan.origin_lng || smaller(template.la1, template.la2)
        < plan.origin_lat {
        return Err(GridFault::ExtentPrecedesOrigin);
    }
    let width: u32 = match plan.width {
        Some(width) => width,
        None => {
            return Err(GridFault::UnequalWidths);
        },
    };
    let power: u8 = match cell_power(width) {
        Ok(power) => power,
        Err(fault) => {
            return Err(fault);
        },
    };
    proof {
        assert(power_of_two(power as nat) == width);
        lemma_power_monotone(0, power as nat);
    }
    let lower_left = match plan.corner {
        Some(corner) => corner,
        None => {
            return Err(GridFault::CornerPrecedesOrigin);
        },
    };
    let corner = grid_corner(lower_left.x, lower_left.y, width);
    Ok((grid, power, corner))
}

/// Says by how much the corner of a grid has to be moved. It is moved before the
/// extent of the grid is looked at.
pub fn corner_shift(
    template: &GridDefinition,
    plan: &GridPlan,
    own: Option<LngLatGrid>,
    has_points: bool,
) -> (shift: Option<(u32, u32)>)
    requires
        plan.corner matches Some(c) ==> c.x >= 0 && c.y >= 0,
    ensures
        shift == shift_of(*template, *plan, has_points),
{
    match find_corner(template, plan, own, has_points) {
        Ok((_, _, corner)) => corner.snap,
        Err(_) => None,
    }
}

/// Checks a plan, and says on which grid the values are laid, where they go and by
/// how much the corner had to be moved.
pub fn plan_grid(
    template: &GridDefinition,
    plan: &GridPlan,
    own: Option<LngLatGrid>,
    has_points: bool,
    band: u8,
) -> (outcome: Result<(LngLatGrid, Placement, Option<(u32, u32)>), GridFault>)
    requires
        plan.corner matches Some(c) ==> c.x >= 0 && c.y >= 0,
    ensures
        match outcome {
            Ok((grid, placement, snap)) => {
                &&& plan_fault(*template, *plan, has_points) is None
                &&& grid == plan.grid_over(own)
                &&& power_of_two(placement.power as nat) == plan.width->0
                &&& placement == plan_placement(*template, *plan, band, placement.power)
                &&& snap == plan_corner(*plan).snap
                &&& placement.fits()
            },
            Err(fault) => plan_fault(*template, *plan, has_points) == Some(fault),
        },
{
    let (grid, power, corner) = match find_corner(template, plan, own, has_points) {
        Ok(found) => found,
        Err(fault) => {
            return Err(fault);
        },
    };
    let width: u32 = match plan.width {
        Some(width) => width,
        None => {
            return Err(GridFault::UnequalWidths);
        },
    };
    match validate_grid_extent(template, corner.x, corner.y, width) {
        Ok(()) => {},
        Err(fault) => {
            return Err(fault);
        },
    }
    let placement = Placement {
        grid: *template,
        x_first: corner.x,
        y_first: corner.y,
        width,
        power,
        band,
    };
    Ok((grid, placement, corner.snap))
}

/// When a field is valid. A period that ends at a date of the calendar is valid then,
/// whatever the offset says, and another one is an error. Without a period the field is
/// so many minutes, hours or days after the reference time; other units are an error.
pub proof fn lemma_valid_time(reference: int, offset: ForecastOffset, period_end: Option<Civil>)
    ensures
        ({
            let outcome = valid_time(reference, offset, period_end);
            let unit = offset.indicator_of_unit_of_time_range;
            &&& period_end matches Some(end) ==> (outcome is Ok <==> is_valid(end))
            &&& period_end matches Some(end) ==> (outcome matches Ok(t) ==> t == seconds_of(end))
            &&& period_end matches Some(end) ==> (outcome matches Err(e) ==> e
                == GribError::PeriodEnd(end))
            &&& period_end is None && unit == 0 ==> outcome == Ok::<int, GribError>(
                reference + 60 * offset.forecast_time,
            )
            &&& period_end is None && unit == 1 ==> outcome == Ok::<int, GribError>(
                reference + 60 * 60 * offset.forecast_time,
            )
            &&& period_end is None && unit == 2 ==> outcome == Ok::<int, GribError>(
                reference + 24 * 60 * 60 * offset.forecast_time,
            )
            &&& period_end is None && unit > 2 ==> outcome == Err::<int, GribError>(
                GribError::TimeUnit(unit),
            )
        }),
{
    let ahead = offset.forecast_time as int;
    let unit = offset.indicator_of_unit_of_time_range;
    if let Some(seconds) = unit_seconds(unit) {
        assert(ahead * seconds == seconds * ahead) by (nonlinear_arith);
    }
}

/// A corner moves west and south to the nearest multiple of the cell width, by less than
/// a cell, and it is told by how much unless it stays.
pub proof fn lemma_snapped(x_first: int, y_last: int, width: int)
    requires
        0 < width <= u32::MAX,
        0 <= x_first <= u32::MAX,
        0 <= y_last <= u32::MAX,
    ensures
        ({
            let corner = snapped(x_first, y_last, width);
            &&& corner.x <= x_first < corner.x + width
            &&& corner.y <= y_last < corner.y + width
            &&& corner.x as int % width == 0
            &&& corner.y as int % width == 0
            &&& corner.snap is None <==> corner.x == x_first && corner.y == y_last
            &&& corner.snap matches Some(shift) ==> shift.0 == x_first - corner.x && shift.1
                == y_last - corner.y
        }),
{
    let dx = x_first % width;
    let dy = y_last % width;
    vstd::arithmetic::div_mod::lemma_fundamental_div_mod(x_first, width);
    vstd::arithmetic::div_mod::lemma_fundamental_div_mod(y_last, width);
    vstd::arithmetic::div_mod::lemma_mod_bound(x_first, width);
    vstd::arithmetic::div_mod::lemma_mod_bound(y_last, width);
    let a = x_first / width;
    let b = y_last / width;
    assert(a >= 0 && b >= 0) by {
        vstd::arithmetic::div_mod::lemma_div_pos_is_pos(x_first, width);
        vstd::arithmetic::div_mod::lemma_div_pos_is_pos(y_last, width);
    }
    assert(width * a >= 0 && width * b >= 0) by (nonlinear_arith)
        requires
            width > 0,
            a >= 0,
            b >= 0,
    ;
    vstd::arithmetic::div_mod::lemma_mod_multiples_basic(a, width);
    vstd::arithmetic::div_mod::lemma_mod_multiples_basic(b, width);
    assert(width * a == a * width) by (nonlinear_arith);
    assert(width * b == b * width) by (nonlinear_arith);
    assert(x_first - dx == a * width);
    assert(y_last - dy == b * width);
}

/// A grid fits if and only if it has points in both directions, is scanned in a supported
/// way, and all its points have coordinates of sixteen bits.
pub proof fn lemma_grid_fits(g: GridDefinition, x_first: int, y_first: int, width: int)
    requires
        0 <= x_first <= u32::MAX,
        0 <= y_first <= u32::MAX,
        0 < width <= u32::MAX,
    ensures
        extent_fault(g, x_first, y_first, width) is None <==> {
            &&& g.n_i > 0
            &&& g.n_j > 0
            &&& g.scanning_mode == 0 || g.scanning_mode == 64
            &&& forall|i: int, j: int|
                0 <= i < g.n_i && 0 <= j < g.n_j ==> {
                    &&& 0 <= x_first + #[trigger] (i * width) <= 65535
                    &&& g.scanning_mode == 0 ==> 0 <= y_first - #[trigger] (j * width) <= 65535
                    &&& g.scanning_mode == 64 ==> 0 <= y_first + #[trigger] (j * width) <= 65535
                }
        },
        g.n_i == 0 <==> extent_fault(g, x_first, y_first, width) == Some(
            GridFault::LongitudeCountZero,
        ),
{
    let last_i = g.n_i - 1;
    let last_j = g.n_j - 1;
    if g.n_i > 0 && g.n_j > 0 {
        assert(0 * width == 0) by (nonlinear_arith);
        assert forall|k: int, m: int|
            0 <= k <= m implies 0 <= #[trigger] (k * width) <= #[trigger] (m * width) by {
            assert(0 <= k * width <= m * width) by (nonlinear_arith)
                requires
                    0 <= k <= m,
                    width > 0,
            ;
        }
        assert(0 <= last_i * width);
        assert(0 <= last_j * width);
        if extent_fault(g, x_first, y_first, width) is None {
            assert forall|i: int, j: int| 0 <= i < g.n_i && 0 <= j < g.n_j implies {
                &&& 0 <= x_first + #[trigger] (i * width) <= 65535
                &&& g.scanning_mode == 0 ==> 0 <= y_first - #[trigger] (j * width) <= 65535
                &&& g.scanning_mode == 64 ==> 0 <= y_first + #[trigger] (j * width) <= 65535
            } by {
                assert(0 <= i * width <= last_i * width);
                assert(0 <= j * width <= last_j * width);
            }
        } else if (g.scanning_mode == 0 || g.scanning_mode == 64) && forall|i: int, j: int|
            0 <= i < g.n_i && 0 <= j < g.n_j ==> {
                &&& 0 <= x_first + #[trigger] (i * width) <= 65535
                &&& g.scanning_mode == 0 ==> 0 <= y_first - #[trigger] (j * width) <= 65535
                &&& g.scanning_mode == 64 ==> 0 <= y_first + #[trigger] (j * width) <= 65535
            } {
            let a = last_i * width;
            let b = last_j * width;
            let c = 0 * width;
            assert(0 <= x_first + last_i * width <= 65535);
            assert(0 <= x_first + 0 * width <= 65535);
            assert(a >= 0 && b >= 0 && c == 0);
        }
    }
}

/// The grid of a product starts where the product's own grid starts, or else the
/// configured one, and has its cells, unless a message brings finer ones.
pub proof fn lemma_refined(
    own: Option<LngLatGrid>,
    configured: LngLatGrid,
    finer_longitude: Option<u32>,
    finer_latitude: Option<u32>,
)
    ensures
        ({
            let grid = refined(own, configured, finer_longitude, finer_latitude);
            &&& own matches Some(base) ==> grid.lng_0 == base.lng_0 && grid.lat_0 == base.lat_0
            &&& own is None ==> grid.lng_0 == configured.lng_0 && grid.lat_0 == configured.lat_0
            &&& finer_longitude matches Some(cells) ==> grid.lng_denom == cells
            &&& finer_latitude matches Some(cells) ==> grid.lat_denom == cells
            &&& finer_longitude is None && own is None ==> grid.lng_denom == configured.lng_denom
            &&& finer_latitude is None && own is None ==> grid.lat_denom == configured.lat_denom
            &&& finer_longitude is None ==> (own matches Some(base) ==> grid.lng_denom
                == base.lng_denom)
            &&& finer_latitude is None ==> (own matches Some(base) ==> grid.lat_denom
                == base.lat_denom)
        }),
{
}

/// The values of a message can be placed if and only if its increments are there, it is
/// not finer than values that were placed before, its corners do not precede the origin
/// of the base grid, its cells are a power of two of base cells wide, and its grid fits
/// behind the moved corner.
pub proof fn lemma_plan(g: GridDefinition, plan: GridPlan, has_points: bool)
    ensures
        plan_fault(g, plan, has_points) is None <==> {
            &&& g.d_i > 0 && g.d_j > 0
            &&& has_points ==> plan.finer_longitude is None && plan.finer_latitude is None
            &&& g.lo1 >= plan.origin_lng && g.lo2 >= plan.origin_lng
            &&& g.la1 >= plan.origin_lat && g.la2 >= plan.origin_lat
            &&& plan.corner is Some
            &&& plan.width is Some
            &&& exists|p: nat| #[trigger] vstd::arithmetic::power2::pow2(p) == plan.width->0
            &&& extent_fault(
                g,
                snapped(
                    plan.corner->0.x as int,
                    plan.corner->0.y as int,
                    plan.width->0 as int,
                ).x as int,
                snapped(
                    plan.corner->0.x as int,
                    plan.corner->0.y as int,
                    plan.width->0 as int,
                ).y as int,
                plan.width->0 as int,
            ) is None
        },
{
    if let Some(width) = plan.width {
        if is_power(width) {
            let p = choose|p: nat| #[trigger] power_of_two(p) == width;
            lemma_power_is_pow2(p);
            assert(vstd::arithmetic::power2::pow2(p) == width);
        }
        if exists|p: nat| #[trigger] vstd::arithmetic::power2::pow2(p) == width {
            let p = choose|p: nat| #[trigger] vstd::arithmetic::power2::pow2(p) == width;
            lemma_power_is_pow2(p);
            assert(power_of_two(p) == width);
        }
    }
}

/// Powers of two are those of the library of arithmetic.
pub proof fn lemma_power_is_pow2(p: nat)
    ensures
        power_of_two(p) == vstd::arithmetic::power2::pow2(p),
    decreases p,
{
    if p == 0 {
        vstd::arithmetic::power2::lemma2_to64();
    } else {
        lemma_power_is_pow2((p - 1) as nat);
        vstd::arithmetic::power2::lemma_pow2_unfold(p);
    }
}

/// Cells take values one after another: each that carries one takes the next.
pub proof fn lemma_rank_counts(bits: Option<Seq<bool>>, k: nat)
    ensures
        rank(bits, 0) == 0,
        bits is None ==> rank(bits, k) == k,
        bits matches Some(flags) ==> (k < flags.len() && flags[k as int] ==> rank(bits, k + 1)
            == rank(bits, k) + 1),
        bits matches Some(flags) ==> (k < flags.len() && !flags[k as int] ==> rank(bits, k + 1)
            == rank(bits, k)),
    decreases k,
{
    if k > 0 {
        lemma_rank_counts(bits, (k - 1) as nat);
    }
}

/// Every cell that carries a value, and every such value that is not missing, becomes a
/// point: in column `i` and row `j` of the grid, counted from its corner in cells, along
/// the rows and down or up as the grid is scanned.
pub proof fn lemma_cell_becomes_point(
    p: Placement,
    bits: Option<Seq<bool>>,
    values: Seq<i32>,
    i: int,
    j: int,
)
    requires
        0 <= i < p.grid.n_i,
        0 <= j < p.grid.n_j,
        p.grid.scanning_mode == 0 || p.grid.scanning_mode == 64,
        bits matches Some(flags) ==> j * p.grid.n_i + i < flags.len() && flags[j * p.grid.n_i + i],
        values[rank(bits, (j * p.grid.n_i + i) as nat) as int] != i32::MIN,
    ensures
        points_of(p, bits, values, (p.grid.n_i * p.grid.n_j) as nat).contains(
            PointValue {
                x: (p.x_first + i * p.width) as u16,
                y: if p.grid.scanning_mode == 0 {
                    (p.y_first - j * p.width) as u16
                } else {
                    (p.y_first + j * p.width) as u16
                },
                point_id: 0,
                point_power: p.power,
                band_idx: p.band,
                value: values[rank(bits, (j * p.grid.n_i + i) as nat) as int],
            },
        ),
{
    let n = p.grid.n_i as int;
    let k = j * n + i;
    assert(0 <= k < n * p.grid.n_j) by (nonlinear_arith)
        requires
            0 <= i < n,
            0 <= j < p.grid.n_j,
            k == j * n + i,
    ;
    vstd::arithmetic::div_mod::lemma_fundamental_div_mod_converse(k, n, j, i);
    let value = values[rank(bits, k as nat) as int];
    lemma_points_grow(p, bits, values, (k + 1) as nat, (n * p.grid.n_j) as nat);
    let some = points_of(p, bits, values, (k + 1) as nat);
    assert(some.last() == p.point(k, value));
    let all = points_of(p, bits, values, (n * p.grid.n_j) as nat);
    assert(all[some.len() - 1] == some.last());
}

/// The points of more cells start with those of fewer.
proof fn lemma_points_grow(
    p: Placement,
    bits: Option<Seq<bool>>,
    values: Seq<i32>,
    k: nat,
    m: nat,
)
    requires
        k <= m,
    ensures
        points_of(p, bits, values, k).len() <= points_of(p, bits, values, m).len(),
        points_of(p, bits, values, m).take(points_of(p, bits, values, k).len() as int) == points_of(
            p,
            bits,
            values,
            k,
        ),
    decreases m,
{
    let some = points_of(p, bits, values, k);
    let all = points_of(p, bits, values, m);
    if k == m {
        assert(all.take(some.len() as int) =~= some);
    } else {
        lemma_points_grow(p, bits, values, k, (m - 1) as nat);
        let most = points_of(p, bits, values, (m - 1) as nat);
        assert(all.take(some.len() as int) =~= most.take(some.len() as int));
    }
}

/// Every point comes from a cell that carries its value, and there are no more points
/// than such cells.
pub proof fn lemma_points_from_cells(
    p: Placement,
    bits: Option<Seq<bool>>,
    values: Seq<i32>,
    k: nat,
)
    ensures
        points_of(p, bits, values, k).len() <= rank(bits, k),
        forall|m: int|
            0 <= m < points_of(p, bits, values, k).len() ==> exists|c: int|
                0 <= c < k && is_present(bits, c) && values[rank(bits, c as nat) as int]
                    == #[trigger] points_of(p, bits, values, k)[m].value && points_of(
                    p,
                    bits,
                    values,
                    k,
                )[m] == #[trigger] p.point(c, values[rank(bits, c as nat) as int]) && values[rank(
                    bits,
                    c as nat,
                ) as int] != i32::MIN,
    decreases k,
{
    if k > 0 {
        lemma_points_from_cells(p, bits, values, (k - 1) as nat);
        let before = points_of(p, bits, values, (k - 1) as nat);
        let all = points_of(p, bits, values, k);
        assert forall|m: int| 0 <= m < all.len() implies exists|c: int|
            0 <= c < k && is_present(bits, c) && values[rank(bits, c as nat) as int]
                == #[trigger] all[m].value && all[m] == #[trigger] p.point(
                c,
                values[rank(bits, c as nat) as int],
            ) && values[rank(bits, c as nat) as int] != i32::MIN by {
            if m < before.len() {
                assert(all[m] == before[m]);
                let c = choose|c: int|
                    0 <= c < k - 1 && is_present(bits, c) && values[rank(bits, c as nat) as int]
                        == #[trigger] before[m].value && before[m] == #[trigger] p.point(
                        c,
                        values[rank(bits, c as nat) as int],
                    ) && values[rank(bits, c as nat) as int] != i32::MIN;
                assert(all[m] == p.point(c, values[rank(bits, c as nat) as int]));
            } else {
                assert(all[m] == p.point(k - 1, values[rank(bits, (k - 1) as nat) as int]));
            }
        }
    }
}

/// The greatest value is a value or was known before, and no value lies above it.
pub proof fn lemma_highest(known: Option<i32>, values: Seq<i32>)
    ensures
        match highest(known, values) {
            Some(most) => {
                &&& known == Some(most) || (most != i32::MIN && values.contains(most))
                &&& known matches Some(k) ==> most >= k
                &&& forall|i: int|
                    0 <= i < values.len() && #[trigger] values[i] != i32::MIN ==> most >= values[i]
            },
            None => known is None && forall|i: int|
                0 <= i < values.len() ==> #[trigger] values[i] == i32::MIN,
        },
    decreases values.len(),
{
    if values.len() > 0 {
        let rest = values.drop_last();
        lemma_highest(known, rest);
        assert(values[values.len() - 1] == values.last());
        if let Some(most) = highest(known, rest) {
            if rest.contains(most) {
                let i = choose|i: int| 0 <= i < rest.len() && rest[i] == most;
                assert(values[i] == most);
            }
        }
        assert forall|i: int| 0 <= i < rest.len() implies #[trigger] values[i] == rest[i] by {
        }
    }
}

/// Placing stops at the first cell that the bitmap or the values do not reach.
pub proof fn lemma_runs_out(bits: Option<Seq<bool>>, values: Seq<i32>, k: int)
    requires
        k >= 0,
    ensures
        bits is None ==> (runs_out(bits, values, k) is None <==> k < values.len()),
        bits is None ==> (k >= values.len() ==> runs_out(bits, values, k) == Some(
            GribError::FewerValuesThanGrid,
        )),
        bits matches Some(flags) ==> (runs_out(bits, values, k) == Some(GribError::BitmapTooShort)
            <==> k >= flags.len()),
        bits matches Some(flags) ==> (runs_out(bits, values, k) == Some(
            GribError::FewerValuesThanBitmap,
        ) <==> k < flags.len() && flags[k] && rank(bits, k as nat) >= values.len()),
{
    lemma_rank_counts(bits, k as nat);
}

/// Placing adds points and touches none that were there. It succeeds if and only if every
/// cell of the grid can be filled, and then adds the points of them all; otherwise it adds
/// those of the cells before the first that cannot, and reports what that one lacks.
pub proof fn lemma_placed(
    p: Placement,
    bits: Option<Seq<bool>>,
    values: Seq<i32>,
    before: Seq<PointValue>,
    after: Seq<PointValue>,
    fault: Option<GribError>,
)
    requires
        placed(p, bits, values, before, after, fault),
    ensures
        before.len() <= after.len(),
        after.take(before.len() as int) == before,
        fault is None <==> forall|k: int|
            0 <= k < p.grid.n_i * p.grid.n_j ==> #[trigger] runs_out(bits, values, k) is None,
        fault is None ==> after.skip(before.len() as int) == points_of(
            p,
            bits,
            values,
            (p.grid.n_i * p.grid.n_j) as nat,
        ),
        fault is Some ==> exists|k: int|
            0 <= k < p.grid.n_i * p.grid.n_j && #[trigger] runs_out(bits, values, k) == fault
                && after.skip(before.len() as int) == points_of(p, bits, values, k as nat) && forall|
                i: int,
            |
                0 <= i < k ==> #[trigger] runs_out(bits, values, i) is None,
{
    assert(after.take(before.len() as int) =~= before);
    if let Some(error) = fault {
        let k = choose|k: int| #[trigger] stopped_at(p, bits, values, before, after, error, k);
        assert(runs_out(bits, values, k) == fault);
        assert(after.skip(before.len() as int) =~= points_of(p, bits, values, k as nat));
    } else {
        assert(after.skip(before.len() as int) =~= points_of(
            p,
            bits,
            values,
            (p.grid.n_i * p.grid.n_j) as nat,
        ));
    }
}

/// A message is at fault itself where it lacks its time range, ends its period at no time
/// that exists, or carries fewer bits or values than it says; what is merely not supported
/// is no such fault.
pub proof fn lemma_invalid(error: GribError)
    ensures
        match error {
            GribError::NoTimeRange => error.invalid(),
            GribError::PeriodEnd(_) => error.invalid(),
            GribError::BitmapTooShort => error.invalid(),
            GribError::FewerValuesThanBitmap => error.invalid(),
            GribError::FewerValuesThanGrid => error.invalid(),
            GribError::Grid(_) => !error.invalid(),
            GribError::TimeUnit(_) => !error.invalid(),
            GribError::GridTemplate(_) => !error.invalid(),
            GribError::ResolutionFlags(_) => !error.invalid(),
            GribError::ScanningMode(_) => !error.invalid(),
        },
{
}

} // verus!
