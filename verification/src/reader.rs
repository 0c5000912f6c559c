//! The reader of GRIB2 messages: what it knows after each section.

use vstd::prelude::*;

use vstd::string::StringExecFns;

use bit_vec::BitVec;

use crate::bitmap::{bits_of, msb_first, read_bitmap};
use crate::calendar::{in_calendar, instant, is_valid, seconds_of, Civil};
use crate::grib::{
    corner_shift, fault_of, first_statistical_process, highest, is_present, lemma_highest, lemma_lowest,
    lemma_points_from_cells, lowest, place_points, placed, plan_corner, plan_fault, plan_grid,
    plan_placement, points_of, power_of_two, rank, shift_of, valid_datetime, valid_time, ForecastOffset,
    GribError, GridDefinition, GridPlan, Placement, TimeInterval,
};
use crate::model::{
    BandSpec, FixedSurface, GeneratingProcessType, GpvProductIdentifier, LngLatGrid, ProductData,
    RawProduct,
};
use crate::text::{decimal, decimal_text};

verus! {

/// Which template a product definition is written in.
#[derive(Clone, Copy, Debug, PartialEq, Eq, Structural)]
pub enum ProductTemplate {
    Instant,
    InstantLocal,
    Ensemble,
    EnsembleStatistical,
    Statistical,
    StatisticalLocal,
    TyphoonStorm,
}

/// The template that a number stands for, where it is one that can be read.
pub open spec fn template_of(number: u16) -> Option<ProductTemplate> {
    if number == 0 {
        Some(ProductTemplate::Instant)
    } else if number == 50000 {
        Some(ProductTemplate::InstantLocal)
    } else if number == 1 {
        Some(ProductTemplate::Ensemble)
    } else if number == 11 {
        Some(ProductTemplate::EnsembleStatistical)
    } else if number == 8 || number == 50008 || number == 50009 || number == 50012 {
        Some(ProductTemplate::Statistical)
    } else if number == 50011 {
        Some(ProductTemplate::StatisticalLocal)
    } else if number == 50031 {
        Some(ProductTemplate::TyphoonStorm)
    } else {
        None
    }
}

pub fn product_template(number: u16) -> (template: Option<ProductTemplate>)
    ensures
        template == template_of(number),
{
    if number == 0 {
        Some(ProductTemplate::Instant)
    } else if number == 50000 {
        Some(ProductTemplate::InstantLocal)
    } else if number == 1 {
        Some(ProductTemplate::Ensemble)
    } else if number == 11 {
        Some(ProductTemplate::EnsembleStatistical)
    } else if number == 8 || number == 50008 || number == 50009 || number == 50012 {
        Some(ProductTemplate::Statistical)
    } else if number == 50011 {
        Some(ProductTemplate::StatisticalLocal)
    } else if number == 50031 {
        Some(ProductTemplate::TyphoonStorm)
    } else {
        None
    }
}

impl ProductTemplate {
    /// The field covers a period, and the template says how.
    pub open spec fn has_period(self) -> bool {
        self is EnsembleStatistical || self is Statistical || self is StatisticalLocal
    }

    /// The field is a member of an ensemble, and the template says which.
    pub open spec fn has_member(self) -> bool {
        self is Ensemble || self is EnsembleStatistical
    }

    pub fn is_statistical(&self) -> (r: bool)
        ensures
            r == self.has_period(),
    {
        match self {
            ProductTemplate::EnsembleStatistical => true,
            ProductTemplate::Statistical => true,
            ProductTemplate::StatisticalLocal => true,
            _ => false,
        }
    }

    pub fn is_ensemble(&self) -> (r: bool)
        ensures
            r == self.has_member(),
    {
        match self {
            ProductTemplate::Ensemble => true,
            ProductTemplate::EnsembleStatistical => true,
            _ => false,
        }
    }
}

/// The variant of a typhoon product: the number of the cyclone.
pub fn typhoon_variant(number: u64) -> (text: String)
    ensures
        text@ == seq!['T', 'C'] + decimal(number as nat),
{
    let mut text = String::new();
    text.append("TC");
    text.append(decimal_text(number).as_str());
    proof {
        reveal_strlit("TC");
        assert("TC"@ =~= seq!['T', 'C']);
        assert(Seq::<char>::empty() + seq!['T', 'C'] =~= seq!['T', 'C']);
    }
    text
}

/// The product of a typhoon, and its band. The template says nothing of a process, a
/// surface or an ensemble, so these are fixed, and cyclones are told apart by their
/// numbers. The times and the element stay.
pub fn typhoon_product(id: GpvProductIdentifier, number: u64) -> (r: (GpvProductIdentifier, u8))
    ensures
        r.1 == 0,
        r.0.generating_process == GeneratingProcessType::Forecast,
        r.0.surface == FixedSurface::Unspecified,
        r.0.ensemble is None,
        r.0.variant matches Some(t) && t@ == seq!['T', 'C'] + decimal(number as nat),
        r.0 == (GpvProductIdentifier {
            generating_process: r.0.generating_process,
            surface: r.0.surface,
            ensemble: r.0.ensemble,
            variant: r.0.variant,
            ..id
        }),
{
    let variant = typhoon_variant(number);
    let product = GpvProductIdentifier {
        generating_process: GeneratingProcessType::Forecast,
        surface: FixedSurface::Unspecified,
        ensemble: None,
        variant: Some(variant),
        ..id
    };
    (product, 0)
}

/// When a product is valid and, where it covers a period, by which statistical
/// operation.
pub fn product_time(
    reference_datetime: i64,
    offset: &ForecastOffset,
    interval: Option<&TimeInterval>,
) -> (outcome: Result<(i64, Option<u8>), GribError>)
    requires
        in_calendar(reference_datetime as int),
        valid_time(reference_datetime as int, *offset, period_end(interval)) matches Ok(t)
            ==> in_calendar(t),
    ensures
        match interval {
            Some(i) if i.time_ranges@.len() == 0 => outcome == Err::<(i64, Option<u8>), GribError>(
                GribError::NoTimeRange,
            ),
            _ => match (
                outcome,
                valid_time(reference_datetime as int, *offset, period_end(interval)),
            ) {
                (Ok((t, process)), Ok(expected)) => {
                    &&& t == expected
                    &&& process == match interval {
                        Some(i) => Some(i.time_ranges@[0].statistical_process),
                        None => None,
                    }
                },
                (Err(e), Err(expected)) => e == expected,
                _ => false,
            },
        },
{
    let process: Option<u8> = match interval {
        Some(interval) => match first_statistical_process(interval) {
            Ok(process) => Some(process),
            Err(error) => {
                return Err(error);
            },
        },
        None => None,
    };
    match valid_datetime(reference_datetime, offset, interval) {
        Ok(datetime) => Ok((datetime, process)),
        Err(error) => Err(error),
    }
}

/// The end of a period, where there is one.
pub open spec fn period_end(interval: Option<&TimeInterval>) -> Option<Civil> {
    match interval {
        Some(i) => Some(i.end),
        None => None,
    }
}

/// The latest reference time that is recorded for a kind of product.
pub open spec fn latest(times: Seq<(String, i64)>, kind: Seq<char>) -> Option<i64>
    decreases times.len(),
{
    if times.len() == 0 {
        None
    } else if times[0].0@ == kind {
        Some(times[0].1)
    } else {
        latest(times.skip(1), kind)
    }
}

proof fn lemma_latest(times: Seq<(String, i64)>, kind: Seq<char>, n: int)
    requires
        0 <= n <= times.len(),
        forall|k: int| 0 <= k < n ==> (#[trigger] times[k]).0@ != kind,
    ensures
        latest(times, kind) == latest(times.skip(n), kind),
    decreases n,
{
    if n > 0 {
        let rest = times.skip(1);
        assert(times[0].0@ != kind);
        assert forall|k: int| 0 <= k < n - 1 implies (#[trigger] rest[k]).0@ != kind by {
            assert(rest[k] == times[k + 1]);
        }
        lemma_latest(rest, kind, n - 1);
        assert(rest.skip(n - 1) =~= times.skip(n));
    } else {
        assert(times.skip(0) =~= times);
    }
}

/// What is recorded of other kinds does not change when an entry does.
#[verifier::spinoff_prover]
proof fn lemma_latest_changed(
    before: Seq<(String, i64)>,
    after: Seq<(String, i64)>,
    n: int,
    kind: Seq<char>,
    other: Seq<char>,
)
    requires
        0 <= n < after.len(),
        after[n].0@ == kind,
        kind != other,
        (before.len() == after.len() && before == after.update(n, before[n]) && before[n].0@ == kind)
            || (n == before.len() && after == before.push(after[n])),
    ensures
        latest(after, other) == latest(before, other),
    decreases after.len(),
{
    let a = after.skip(1);
    assert(after[0].0@ != other ==> latest(after, other) == latest(a, other));
    assert(after[0].0@ == other ==> latest(after, other) == Some(after[0].1));
    if before.len() == 0 {
        assert(n == 0);
        assert(a.len() == 0);
        assert(latest(a, other) is None);
        assert(latest(before, other) is None);
    } else {
        let b = before.skip(1);
        assert(before[0].0@ != other ==> latest(before, other) == latest(b, other));
        assert(before[0].0@ == other ==> latest(before, other) == Some(before[0].1));
        if n > 0 {
            assert(before[0] == after[0]);
            assert(a[n - 1] == after[n]);
            if before.len() == after.len() {
                assert(b[n - 1] == before[n]);
                assert(b =~= a.update(n - 1, b[n - 1]));
            } else {
                assert(a =~= b.push(a[n - 1]));
            }
            lemma_latest_changed(b, a, n - 1, kind, other);
        } else {
            assert(before.len() == after.len());
            assert(b =~= a);
        }
    }
}

/// What has been read so far, and where the reader is in the message at hand.
#[derive(Debug)]
pub struct GridSquareMessageReader {
    pub identification: Option<Civil>,
    pub current_grid: Option<GridDefinition>,
    pub current_product: Option<usize>,
    pub current_band: u8,
    pub current_bitmap: Option<BitVec>,
    pub retained_product: Option<String>,
    pub products: Vec<RawProduct>,
    /// The latest reference time of each kind of product.
    pub latest_reference_times: Vec<(String, i64)>,
}

impl GridSquareMessageReader {
    /// No product is listed twice, the one at hand is listed, and each that has
    /// values has the grid that they lie on.
    pub open spec fn wf(&self) -> bool {
        &&& forall|i: int, j: int|
            #![trigger self.products@[i], self.products@[j]]
            0 <= i < j < self.products@.len() ==> !self.products@[i].product_id.same(&self.products@[j].product_id)
        &&& self.current_product matches Some(i) ==> i < self.products@.len()
        &&& forall|i: int|
            0 <= i < self.products@.len() && (#[trigger] self.products@[i]).data.points@.len() > 0
                ==> self.products@[i].data.grid is Some
    }

    /// A reader that keeps the values of one product, or of all.
    pub fn retaining_product(retained_product: Option<&str>) -> (reader: Self)
        ensures
            reader.wf(),
            reader.products@.len() == 0,
            reader.latest_reference_times@.len() == 0,
            reader.current_product is None,
            reader.current_grid is None,
            reader.current_bitmap is None,
            reader.identification is None,
            match (reader.retained_product, retained_product) {
                (Some(kept), Some(asked)) => kept@ == asked@,
                (None, None) => true,
                _ => false,
            },
    {
        let retained: Option<String> = match retained_product {
            Some(text) => Some(String::from_str(text)),
            None => None,
        };
        GridSquareMessageReader {
            identification: None,
            current_grid: None,
            current_product: None,
            current_band: 0,
            current_bitmap: None,
            retained_product: retained,
            products: Vec::new(),
            latest_reference_times: Vec::new(),
        }
    }

    /// The values of a product are kept: either nothing in particular was asked
    /// for, or exactly this product was.
    pub open spec fn retains(&self, product_id: &GpvProductIdentifier) -> bool {
        match self.retained_product {
            Some(requested) => requested@ == product_id.selector(),
            None => true,
        }
    }

    pub fn retains_values_for(&self, product_id: &GpvProductIdentifier) -> (retained: bool)
        ensures
            retained == self.retains(product_id),
    {
        match &self.retained_product {
            Some(requested) => {
                let selector = product_id.product_selector();
                *requested == selector
            },
            None => true,
        }
    }

    /// Takes the date and time of a message over.
    pub fn handle_identification(&mut self, production_status: u8, reference: Civil)
        requires
            production_status == 0,
        ensures
            *final(self) == (GridSquareMessageReader {
                identification: Some(reference),
                ..*old(self)
            }),
    {
        self.identification = Some(reference);
    }

    /// The reference time of the message at hand.
    pub fn reference_datetime(&self) -> (seconds: i64)
        requires
            self.identification matches Some(c) && is_valid(c),
        ensures
            seconds == seconds_of(self.identification->0),
    {
        match self.identification {
            Some(reference) => match instant(reference) {
                Some(seconds) => seconds,
                None => 0,
            },
            None => 0,
        }
    }

    /// Only regular grids of latitude and longitude can be read.
    pub fn check_grid_template(number: u16) -> (outcome: Result<(), GribError>)
        ensures
            outcome == if number == 0 {
                Ok::<(), GribError>(())
            } else {
                Err::<(), GribError>(GribError::GridTemplate(number))
            },
    {
        if number != 0 {
            return Err(GribError::GridTemplate(number));
        }
        Ok(())
    }

    /// Takes a grid over, if its points are laid out in a supported way.
    pub fn handle_grid_definition(&mut self, template: GridDefinition) -> (outcome: Result<
        (),
        GribError,
    >)
        ensures
            outcome == if template.resolution_and_component_flags != 0x30 {
                Err::<(), GribError>(
                    GribError::ResolutionFlags(template.resolution_and_component_flags),
                )
            } else if template.scanning_mode != 0 && template.scanning_mode != 64 {
                Err::<(), GribError>(GribError::ScanningMode(template.scanning_mode))
            } else {
                Ok::<(), GribError>(())
            },
            outcome is Ok ==> *final(self) == (GridSquareMessageReader {
                current_grid: Some(template),
                ..*old(self)
            }),
            outcome is Err ==> *final(self) == *old(self),
    {
        if template.resolution_and_component_flags != 0x30 {
            return Err(GribError::ResolutionFlags(template.resolution_and_component_flags));
        }
        if template.scanning_mode != 0 && template.scanning_mode != 64 {
            return Err(GribError::ScanningMode(template.scanning_mode));
        }
        self.current_grid = Some(template);
        Ok(())
    }

    fn find_product(&self, product_id: &GpvProductIdentifier) -> (place: Option<usize>)
        ensures
            match place {
                Some(i) => i < self.products@.len() && self.products@[i as int].product_id.same(product_id),
                None => forall|i: int|
                    0 <= i < self.products@.len() ==> !(#[trigger] self.products@[i]).product_id.same(
                        product_id,
                    ),
            },
    {
        let mut i: usize = 0;
        while i < self.products.len()
            invariant
                i <= self.products@.len(),
                forall|k: int|
                    0 <= k < i ==> !(#[trigger] self.products@[k]).product_id.same(product_id),
            decreases self.products@.len() - i,
        {
            if self.products[i].product_id.is_same(product_id) {
                return Some(i);
            }
            i = i + 1;
        }
        None
    }

    /// Makes a product the one at hand, listing it without values where it is
    /// new, and records its reference time if it is the latest of its kind.
    pub fn handle_product_definition(&mut self, product_id: GpvProductIdentifier, band: u8)
        requires
            old(self).wf(),
        ensures
            final(self).wf(),
            final(self).current_band == band,
            final(self).identification == old(self).identification,
            final(self).current_grid == old(self).current_grid,
            final(self).current_bitmap == old(self).current_bitmap,
            final(self).retained_product == old(self).retained_product,
            final(self).current_product matches Some(i) && {
                &&& i < final(self).products@.len()
                &&& final(self).products@[i as int].product_id.same(&product_id)
                &&& if i < old(self).products@.len() {
                    final(self).products@ == old(self).products@
                } else {
                    &&& i == old(self).products@.len()
                    &&& final(self).products@ == old(self).products@.push(
                        final(self).products@[i as int],
                    )
                    &&& final(self).products@[i as int].product_id == product_id
                    &&& unread(product_id, final(self).products@[i as int].data)
                }
            },
            forall|kind: Seq<char>| #[trigger]
                latest(final(self).latest_reference_times@, kind) == if kind
                    == product_id.kind_path@ {
                    match latest(old(self).latest_reference_times@, kind) {
                        Some(t) if t >= product_id.reference_datetime => Some(t),
                        _ => Some(product_id.reference_datetime),
                    }
                } else {
                    latest(old(self).latest_reference_times@, kind)
                },
    {
        let ghost times = self.latest_reference_times@;
        self.record_reference_time(&product_id.kind_path, product_id.reference_datetime);
        self.current_band = band;
        match self.find_product(&product_id) {
            Some(i) => {
                self.current_product = Some(i);
            },
            None => {
                let data = unread_data(&product_id);
                let count: usize = self.products.len();
                let ghost before = self.products@;
                self.products.push(RawProduct { product_id, data });
                self.current_product = Some(count);
                proof {
                    let after = self.products@;
                    assert forall|i: int, j: int|
                        #![trigger after[i], after[j]]
                        0 <= i < j < after.len() implies !after[i].product_id.same(&after[j].product_id) by {
                        assert(after[i] == before[i]);
                        if j < before.len() {
                            assert(after[j] == before[j]);
                        } else {
                            assert(!before[i].product_id.same(&product_id));
                        }
                    }
                }
            },
        }
    }

    fn record_reference_time(&mut self, kind: &String, reference: i64)
        ensures
            *final(self) == (GridSquareMessageReader {
                latest_reference_times: final(self).latest_reference_times,
                ..*old(self)
            }),
            forall|k: Seq<char>| #[trigger]
                latest(final(self).latest_reference_times@, k) == if k == kind@ {
                    match latest(old(self).latest_reference_times@, k) {
                        Some(t) if t >= reference => Some(t),
                        _ => Some(reference),
                    }
                } else {
                    latest(old(self).latest_reference_times@, k)
                },
    {
        let ghost times = self.latest_reference_times@;
        let mut i: usize = 0;
        while i < self.latest_reference_times.len()
            invariant
                i <= self.latest_reference_times@.len(),
                *self == *old(self),
                times == self.latest_reference_times@,
                forall|k: int| 0 <= k < i ==> (#[trigger] times[k]).0@ != kind@,
            decreases self.latest_reference_times@.len() - i,
        {
            if self.latest_reference_times[i].0 == *kind {
                proof {
                    lemma_latest(times, kind@, i as int);
                    assert(times.skip(i as int)[0] == times[i as int]);
                }
                if reference > self.latest_reference_times[i].1 {
                    let name = kind.clone();
                    self.latest_reference_times.set(i, (name, reference));
                    proof {
                        let after = self.latest_reference_times@;
                        assert forall|k: int| 0 <= k < i implies (#[trigger] after[k]).0@
                            != kind@ by {
                            assert(after[k] == times[k]);
                        }
                        lemma_latest(after, kind@, i as int);
                        assert(after.skip(i as int)[0] == after[i as int]);
                        assert forall|k: Seq<char>| k != kind@ implies #[trigger] latest(after, k)
                            == latest(times, k) by {
                            assert(times =~= after.update(i as int, times[i as int]));
                            lemma_latest_changed(times, after, i as int, kind@, k);
                        }
                    }
                }
                return ;
            }
            i = i + 1;
        }
        let name = kind.clone();
        self.latest_reference_times.push((name, reference));
        proof {
            let after = self.latest_reference_times@;
            let n = times.len() as int;
            lemma_latest(times, kind@, n);
            assert(times.skip(n) =~= Seq::empty());
            assert forall|k: int| 0 <= k < n implies (#[trigger] after[k]).0@ != kind@ by {
                assert(after[k] == times[k]);
            }
            lemma_latest(after, kind@, n);
            assert(after.skip(n)[0] == after[n]);
            assert forall|k: Seq<char>| k != kind@ implies #[trigger] latest(after, k) == latest(
                times,
                k,
            ) by {
                lemma_latest_changed(times, after, n, kind@, k);
            }
        }
    }
}

/// How the values of a message are packed: its template's reference value, as
/// the bits of a single-precision number, and its scale factors.
#[derive(Clone, Copy, Debug, PartialEq, Eq, Structural)]
pub enum Packing {
    /// Scaled around a reference value, simply or with differences.
    Scaled { reference_value: u32, binary_scale_factor: i16, decimal_scale_factor: i16 },
    /// Run lengths of levels.
    RunLength { decimal_scale_factor: i8 },
}

impl Packing {
    pub open spec fn reference(self) -> u32 {
        match self {
            Packing::Scaled { reference_value, .. } => reference_value,
            Packing::RunLength { .. } => 0,
        }
    }

    pub open spec fn binary(self) -> i8 {
        match self {
            Packing::Scaled { binary_scale_factor, .. } => binary_scale_factor as i8,
            Packing::RunLength { .. } => 0,
        }
    }

    pub open spec fn decimal(self) -> i8 {
        match self {
            Packing::Scaled { decimal_scale_factor, .. } => decimal_scale_factor as i8,
            Packing::RunLength { decimal_scale_factor } => decimal_scale_factor,
        }
    }

    /// The messages of one band may not differ in their packing.
    pub open spec fn agrees(self, band: BandSpec) -> bool {
        match self {
            Packing::Scaled { .. } => band.accepts(self.reference(), self.binary(), self.decimal()),
            Packing::RunLength { .. } => band.decimal_scale == 0 || band.decimal_scale
                == self.decimal(),
        }
    }
}

/// The band with the packing taken over.
pub open spec fn packed(band: BandSpec, packing: Packing) -> BandSpec {
    BandSpec {
        reference_value: packing.reference(),
        binary_scale: packing.binary(),
        decimal_scale: packing.decimal(),
        ..band
    }
}

/// A packing with a reference value and two scale factors goes to the band member by
/// member, the factors in eight bits. Run lengths have no reference value and no binary
/// scale. The rest of the band stays.
pub proof fn lemma_packing_taken(band: BandSpec, packing: Packing)
    ensures
        packed(band, packing).name == band.name,
        packed(band, packing).min == band.min,
        packed(band, packing).max == band.max,
        packing matches Packing::Scaled {
            reference_value,
            binary_scale_factor,
            decimal_scale_factor,
        } ==> {
            &&& packed(band, packing).reference_value == reference_value
            &&& packed(band, packing).binary_scale == binary_scale_factor as i8
            &&& packed(band, packing).decimal_scale == decimal_scale_factor as i8
        },
        packing matches Packing::RunLength { decimal_scale_factor } ==> {
            &&& packed(band, packing).reference_value == 0
            &&& packed(band, packing).binary_scale == 0
            &&& packed(band, packing).decimal_scale == decimal_scale_factor
        },
{
}

/// The band with its extremes widened to hold the values.
pub open spec fn widened(band: BandSpec, values: Seq<i32>) -> BandSpec {
    BandSpec { min: lowest(band.min, values), max: highest(band.max, values), ..band }
}

/// Only one entry of a list differs.
pub open spec fn only_changed<T>(before: Seq<T>, after: Seq<T>, n: int) -> bool {
    &&& before.len() == after.len()
    &&& forall|i: int| 0 <= i < before.len() && i != n ==> #[trigger] after[i] == before[i]
}

impl GridSquareMessageReader {
    /// A product and one of its bands are at hand.
    pub open spec fn at_band(&self) -> bool {
        self.current_product matches Some(i) && {
            &&& i < self.products@.len()
            &&& self.current_band < self.products@[i as int].data.band_specs@.len()
        }
    }

    pub open spec fn entry(&self) -> RawProduct {
        self.products@[self.current_product->0 as int]
    }

    /// Nothing but the product at hand has changed.
    pub open spec fn same_but_entry(&self, before: &Self) -> bool {
        &&& *self == (GridSquareMessageReader { products: self.products, ..*before })
        &&& only_changed(before.products@, self.products@, before.current_product->0 as int)
        &&& self.entry().product_id == before.entry().product_id
    }

    /// Takes the packing of a band over.
    pub fn handle_data_representation(&mut self, packing: Packing)
        requires
            old(self).wf(),
            old(self).at_band(),
            packing.agrees(old(self).entry().data.band_specs@[old(self).current_band as int]),
        ensures
            final(self).wf(),
            final(self).same_but_entry(old(self)),
            final(self).entry().data.points == old(self).entry().data.points,
            final(self).entry().data.grid == old(self).entry().data.grid,
            final(self).entry().data.band_specs@ == old(self).entry().data.band_specs@.update(
                old(self).current_band as int,
                packed(
                    old(self).entry().data.band_specs@[old(self).current_band as int],
                    packing,
                ),
            ),
            ({
                let band = final(self).entry().data.band_specs@[old(self).current_band as int];
                let before = old(self).entry().data.band_specs@[old(self).current_band as int];
                &&& band.name == before.name
                &&& band.min == before.min
                &&& band.max == before.max
                &&& match packing {
                    Packing::Scaled {
                        reference_value,
                        binary_scale_factor,
                        decimal_scale_factor,
                    } => {
                        &&& band.reference_value == reference_value
                        &&& band.binary_scale == binary_scale_factor as i8
                        &&& band.decimal_scale == decimal_scale_factor as i8
                    },
                    Packing::RunLength { decimal_scale_factor } => {
                        &&& band.reference_value == 0
                        &&& band.binary_scale == 0
                        &&& band.decimal_scale == decimal_scale_factor
                    },
                }
            }),
    {
        let band: usize = self.current_band as usize;
        let ghost before = *self;
        if let Some(i) = self.current_product {
            match packing {
                Packing::Scaled { reference_value, binary_scale_factor, decimal_scale_factor } => {
                    self.products[i].data.band_specs[band].reference_value = reference_value;
                    self.products[i].data.band_specs[band].binary_scale =
                    binary_scale_factor as i8;
                    self.products[i].data.band_specs[band].decimal_scale =
                    decimal_scale_factor as i8;
                },
                Packing::RunLength { decimal_scale_factor } => {
                    self.products[i].data.band_specs[band].reference_value = 0;
                    self.products[i].data.band_specs[band].binary_scale = 0;
                    self.products[i].data.band_specs[band].decimal_scale = decimal_scale_factor;
                },
            }
        }
        proof {
            self.lemma_still_wf(&before);
            assert(self.entry().data.band_specs@ =~= before.entry().data.band_specs@.update(
                band as int,
                packed(before.entry().data.band_specs@[band as int], packing),
            ));
        }
    }

    proof fn lemma_still_wf(&self, before: &Self)
        requires
            before.wf(),
            before.at_band(),
            self.same_but_entry(before),
            self.entry().data.points@.len() > 0 ==> self.entry().data.grid is Some,
        ensures
            self.wf(),
    {
        let a = self.products@;
        let b = before.products@;
        assert forall|i: int| 0 <= i < b.len() implies (#[trigger] a[i]).product_id == b[i].product_id by {
            if i != before.current_product->0 {
                assert(a[i] == b[i]);
            }
        }
        assert forall|i: int, j: int| #![trigger a[i], a[j]] 0 <= i < j < a.len() implies !a[i].product_id.same(
            &a[j].product_id,
        ) by {
            assert(!b[i].product_id.same(&b[j].product_id));
        }
    }

    /// How many bits of a bitmap follow, where one follows: one for each point of
    /// the grid.
    pub fn bitmap_points(&self, indicator: u8) -> (count: Option<usize>)
        requires
            indicator == 0 || indicator == 254 || indicator == 255,
            indicator == 0 ==> self.current_grid is Some,
            indicator == 0 ==> self.current_grid->0.n_i * self.current_grid->0.n_j <= usize::MAX,
        ensures
            match count {
                Some(n) => indicator == 0 && n == self.current_grid->0.n_i
                    * self.current_grid->0.n_j,
                None => indicator != 0,
            },
    {
        if indicator != 0 {
            return None;
        }
        match &self.current_grid {
            Some(grid) => Some(grid.n_i as usize * grid.n_j as usize),
            None => None,
        }
    }

    /// Takes a bitmap over: one that follows, the one from before, or none.
    pub fn handle_bitmap(&mut self, indicator: u8, bytes: &Vec<u8>)
        requires
            indicator == 0 || indicator == 254 || indicator == 255,
            indicator == 0 ==> {
                let points = old(self).current_grid->0.n_i * old(self).current_grid->0.n_j;
                &&& old(self).current_grid is Some
                &&& points <= bytes@.len() * 8 < points + 8
                &&& bytes@.len() * 8 <= usize::MAX
            },
        ensures
            *final(self) == (GridSquareMessageReader {
                current_bitmap: final(self).current_bitmap,
                ..*old(self)
            }),
            indicator == 254 ==> final(self).current_bitmap == old(self).current_bitmap,
            indicator == 255 ==> final(self).current_bitmap is None,
            indicator == 0 ==> (final(self).current_bitmap matches Some(bits) && bits_of(bits)
                == Seq::new(
                (old(self).current_grid->0.n_i * old(self).current_grid->0.n_j) as nat,
                |i: int| msb_first(bytes@, i),
            )),
    {
        if indicator == 254 {
            return ;
        }
        if indicator == 255 {
            self.current_bitmap = None;
            return ;
        }
        match self.bitmap_points(indicator) {
            Some(points) => {
                self.current_bitmap = Some(read_bitmap(bytes, points));
            },
            None => {},
        }
    }

    /// By how much the corner of the grid at hand is moved for a product that is
    /// kept, also where its values cannot be stored after that.
    pub fn corner_shift(&self, plan: &GridPlan) -> (shift: Option<(u32, u32)>)
        requires
            self.wf(),
            self.at_band(),
            self.current_grid is Some,
            plan.corner matches Some(c) ==> c.x >= 0 && c.y >= 0,
        ensures
            shift == if self.retains(&self.entry().product_id) {
                shift_of(self.current_grid->0, *plan, self.entry().data.points@.len() > 0)
            } else {
                None
            },
    {
        match (self.current_product, &self.current_grid) {
            (Some(index), Some(grid)) => {
                let product = &self.products[index];
                if self.retains_values_for(&product.product_id) {
                    corner_shift(grid, plan, product.data.grid, product.data.points.len() > 0)
                } else {
                    None
                }
            },
            _ => None,
        }
    }

    /// Places the values of a message.
    ///
    /// Of a product that was excluded the values are dropped; its empty entry
    /// stays, so that a selection can still be checked against it.
    pub fn handle_data(&mut self, values: Vec<i32>, plan: &GridPlan) -> (outcome: Result<
        Option<(u32, u32)>,
        GribError,
    >)
        requires
            old(self).wf(),
            old(self).at_band(),
            old(self).current_grid is Some,
            plan.corner matches Some(c) ==> c.x >= 0 && c.y >= 0,
        ensures
            final(self).wf(),
            stored(*old(self), *final(self), values@, *plan, outcome),
    {
        let ghost before = *self;
        let band: usize = self.current_band as usize;
        let index: usize = match self.current_product {
            Some(index) => index,
            None => {
                return Ok(None);
            },
        };
        if !self.retains_values_for(&self.products[index].product_id) {
            return Ok(None);
        }
        let grid: GridDefinition = match self.current_grid {
            Some(grid) => grid,
            None => {
                return Ok(None);
            },
        };
        let has_points = self.products[index].data.points.len() > 0;
        let own: Option<LngLatGrid> = self.products[index].data.grid;
        match plan_grid(&grid, plan, own, has_points, self.current_band) {
            Ok((laid, placement, snap)) => {
                let spec_min: Option<i32> = self.products[index].data.band_specs[band].min;
                let spec_max: Option<i32> = self.products[index].data.band_specs[band].max;
                let range = crate::grib::extremes(spec_min, spec_max, &values);
                self.products[index].data.grid = Some(laid);
                self.products[index].data.band_specs[band].min = range.0;
                self.products[index].data.band_specs[band].max = range.1;
                let bitmap: Option<&BitVec> = match &self.current_bitmap {
                    Some(bitmap) => Some(bitmap),
                    None => None,
                };
                let placing = place_points(
                    &placement,
                    bitmap,
                    &values,
                    &mut self.products[index].data.points,
                );
                proof {
                    assert(self.entry().data.band_specs@ =~= before.entry().data.band_specs@.update(
                        band as int,
                        widened(before.entry().data.band_specs@[band as int], values@),
                    ));
                    self.lemma_still_wf(&before);
                    let fault = fault_of(placing);
                    assert(stored_at(before, *self, values@, *plan, placement, fault));
                    assert(is_stored(before, *self, values@, *plan, fault));
                }
                match placing {
                    Ok(()) => Ok(snap),
                    Err(error) => Err(error),
                }
            },
            Err(fault) => Err(GribError::Grid(fault)),
        }
    }
}

/// The values went to a place that the plan names, and the band and the grid of
/// the product were brought up to date.
pub open spec fn stored_at(
    before: GridSquareMessageReader,
    after: GridSquareMessageReader,
    values: Seq<i32>,
    plan: GridPlan,
    placement: Placement,
    fault: Option<GribError>,
) -> bool {
    let band = before.current_band as int;
    &&& after.same_but_entry(&before)
    &&& placement == plan_placement(
        before.current_grid->0,
        plan,
        before.current_band,
        placement.power,
    )
    &&& power_of_two(placement.power as nat) == placement.width
    &&& after.entry().data.grid == Some(plan.grid_over(before.entry().data.grid))
    &&& after.entry().data.band_specs@ == before.entry().data.band_specs@.update(
        band,
        widened(before.entry().data.band_specs@[band], values),
    )
    &&& placed(
        placement,
        match before.current_bitmap {
            Some(bits) => Some(bits_of(bits)),
            None => None,
        },
        values,
        before.entry().data.points@,
        after.entry().data.points@,
        fault,
    )
}

pub open spec fn is_stored(
    before: GridSquareMessageReader,
    after: GridSquareMessageReader,
    values: Seq<i32>,
    plan: GridPlan,
    fault: Option<GribError>,
) -> bool {
    exists|placement: Placement| #[trigger]
        stored_at(before, after, values, plan, placement, fault)
}

/// What becomes of the values of a message.
pub open spec fn stored(
    before: GridSquareMessageReader,
    after: GridSquareMessageReader,
    values: Seq<i32>,
    plan: GridPlan,
    outcome: Result<Option<(u32, u32)>, GribError>,
) -> bool {
    let fault = plan_fault(
        before.current_grid->0,
        plan,
        before.entry().data.points@.len() > 0,
    );
    if !before.retains(&before.entry().product_id) {
        after == before && outcome == Ok::<Option<(u32, u32)>, GribError>(None)
    } else {
        match fault {
            Some(fault) => after == before && outcome == Err::<Option<(u32, u32)>, GribError>(
                GribError::Grid(fault),
            ),
            None => match outcome {
                Ok(snap) => {
                    &&& snap == plan_corner(plan).snap
                    &&& is_stored(before, after, values, plan, None)
                },
                Err(error) => is_stored(before, after, values, plan, Some(error)),
            },
        }
    }
}

/// The values of a product all lie on one grid: once a message has brought some,
/// no later message changes the grid.
pub proof fn lemma_one_grid(
    before: GridSquareMessageReader,
    after: GridSquareMessageReader,
    values: Seq<i32>,
    plan: GridPlan,
    outcome: Result<Option<(u32, u32)>, GribError>,
)
    requires
        before.wf(),
        before.at_band(),
        before.entry().data.points@.len() > 0,
        stored(before, after, values, plan, outcome),
    ensures
        after.entry().data.grid is Some,
        after.entry().data.grid == before.entry().data.grid,
{
    assert(before.products@[before.current_product->0 as int].data.grid is Some);
}

/// The numbers of the templates that can be read.
pub proof fn lemma_templates(number: u16)
    ensures
        template_of(number) == Some(ProductTemplate::Instant) <==> number == 0,
        template_of(number) == Some(ProductTemplate::InstantLocal) <==> number == 50000,
        template_of(number) == Some(ProductTemplate::Ensemble) <==> number == 1,
        template_of(number) == Some(ProductTemplate::EnsembleStatistical) <==> number == 11,
        template_of(number) == Some(ProductTemplate::Statistical) <==> seq![
            8u16,
            50008,
            50009,
            50012,
        ].contains(number),
        template_of(number) == Some(ProductTemplate::StatisticalLocal) <==> number == 50011,
        template_of(number) == Some(ProductTemplate::TyphoonStorm) <==> number == 50031,
        template_of(number) matches Some(template) ==> (template.has_period() <==> seq![
            8u16,
            11,
            50008,
            50009,
            50011,
            50012,
        ].contains(number)),
        template_of(number) matches Some(template) ==> (template.has_member() <==> number == 1
            || number == 11),
{
    let statistical = seq![8u16, 50008, 50009, 50012];
    let periods = seq![8u16, 11, 50008, 50009, 50011, 50012];
    assert(statistical[0] == 8 && statistical[1] == 50008 && statistical[2] == 50009
        && statistical[3] == 50012);
    assert(periods[0] == 8 && periods[1] == 11 && periods[2] == 50008 && periods[3] == 50009
        && periods[4] == 50011 && periods[5] == 50012);
    if template_of(number) is None {
        assert(!statistical.contains(number));
        assert(!periods.contains(number));
    }
}

/// What is recorded of a kind of product was recorded under its name, and nothing is
/// recorded of a kind that has no entry.
pub proof fn lemma_latest_recorded(times: Seq<(String, i64)>, kind: Seq<char>)
    ensures
        latest(times, kind) matches Some(time) ==> exists|i: int|
            0 <= i < times.len() && (#[trigger] times[i]).0@ == kind && times[i].1 == time,
        latest(times, kind) is None <==> forall|i: int|
            0 <= i < times.len() ==> (#[trigger] times[i]).0@ != kind,
    decreases times.len(),
{
    if times.len() > 0 {
        let rest = times.skip(1);
        if times[0].0@ != kind {
            lemma_latest_recorded(rest, kind);
            if let Some(time) = latest(times, kind) {
                let i = choose|i: int|
                    0 <= i < rest.len() && (#[trigger] rest[i]).0@ == kind && rest[i].1 == time;
                assert(times[i + 1] == rest[i]);
            }
            assert forall|i: int| 0 < i < times.len() implies #[trigger] times[i] == rest[i - 1] by {
            }
            if latest(times, kind) is None {
                assert forall|i: int| 0 <= i < times.len() implies (#[trigger] times[i]).0@
                    != kind by {
                    if i > 0 {
                        assert(rest[i - 1].0@ != kind);
                    }
                }
            }
        }
    }
}

/// Values that are stored go to the product at hand alone. Behind its points come those
/// of the message, of the band at hand and as wide as its cells are; the band's extremes
/// take all the values in, and the grid is the one that the values lie on.
pub proof fn lemma_values_stored(
    before: GridSquareMessageReader,
    after: GridSquareMessageReader,
    values: Seq<i32>,
    plan: GridPlan,
    outcome: Result<Option<(u32, u32)>, GribError>,
    product: int,
)
    requires
        before.wf(),
        before.at_band(),
        stored(before, after, values, plan, outcome),
        outcome is Ok,
        before.current_product == Some(product as usize),
        0 <= product <= usize::MAX,
        before.retained_product matches Some(requested) ==> requested@
            == before.products@[product].product_id.selector(),
    ensures
        after.products@.len() == before.products@.len(),
        forall|i: int|
            0 <= i < before.products@.len() && i != product ==> #[trigger] after.products@[i]
                == before.products@[i],
        after.products@[product].product_id == before.products@[product].product_id,
        ({
            let own = before.products@[product].data;
            let now = after.products@[product].data;
            let band = before.current_band as int;
            &&& own.points@.len() <= now.points@.len()
            &&& now.points@.take(own.points@.len() as int) == own.points@
            &&& forall|m: int|
                own.points@.len() <= m < now.points@.len() ==> (#[trigger] now.points@[m]).band_idx
                    == before.current_band && now.points@[m].value != i32::MIN
                    && power_of_two(now.points@[m].point_power as nat) == plan.width->0
            &&& now.band_specs@.len() == own.band_specs@.len()
            &&& forall|b: int|
                0 <= b < own.band_specs@.len() && b != band ==> #[trigger] now.band_specs@[b]
                    == own.band_specs@[b]
            &&& now.band_specs@[band].name == own.band_specs@[band].name
            &&& now.band_specs@[band].reference_value == own.band_specs@[band].reference_value
            &&& now.band_specs@[band].binary_scale == own.band_specs@[band].binary_scale
            &&& now.band_specs@[band].decimal_scale == own.band_specs@[band].decimal_scale
            &&& forall|i: int|
                0 <= i < values.len() && #[trigger] values[i] != i32::MIN ==> {
                    &&& now.band_specs@[band].min matches Some(least) && least <= values[i]
                    &&& now.band_specs@[band].max matches Some(most) && most >= values[i]
                }
            &&& now.grid matches Some(grid) && (plan.finer_longitude is None ==> grid.lng_denom
                == (match own.grid {
                Some(own) => own,
                None => plan.configured,
            }).lng_denom)
        }),
{
    assert(before.entry() == before.products@[product]);
    assert(after.entry() == after.products@[product]);
    let placement = choose|placement: Placement| #[trigger]
        stored_at(before, after, values, plan, placement, None);
    let bits = match before.current_bitmap {
        Some(bits) => Some(bits_of(bits)),
        None => None,
    };
    let own = before.products@[product].data;
    let now = after.products@[product].data;
    let band = before.current_band as int;
    let added = points_of(placement, bits, values, placement.cells() as nat);
    assert(now.points@ == own.points@ + added);
    assert(now.points@.take(own.points@.len() as int) =~= own.points@);
    lemma_points_from_cells(placement, bits, values, placement.cells() as nat);
    assert forall|m: int| own.points@.len() <= m < now.points@.len() implies (
    #[trigger] now.points@[m]).band_idx == before.current_band && now.points@[m].value != i32::MIN
        && power_of_two(now.points@[m].point_power as nat) == plan.width->0 by {
        let n = m - own.points@.len();
        assert(now.points@[m] == added[n]);
        let value = added[n].value;
        let c = choose|c: int|
            0 <= c < placement.cells() && is_present(bits, c) && values[rank(
                bits,
                c as nat,
            ) as int] == #[trigger] added[n].value && added[n] == #[trigger] placement.point(
                c,
                values[rank(bits, c as nat) as int],
            ) && values[rank(bits, c as nat) as int] != i32::MIN;
        assert(added[n] == placement.point(c, value));
    }
    lemma_lowest(own.band_specs@[band].min, values);
    lemma_highest(own.band_specs@[band].max, values);
}

/// A message of a product that is not kept changes nothing.
pub proof fn lemma_values_not_kept(
    before: GridSquareMessageReader,
    after: GridSquareMessageReader,
    values: Seq<i32>,
    plan: GridPlan,
    outcome: Result<Option<(u32, u32)>, GribError>,
)
    requires
        before.at_band(),
        stored(before, after, values, plan, outcome),
        before.retained_product matches Some(requested) && requested@
            != before.products@[before.current_product->0 as int].product_id.selector(),
    ensures
        after == before,
        outcome == Ok::<Option<(u32, u32)>, GribError>(None),
{
}

/// A product of which no values were read yet: its bands have their names.
pub open spec fn unread(product_id: GpvProductIdentifier, data: ProductData) -> bool {
    &&& data.points@.len() == 0
    &&& data.grid is None
    &&& data.band_specs@.len() == product_id.bands@.len()
    &&& forall|i: int|
        0 <= i < data.band_specs@.len() ==> BandSpec::unread(
            product_id.bands@[i]@,
            #[trigger] data.band_specs@[i],
        )
}

fn unread_data(product_id: &GpvProductIdentifier) -> (data: ProductData)
    ensures
        unread(*product_id, data),
{
    let mut band_specs: Vec<BandSpec> = Vec::new();
    let mut i: usize = 0;
    while i < product_id.bands.len()
        invariant
            i <= product_id.bands@.len(),
            band_specs@.len() == i,
            forall|k: int|
                0 <= k < i ==> BandSpec::unread(
                    product_id.bands@[k]@,
                    #[trigger] band_specs@[k],
                ),
        decreases product_id.bands@.len() - i,
    {
        let name = product_id.bands[i].clone();
        band_specs.push(
            BandSpec {
                name,
                reference_value: 0,
                binary_scale: 0,
                decimal_scale: 0,
                min: None,
                max: None,
            },
        );
        i = i + 1;
    }
    ProductData { points: Vec::new(), band_specs, grid: None }
}

/// A new product has a band for each of its names, in their order, and nothing else is
/// known of it.
pub proof fn lemma_nothing_read(product_id: GpvProductIdentifier, data: ProductData, band: int)
    requires
        unread(product_id, data),
        0 <= band < product_id.bands@.len(),
    ensures
        data.points@.len() == 0,
        data.grid is None,
        data.band_specs@.len() == product_id.bands@.len(),
        data.band_specs@[band].name@ == product_id.bands@[band]@,
        data.band_specs@[band].reference_value == 0,
        data.band_specs@[band].binary_scale == 0,
        data.band_specs@[band].decimal_scale == 0,
        data.band_specs@[band].min is None,
        data.band_specs@[band].max is None,
{
    assert(BandSpec::unread(product_id.bands@[band]@, data.band_specs@[band]));
}

} // verus!
