//! Products, their points, and the tiles made of them.

use vstd::prelude::*;

use vstd::string::StringExecFns;

verus! {

/// The level that a field sits on. A scaled level has a value and a negative
/// power of ten.
#[derive(Clone, Copy, Debug, PartialEq, Eq, Structural)]
pub enum FixedSurface {
    Unspecified,
    Surface,
    Msl,
    Altitude(u32, i8),
    IsobaricSurface(u32, i8),
    DepthBelowSeaLevel(u32, i8),
    CloudTops,
    TankTotal,
    Tank(u32),
}

/// The kind of process that made a field.
#[derive(Clone, Copy, Debug, PartialEq, Eq, Structural)]
pub enum GeneratingProcessType {
    Analysis,
    Forecast,
    Other(u8),
}

/// Which member of an ensemble a field belongs to.
#[derive(Clone, Copy, Debug, PartialEq, Eq, Structural)]
pub struct Ensemble {
    pub perturbation_number: u8,
    pub ensemble_type: u8,
}

/// How the values of several cells become that of a larger one, as the catalogue
/// numbers its ways.
#[derive(Clone, Copy, Debug, PartialEq, Eq, Structural)]
pub struct Aggregation {
    pub number: u32,
}

/// What tells one product from another, and how it is called. The element of a
/// product is its number in the catalogue; the names and the way in which its
/// values are aggregated follow from it.
#[derive(Debug)]
pub struct GpvProductIdentifier {
    pub kind: u32,
    pub data_kind: String,
    pub value_kind: String,
    pub path: String,
    pub kind_path: String,
    pub bands: Vec<String>,
    pub aggregation: Aggregation,
    pub datetime: i64,
    pub reference_datetime: i64,
    pub generating_process: GeneratingProcessType,
    pub surface: FixedSurface,
    pub ensemble: Option<Ensemble>,
    pub variant: Option<String>,
}

impl GpvProductIdentifier {
    /// The two identifiers are of the same product.
    pub open spec fn same(&self, other: &Self) -> bool {
        &&& self.kind == other.kind
        &&& self.datetime == other.datetime
        &&& self.reference_datetime == other.reference_datetime
        &&& self.generating_process == other.generating_process
        &&& self.surface == other.surface
        &&& self.ensemble == other.ensemble
        &&& match (self.variant, other.variant) {
            (Some(a), Some(b)) => a@ == b@,
            (None, None) => true,
            _ => false,
        }
    }

    /// Identifiers are those of one product if and only if they agree in the element, both
    /// times, the process, the surface, the member of an ensemble and the variant. How the
    /// product is called follows from these.
    pub proof fn lemma_same(&self, other: &Self)
        ensures
            self.same(other) == other.same(self),
            self.same(other) ==> self.kind == other.kind && self.datetime == other.datetime
                && self.reference_datetime == other.reference_datetime && self.generating_process
                == other.generating_process && self.surface == other.surface && self.ensemble
                == other.ensemble,
            self.same(other) ==> (self.variant is Some <==> other.variant is Some),
            self.same(other) && self.variant is Some ==> self.variant->0@ == other.variant->0@,
            self.kind == other.kind && self.datetime == other.datetime && self.reference_datetime
                == other.reference_datetime && self.generating_process == other.generating_process
                && self.surface == other.surface && self.ensemble == other.ensemble && (
            self.variant is None && other.variant is None) ==> self.same(other),
            self.kind == other.kind && self.datetime == other.datetime && self.reference_datetime
                == other.reference_datetime && self.generating_process == other.generating_process
                && self.surface == other.surface && self.ensemble == other.ensemble
                && self.variant is Some && other.variant is Some && self.variant->0@
                == other.variant->0@ ==> self.same(other),
    {
    }

    /// The text by which a product is selected: the kind of data and, where there
    /// are several, the kind of value behind a slash.
    pub open spec fn selector(&self) -> Seq<char> {
        if self.value_kind@.len() == 0 {
            self.data_kind@
        } else {
            self.data_kind@ + seq!['/'] + self.value_kind@
        }
    }

    /// The selector starts with the kind of data. Where there is a kind of value, a slash
    /// and that follow, and nothing else.
    pub proof fn lemma_selector(&self)
        ensures
            self.value_kind@.len() == 0 ==> self.selector() == self.data_kind@,
            self.value_kind@.len() > 0 ==> {
                let n = self.data_kind@.len() as int;
                &&& self.selector().len() == n + 1 + self.value_kind@.len()
                &&& self.selector().take(n) == self.data_kind@
                &&& self.selector()[n] == '/'
                &&& self.selector().skip(n + 1) == self.value_kind@
            },
    {
        if self.value_kind@.len() > 0 {
            let n = self.data_kind@.len() as int;
            assert(self.selector().take(n) =~= self.data_kind@);
            assert(self.selector().skip(n + 1) =~= self.value_kind@);
        }
    }

    pub fn product_selector(&self) -> (text: String)
        ensures
            text@ == self.selector(),
    {
        let mut text = self.data_kind.clone();
        if !self.value_kind.as_str().is_empty() {
            text.append("/");
            text.append(self.value_kind.as_str());
            proof {
                reveal_strlit("/");
                assert("/"@ =~= seq!['/']);
            }
        }
        text
    }

    pub fn is_same(&self, other: &Self) -> (r: bool)
        ensures
            r == self.same(other),
    {
        let same_ensemble = match (&self.ensemble, &other.ensemble) {
            (Some(a), Some(b)) => *a == *b,
            (None, None) => true,
            _ => false,
        };
        let same_variant = match (&self.variant, &other.variant) {
            (Some(a), Some(b)) => *a == *b,
            (None, None) => true,
            _ => false,
        };
        self.kind == other.kind && self.datetime == other.datetime && self.reference_datetime
            == other.reference_datetime && self.generating_process == other.generating_process
            && self.surface == other.surface && same_ensemble && same_variant
    }
}

/// The grid of a product: its origin in degrees and its cells per degree, as the
/// bits of floating-point numbers.
#[derive(Clone, Copy, Debug, PartialEq, Eq, Structural)]
pub struct LngLatGrid {
    pub lng_0: u64,
    pub lat_0: u64,
    pub lng_denom: u32,
    pub lat_denom: u32,
}

/// One value of one band at one point of the base grid.
#[derive(Clone, Copy, Debug, PartialEq, Eq, Structural)]
pub struct PointValue {
    pub x: u16,
    pub y: u16,
    pub point_id: u32,
    pub point_power: u8,
    pub band_idx: u8,
    pub value: i32,
}

/// A band's name, how its raw values are packed, and their extremes.
#[derive(Debug)]
pub struct BandSpec {
    pub name: String,
    pub reference_value: u32,
    pub binary_scale: i8,
    pub decimal_scale: i8,
    pub min: Option<i32>,
    pub max: Option<i32>,
}

/// What has been read of one product.
#[derive(Debug)]
pub struct ProductData {
    pub points: Vec<PointValue>,
    pub band_specs: Vec<BandSpec>,
    pub grid: Option<LngLatGrid>,
}

/// One product of the input.
#[derive(Debug)]
pub struct RawProduct {
    pub product_id: GpvProductIdentifier,
    pub data: ProductData,
}

/// A raw value or none, in the space of a value: the least number stands for
/// none.
#[derive(Clone, Copy, Debug, PartialEq, Eq, Structural)]
pub struct CompactOptI32 {
    pub raw: i32,
}

impl View for CompactOptI32 {
    type V = Option<i32>;

    open spec fn view(&self) -> Option<i32> {
        if self.raw == i32::MIN {
            None
        } else {
            Some(self.raw)
        }
    }
}

impl CompactOptI32 {
    /// No value.
    pub fn none() -> (compact: CompactOptI32)
        ensures
            compact@ == None::<i32>,
    {
        CompactOptI32 { raw: i32::MIN }
    }

    /// The least number is taken, so it cannot be a value.
    pub fn new(value: Option<i32>) -> (compact: CompactOptI32)
        requires
            value != Some(i32::MIN),
        ensures
            compact@ == value,
    {
        match value {
            Some(value) => CompactOptI32 { raw: value },
            None => CompactOptI32 { raw: i32::MIN },
        }
    }

    pub fn get(&self) -> (value: Option<i32>)
        ensures
            value == self@,
    {
        if self.raw == i32::MIN {
            None
        } else {
            Some(self.raw)
        }
    }
}

/// The values of one band, one for each point of a tile.
#[derive(Debug)]
pub struct Band {
    pub values: Vec<CompactOptI32>,
}

/// The points of the base grid that fall into one tile of the base zoom.
#[derive(Debug)]
pub struct BaseTile {
    pub point_positions: Vec<(u16, u16)>,
    pub point_powers: Vec<u8>,
    pub bands: Vec<Band>,
}

impl BaseTile {
    /// Every band has a value, or its absence, for each point.
    pub open spec fn wf(&self) -> bool {
        &&& self.point_powers@.len() == self.point_positions@.len()
        &&& forall|b: int|
            0 <= b < self.bands@.len() ==> (#[trigger] self.bands@[b]).values@.len()
                == self.point_positions@.len()
    }
}

/// A point of a tile that stands for a square of cells, with a side of two to
/// its power, and the values of its bands.
#[derive(Clone, Copy, Debug)]
pub struct Point {
    pub x: u32,
    pub y: u32,
    pub power: u8,
    pub values: [CompactOptI32; 4],
}

/// The raw values of the bands that an encoding reads. The second is zero where
/// it reads only one.
#[derive(Clone, Copy, Debug, PartialEq, Eq, Structural)]
pub struct RawPair {
    pub first: i32,
    pub second: i32,
}

/// The values of the first one or two bands, where all of them are there.
pub open spec fn pair_of(values: Seq<CompactOptI32>, bands: int) -> Option<RawPair> {
    match (values[0]@, values[1]@) {
        (Some(first), Some(second)) => Some(
            RawPair {
                first,
                second: if bands == 2 {
                    second
                } else {
                    0
                },
            },
        ),
        (Some(first), None) if bands != 2 => Some(RawPair { first, second: 0 }),
        _ => None,
    }
}

/// The classes that the values of a band are put into: their lower bounds and
/// the values they stand for, as the bits of doubles.
#[derive(Debug)]
pub struct Quantization {
    pub bounds: Vec<u64>,
    pub outputs: Vec<u64>,
}

/// What is known of all the tiles of a product. For each band there may be a
/// quantization, input values that are left out, and classes that are. The
/// bounds are west, south, east and north in degrees.
#[derive(Debug)]
pub struct TilesetSpec {
    pub name: String,
    pub base_z: u8,
    pub grid_spec: LngLatGrid,
    pub aggregation: Aggregation,
    pub band_specs: Vec<BandSpec>,
    pub quantize: Vec<Option<Quantization>>,
    pub omit_zero: Vec<Option<Vec<u64>>>,
    pub omit_class: Vec<Option<Vec<u64>>>,
    pub bounds: [u64; 4],
}

/// A product whose points have been put into the tiles of its base zoom, in the
/// order of their numbers.
#[derive(Debug)]
pub struct PreparedProduct {
    pub product_id: GpvProductIdentifier,
    pub spec: TilesetSpec,
    pub chunks: Vec<(u64, BaseTile)>,
}

/// The values of a pair are those of the bands, and it is there if and only if every band
/// that is read has a value. The second is zero where only one is read.
pub proof fn lemma_pair(values: Seq<CompactOptI32>, bands: int)
    ensures
        bands == 2 ==> (pair_of(values, bands) is Some <==> values[0]@ is Some
            && values[1]@ is Some),
        bands != 2 ==> (pair_of(values, bands) is Some <==> values[0]@ is Some),
        pair_of(values, bands) matches Some(pair) ==> Some(pair.first) == values[0]@ && if bands
            == 2 {
            Some(pair.second) == values[1]@
        } else {
            pair.second == 0
        },
{
}

/// The names of bands.
pub open spec fn band_names(bands: Seq<BandSpec>) -> Seq<Seq<char>> {
    Seq::new(bands.len(), |i: int| bands[i].name@)
}

} // verus!
