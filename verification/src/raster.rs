//! Encodes band values into RGBA raster tiles.
//!
//! A raster tile carries data rather than a picture, so the client has to know
//! how to invert whatever was done to it. Every [`ColorEncoding`] therefore
//! ships a [`ColorEncoding::descriptor`] into the archive metadata. Its
//! structured channel, offset and scale fields are sufficient to invert the
//! pixels; no layer has to guess from a tileset name.
//!
//! Two hazards apply to every encoding here, and both are quiet when they bite:
//!
//! * **Alpha is never a mask.** Several browser image-decoding paths -
//!   `createImageBitmap` among them - premultiply alpha, which zeroes the
//!   colour channels of a transparent pixel. That would destroy exactly the
//!   values the mask is marking. Tiles are always opaque, and coverage is
//!   spelled out in a colour channel instead.
//! * **Parameters belong to the archive, never to a tile.** Deriving a range
//!   per tile would make neighbouring tiles decode the same byte differently,
//!   and the field would jump across every tile seam.

use vstd::prelude::*;

use vstd::string::StringExecFns;

use crate::double::{absolute, finite, is_finite, is_less, is_nan, less, magnitude, nan};
use crate::text::{
    copy_texts, first_place, lemma_first_place_found, split, split_once, split_parts, texts, trim,
    trimmed,
};

verus! {

/// Side length in pixels of a raster tile.
pub const TILE_EXTENT: u32 = 512;

/// Pixels of neighbouring tiles carried around each edge.
///
/// A sampler filtering near the edge of a tile reaches past it, and without a
/// margin it clamps to the edge instead: the field flattens into a visible
/// seam along every tile boundary. One pixel is all a bilinear filter can
/// reach.
pub const TILE_BUFFER: u32 = 1;

/// The side of the stored image: the tile plus its margin on both sides.
pub const IMAGE_EXTENT: u32 = 514;

/// How the band values of one grid cell become a pixel. The parameters are the
/// bits of double-precision numbers.
#[derive(Debug, Clone, Copy, PartialEq, Eq, Structural)]
pub enum ColorEncoding {
    /// A scalar spread over all 24 colour bits. Exact to `interval`, at the
    /// cost of having no channel left for a mask, so it suits a grid that
    /// covers every tile it appears in - a global model, or terrain.
    ///
    /// The layout is the one Mapbox terrain-RGB uses.
    Scalar24 { base: u64, interval: u64 },

    /// A scalar in 16 bits across red and green, with the on-grid flag in blue.
    ///
    /// Coarser than [`Self::Scalar24`] but it keeps a channel free for the
    /// mask, which is what a regional model needs: the grid stops partway
    /// across the tile, and a sentinel value cannot say so reliably once the
    /// client filters the texture bilinearly.
    Scalar16 { min: u64, max: u64 },

    /// The two components of a vector, signed-normalised into red and green
    /// with the on-grid flag in blue.
    VectorField {
        /// The largest value **either component** can hold, not the largest
        /// speed.
        component_limit: u64,
    },
}

/// Why a raster encoding cannot be served.
#[derive(Debug)]
pub enum RequestError {
    /// A parameter is not a number.
    NotANumber { part: String },
    /// There are too many parameters, or too few.
    ParameterCount { name: String, expected: usize, given: usize },
    /// A parameter is infinite, or no number at all.
    NotFinite { name: String },
    /// The component limit is not positive.
    Limit { name: String },
    /// The range does not increase.
    Range { name: String },
    /// The interval is not positive.
    Interval { name: String },
    /// There is no such encoding.
    Unknown { name: String },
    /// The bands are not the ones that the encoding means.
    Bands { names: Vec<String> },
}

/// An encoding by name, with its parameters: as they were written, and without
/// the white space around them.
#[derive(Debug)]
pub struct EncodingRequest {
    pub name: String,
    pub parts: Vec<String>,
    pub numerals: Vec<String>,
}

/// The parts that hold more than white space.
pub open spec fn filled_parts(parts: Seq<Seq<char>>) -> Seq<Seq<char>>
    decreases parts.len(),
{
    if parts.len() == 0 {
        Seq::empty()
    } else {
        let before = filled_parts(parts.drop_last());
        if trimmed(parts.last()).len() > 0 {
            before.push(parts.last())
        } else {
            before
        }
    }
}

/// The parts without the white space around them.
pub open spec fn trimmed_parts(parts: Seq<Seq<char>>) -> Seq<Seq<char>> {
    parts.map_values(|part: Seq<char>| trimmed(part))
}

/// The name of the encoding: what stands before the first colon.
pub open spec fn encoding_name(spec: Seq<char>) -> Seq<char> {
    let i = first_place(spec, ':');
    if i < spec.len() {
        spec.take(i)
    } else {
        spec
    }
}

/// The parameters: what stands behind the first colon, separated by commas.
pub open spec fn encoding_parts(spec: Seq<char>) -> Seq<Seq<char>> {
    let i = first_place(spec, ':');
    if i < spec.len() {
        filled_parts(split_parts(spec.skip(i + 1), ','))
    } else {
        Seq::empty()
    }
}

/// Takes `<encoding>:<parameters>` apart, the form `--raster` takes.
pub fn encoding_request(spec: &str) -> (request: EncodingRequest)
    ensures
        request.name@ == encoding_name(spec@),
        texts(request.parts@) == encoding_parts(spec@),
        texts(request.numerals@) == trimmed_parts(texts(request.parts@)),
{
    match split_once(spec, ':') {
        Some((name, parameters)) => {
            let (parts, numerals) = filled(&split(parameters.as_str(), ','));
            EncodingRequest { name, parts, numerals }
        },
        None => {
            let request = EncodingRequest {
                name: String::from_str(spec),
                parts: Vec::new(),
                numerals: Vec::new(),
            };
            proof {
                assert(texts(request.parts@) =~= Seq::empty());
                assert(texts(request.numerals@) =~= trimmed_parts(texts(request.parts@)));
            }
            request
        },
    }
}

fn filled(parts: &Vec<String>) -> (result: (Vec<String>, Vec<String>))
    ensures
        texts(result.0@) == filled_parts(texts(parts@)),
        texts(result.1@) == trimmed_parts(texts(result.0@)),
{
    let mut filled: Vec<String> = Vec::new();
    let mut inner: Vec<String> = Vec::new();
    let mut i: usize = 0;
    proof {
        assert(texts(parts@).take(0) =~= Seq::empty());
        assert(texts(filled@) =~= Seq::empty());
        assert(texts(inner@) =~= trimmed_parts(texts(filled@)));
    }
    while i < parts.len()
        invariant
            i <= parts@.len(),
            texts(filled@) == filled_parts(texts(parts@).take(i as int)),
            texts(inner@) == trimmed_parts(texts(filled@)),
        decreases parts@.len() - i,
    {
        let ghost before = filled@;
        let ghost inner_before = inner@;
        let part = trim(parts[i].as_str());
        proof {
            let next = texts(parts@).take(i + 1);
            assert(next.drop_last() =~= texts(parts@).take(i as int));
            assert(next.last() == parts@[i as int]@);
        }
        if !part.as_str().is_empty() {
            filled.push(parts[i].clone());
            inner.push(part);
            proof {
                assert(texts(filled@) =~= texts(before).push(parts@[i as int]@));
                assert(texts(inner@) =~= texts(inner_before).push(part@));
                assert(texts(inner@) =~= trimmed_parts(texts(filled@)));
            }
        }
        i = i + 1;
    }
    assert(texts(parts@).take(parts@.len() as int) =~= texts(parts@));
    (filled, inner)
}

/// What can be wrong with a request.
pub enum RequestFault {
    NotANumber(int),
    ParameterCount(int),
    NotFinite,
    Limit,
    Range,
    Interval,
    Unknown,
}

/// How many parameters an encoding takes.
pub open spec fn parameter_count(name: Seq<char>) -> Option<int> {
    if name == "vector-field"@ {
        Some(1)
    } else if name == "scalar16"@ {
        Some(2)
    } else if name == "scalar24"@ {
        Some(2)
    } else {
        None
    }
}

/// The first parameter that is not a number, or how many there are.
pub open spec fn first_bad(numbers: Seq<Option<u64>>) -> int
    decreases numbers.len(),
{
    if numbers.len() == 0 || numbers[0] is None {
        0
    } else {
        1 + first_bad(numbers.skip(1))
    }
}

/// The encoding that is asked for, or what is wrong with the request.
pub open spec fn encoding_of(name: Seq<char>, numbers: Seq<Option<u64>>) -> Result<
    ColorEncoding,
    RequestFault,
> {
    match parameter_count(name) {
        None => Err(RequestFault::Unknown),
        Some(expected) => if first_bad(numbers) < numbers.len() {
            Err(RequestFault::NotANumber(first_bad(numbers)))
        } else if numbers.len() != expected {
            Err(RequestFault::ParameterCount(expected))
        } else if exists|i: int| 0 <= i < numbers.len() && !is_finite((#[trigger] numbers[i])->0) {
            Err(RequestFault::NotFinite)
        } else if name == "vector-field"@ {
            if is_less(0, numbers[0]->0) {
                Ok(ColorEncoding::VectorField { component_limit: numbers[0]->0 })
            } else {
                Err(RequestFault::Limit)
            }
        } else if name == "scalar16"@ {
            if is_less(numbers[0]->0, numbers[1]->0) {
                Ok(ColorEncoding::Scalar16 { min: numbers[0]->0, max: numbers[1]->0 })
            } else {
                Err(RequestFault::Range)
            }
        } else {
            if is_less(0, numbers[1]->0) {
                Ok(ColorEncoding::Scalar24 { base: numbers[0]->0, interval: numbers[1]->0 })
            } else {
                Err(RequestFault::Interval)
            }
        },
    }
}

/// What a fault looks like to the caller.
pub open spec fn reports_request(
    error: RequestError,
    fault: RequestFault,
    name: Seq<char>,
    parts: Seq<Seq<char>>,
) -> bool {
    match (error, fault) {
        (RequestError::NotANumber { part }, RequestFault::NotANumber(i)) => part@ == parts[i],
        (
            RequestError::ParameterCount { name: n, expected, given },
            RequestFault::ParameterCount(e),
        ) => n@ == name && expected == e && given == parts.len(),
        (RequestError::NotFinite { name: n }, RequestFault::NotFinite) => n@ == name,
        (RequestError::Limit { name: n }, RequestFault::Limit) => n@ == name,
        (RequestError::Range { name: n }, RequestFault::Range) => n@ == name,
        (RequestError::Interval { name: n }, RequestFault::Interval) => n@ == name,
        (RequestError::Unknown { name: n }, RequestFault::Unknown) => n@ == name,
        _ => false,
    }
}

proof fn lemma_first_bad(numbers: Seq<Option<u64>>, i: int)
    requires
        0 <= i <= numbers.len(),
        forall|k: int| 0 <= k < i ==> (#[trigger] numbers[k]) is Some,
        i < numbers.len() ==> numbers[i] is None,
    ensures
        first_bad(numbers) == i,
    decreases numbers.len(),
{
    if i > 0 {
        assert(numbers[0] is Some);
        let rest = numbers.skip(1);
        assert forall|k: int| 0 <= k < i - 1 implies (#[trigger] rest[k]) is Some by {
            assert(rest[k] == numbers[k + 1]);
        }
        lemma_first_bad(rest, i - 1);
    }
}

impl ColorEncoding {
    /// The encoding that a request names, given its parameters as numbers where
    /// they are.
    pub fn from_request(request: &EncodingRequest, numbers: &Vec<Option<u64>>) -> (outcome: Result<
        ColorEncoding,
        RequestError,
    >)
        requires
            numbers@.len() == request.parts@.len(),
        ensures
            match (outcome, encoding_of(request.name@, numbers@)) {
                (Ok(encoding), Ok(expected)) => encoding == expected,
                (Err(error), Err(fault)) => reports_request(
                    error,
                    fault,
                    request.name@,
                    texts(request.parts@),
                ),
                _ => false,
            },
    {
        let vector_field = String::from_str("vector-field");
        let scalar16 = String::from_str("scalar16");
        let scalar24 = String::from_str("scalar24");
        let expected: usize = if request.name == vector_field {
            1
        } else if request.name == scalar16 || request.name == scalar24 {
            2
        } else {
            return Err(RequestError::Unknown { name: request.name.clone() });
        };
        let mut values: Vec<u64> = Vec::new();
        let mut all_finite = true;
        let mut i: usize = 0;
        while i < numbers.len()
            invariant
                i <= numbers@.len(),
                numbers@.len() == request.parts@.len(),
                values@.len() == i,
                forall|k: int|
                    0 <= k < i ==> (#[trigger] numbers@[k]) == Some(values@[k]),
                all_finite == forall|k: int| 0 <= k < i ==> is_finite((#[trigger] numbers@[k])->0),
                parameter_count(request.name@) is Some,
            decreases numbers@.len() - i,
        {
            match numbers[i] {
                Some(value) => {
                    if !finite(value) {
                        all_finite = false;
                        assert(!is_finite(numbers@[i as int]->0));
                    }
                    values.push(value);
                },
                None => {
                    let part = request.parts[i].clone();
                    proof {
                        lemma_first_bad(numbers@, i as int);
                        assert(texts(request.parts@)[i as int] == part@);
                    }
                    return Err(RequestError::NotANumber { part });
                },
            }
            i = i + 1;
        }
        proof {
            lemma_first_bad(numbers@, numbers@.len() as int);
        }
        if values.len() != expected {
            return Err(
                RequestError::ParameterCount {
                    name: request.name.clone(),
                    expected,
                    given: values.len(),
                },
            );
        }
        if !all_finite {
            return Err(RequestError::NotFinite { name: request.name.clone() });
        }
        if request.name == vector_field {
            assert(numbers@[0] == Some(values@[0]));
            if !less(0, values[0]) {
                return Err(RequestError::Limit { name: request.name.clone() });
            }
            return Ok(ColorEncoding::VectorField { component_limit: values[0] });
        }
        assert(numbers@[0] == Some(values@[0]) && numbers@[1] == Some(values@[1]));
        if request.name == scalar16 {
            if !less(values[0], values[1]) {
                return Err(RequestError::Range { name: request.name.clone() });
            }
            return Ok(ColorEncoding::Scalar16 { min: values[0], max: values[1] });
        }
        if !less(0, values[1]) {
            return Err(RequestError::Interval { name: request.name.clone() });
        }
        Ok(ColorEncoding::Scalar24 { base: values[0], interval: values[1] })
    }

    pub open spec fn band_count(self) -> int {
        match self {
            ColorEncoding::VectorField { .. } => 2,
            _ => 1,
        }
    }

    /// How many bands the encoding consumes, in band order.
    pub fn bands(&self) -> (count: usize)
        ensures
            count == self.band_count(),
    {
        match self {
            ColorEncoding::Scalar24 { .. } => 1,
            ColorEncoding::Scalar16 { .. } => 1,
            ColorEncoding::VectorField { .. } => 2,
        }
    }

    /// The bands are the ones that the encoding means: the eastward and the
    /// northward component in that order for a vector field, any single band
    /// for a scalar.
    pub open spec fn means(self, names: Seq<Seq<char>>) -> bool {
        match self {
            ColorEncoding::VectorField { .. } => names.len() == 2 && names[0] == "u"@ && names[1]
                == "v"@,
            _ => names.len() == 1,
        }
    }

    /// Checks that a product's bands are the ones this encoding means, rather
    /// than merely enough of them.
    ///
    /// Taking whatever the first bands happen to be would encode a wave
    /// product's height and direction as a velocity. Nothing downstream could
    /// notice: the tiles would be well-formed, and the particles would simply
    /// flow the wrong way.
    pub fn check_bands(&self, names: &Vec<String>) -> (outcome: Result<(), RequestError>)
        ensures
            match outcome {
                Ok(_) => self.means(texts(names@)),
                Err(RequestError::Bands { names: n }) => !self.means(texts(names@)) && texts(n@)
                    == texts(names@),
                Err(_) => false,
            },
    {
        let fits = match self {
            ColorEncoding::VectorField { .. } => {
                let u = String::from_str("u");
                let v = String::from_str("v");
                names.len() == 2 && names[0] == u && names[1] == v
            },
            _ => names.len() == 1,
        };
        proof {
            if names@.len() == 2 {
                assert(texts(names@)[0] == names@[0]@ && texts(names@)[1] == names@[1]@);
            }
        }
        if fits {
            return Ok(());
        }
        Err(RequestError::Bands { names: copy_texts(names) })
    }

    /// The values lie out of the range that the encoding can hold. For a scalar
    /// over all bits that is said of its code before rounding.
    pub open spec fn saturates(self, values: Seq<u64>, code: u64) -> bool {
        match self {
            ColorEncoding::Scalar24 { .. } => !is_finite(code) || is_less(code, 0) || is_less(
                0x416f_ffff_e000_0000,
                code,
            ),
            ColorEncoding::Scalar16 { min, max } => !is_finite(values[0]) || is_less(values[0], min)
                || is_less(max, values[0]),
            ColorEncoding::VectorField { component_limit } => !is_finite(values[0]) || !is_finite(
                values[1],
            ) || is_less(component_limit, magnitude(values[0]) as u64) || is_less(
                component_limit,
                magnitude(values[1]) as u64,
            ),
        }
    }

    /// Whether encoding these values would saturate rather than represent them.
    ///
    /// The lowest value of a scalar over all bits is a value, not a reserved
    /// code: the encoding has no mask, so the base itself is representable.
    pub fn clips(&self, values: [u64; 2], code: u64) -> (r: bool)
        ensures
            r == self.saturates(values@, code),
    {
        match *self {
            ColorEncoding::Scalar24 { .. } => !finite(code) || less(code, 0) || less(
                0x416f_ffff_e000_0000,
                code,
            ),
            ColorEncoding::Scalar16 { min, max } => !finite(values[0]) || less(values[0], min)
                || less(max, values[0]),
            ColorEncoding::VectorField { component_limit } => !finite(values[0]) || !finite(
                values[1],
            ) || less(component_limit, absolute(values[0])) || less(
                component_limit,
                absolute(values[1]),
            ),
        }
    }

    pub open spec fn gap(self) -> Seq<u8> {
        match self {
            ColorEncoding::VectorField { .. } => seq![128u8, 128u8, 0u8, 255u8],
            _ => seq![0u8, 0u8, 0u8, 255u8],
        }
    }

    /// Whether a channel tells the places on the grid from those off it. A scalar
    /// over all bits leaves no channel for it.
    pub fn has_mask(&self) -> (r: bool)
        ensures
            r == !(*self is Scalar24),
    {
        match self {
            ColorEncoding::Scalar24 { .. } => false,
            _ => true,
        }
    }

    /// The pixel written where the grid has no value.
    ///
    /// Always opaque. For a vector field the components also sit at zero, so a
    /// client that ignores the mask sees calm air rather than a hard edge of
    /// maximum wind.
    pub fn off_grid(&self) -> (pixel: [u8; 4])
        ensures
            pixel@ == self.gap(),
    {
        let pixel: [u8; 4] = match self {
            ColorEncoding::Scalar24 { .. } => [0, 0, 0, 255],
            ColorEncoding::Scalar16 { .. } => [0, 0, 0, 255],
            ColorEncoding::VectorField { .. } => [128, 128, 0, 255],
        };
        assert(pixel@ =~= self.gap());
        pixel
    }

    /// The codes are ones that the channels of the encoding can hold.
    pub open spec fn holds(self, codes: Seq<u32>) -> bool {
        match self {
            ColorEncoding::Scalar24 { .. } => codes[0] < 0x100_0000,
            ColorEncoding::Scalar16 { .. } => codes[0] < 0x1_0000,
            ColorEncoding::VectorField { .. } => codes[0] < 256 && codes[1] < 256,
        }
    }

    /// One of the values that the encoding reads is no number.
    pub open spec fn lacks(self, values: Seq<u64>) -> bool {
        is_nan(values[0]) || (self is VectorField && is_nan(values[1]))
    }

    /// The codes in the channels of a pixel.
    pub open spec fn packed(self, codes: Seq<u32>) -> Seq<u8> {
        match self {
            ColorEncoding::Scalar24 { .. } => seq![
                (codes[0] / 0x1_0000) as u8,
                (codes[0] / 0x100 % 0x100) as u8,
                (codes[0] % 0x100) as u8,
                255u8,
            ],
            ColorEncoding::Scalar16 { .. } => seq![
                (codes[0] / 0x100) as u8,
                (codes[0] % 0x100) as u8,
                255u8,
                255u8,
            ],
            ColorEncoding::VectorField { .. } => seq![codes[0] as u8, codes[1] as u8, 255u8, 255u8],
        }
    }

    /// Encodes the codes of one grid cell, unless a value that they come from is
    /// no number.
    pub fn encode(&self, values: [u64; 2], codes: [u32; 2]) -> (pixel: [u8; 4])
        requires
            self.lacks(values@) || self.holds(codes@),
        ensures
            pixel@ == if self.lacks(values@) {
                self.gap()
            } else {
                self.packed(codes@)
            },
    {
        let second = match self {
            ColorEncoding::VectorField { .. } => nan(values[1]),
            _ => false,
        };
        if nan(values[0]) || second {
            return self.off_grid();
        }
        let pixel: [u8; 4] = match self {
            ColorEncoding::Scalar24 { .. } => [
                (codes[0] / 0x1_0000) as u8,
                (codes[0] / 0x100 % 0x100) as u8,
                (codes[0] % 0x100) as u8,
                255,
            ],
            ColorEncoding::Scalar16 { .. } => [
                (codes[0] / 0x100) as u8,
                (codes[0] % 0x100) as u8,
                255,
                255,
            ],
            ColorEncoding::VectorField { .. } => [codes[0] as u8, codes[1] as u8, 255, 255],
        };
        assert(pixel@ =~= self.packed(codes@));
        pixel
    }

    /// The code that a client puts together from the channels of a scalar.
    pub open spec fn unpacked(self, pixel: Seq<u8>) -> Seq<int> {
        match self {
            ColorEncoding::Scalar24 { .. } => seq![
                pixel[0] * 0x1_0000 + pixel[1] * 0x100 + pixel[2],
            ],
            ColorEncoding::Scalar16 { .. } => seq![pixel[0] * 0x100 + pixel[1]],
            ColorEncoding::VectorField { .. } => seq![pixel[0] as int, pixel[1] as int],
        }
    }

    /// Codes survive the way through a pixel.
    pub proof fn lemma_codes_survive(self, codes: Seq<u32>)
        requires
            codes.len() == 2,
            self.holds(codes),
        ensures
            self.unpacked(self.packed(codes)) == codes.take(self.band_count()).map_values(
                |c: u32| c as int,
            ),
    {
        assert(self.unpacked(self.packed(codes)) =~= codes.take(self.band_count()).map_values(
            |c: u32| c as int,
        ));
    }

    /// Every pixel is opaque, so that alpha cannot be premultiplied away; and a
    /// masked encoding tells a value from a gap by its blue channel.
    pub proof fn lemma_opaque_and_masked(self, codes: Seq<u32>)
        requires
            codes.len() == 2,
            self.holds(codes),
        ensures
            self.gap()[3] == 255,
            self.packed(codes)[3] == 255,
            !(self is Scalar24) ==> self.gap()[2] == 0 && self.packed(codes)[2] == 255,
    {
    }
}

/// What a request comes to. An encoding is made of the numbers as they stand in the
/// request, the first before the second, under the name it was asked for by; its limit
/// or its interval is above zero, its range increases, and none of its numbers is
/// infinite. Every such request is served. Of the others the fault is named that comes
/// first: the name, then the first part that is no number, then how many there are, then
/// whether all are finite, then the rule of the encoding.
pub proof fn lemma_request(name: Seq<char>, numbers: Seq<Option<u64>>)
    ensures
        match encoding_of(name, numbers) {
            Ok(ColorEncoding::VectorField { component_limit }) => {
                &&& name == "vector-field"@
                &&& numbers == seq![Some(component_limit)]
                &&& 0 < component_limit < 0x7ff0_0000_0000_0000
            },
            Ok(ColorEncoding::Scalar16 { min, max }) => {
                &&& name == "scalar16"@
                &&& numbers == seq![Some(min), Some(max)]
                &&& is_finite(min) && is_finite(max) && is_less(min, max)
            },
            Ok(ColorEncoding::Scalar24 { base, interval }) => {
                &&& name == "scalar24"@
                &&& numbers == seq![Some(base), Some(interval)]
                &&& is_finite(base) && 0 < interval < 0x7ff0_0000_0000_0000
            },
            Err(RequestFault::Unknown) => {
                name != "vector-field"@ && name != "scalar16"@ && name != "scalar24"@
            },
            Err(RequestFault::NotANumber(i)) => {
                &&& name == "vector-field"@ || name == "scalar16"@ || name == "scalar24"@
                &&& 0 <= i < numbers.len() && numbers[i] is None
                &&& forall|k: int| 0 <= k < i ==> (#[trigger] numbers[k]) is Some
            },
            Err(RequestFault::ParameterCount(expected)) => {
                &&& name == "vector-field"@ && expected == 1 || (name == "scalar16"@ || name
                    == "scalar24"@) && expected == 2
                &&& numbers.len() != expected
                &&& forall|k: int| 0 <= k < numbers.len() ==> (#[trigger] numbers[k]) is Some
            },
            Err(RequestFault::NotFinite) => exists|k: int|
                0 <= k < numbers.len() && (#[trigger] numbers[k]) is Some && !is_finite(
                    numbers[k]->0,
                ),
            Err(RequestFault::Limit) => name == "vector-field"@ && !is_less(0, numbers[0]->0),
            Err(RequestFault::Range) => name == "scalar16"@ && !is_less(
                numbers[0]->0,
                numbers[1]->0,
            ),
            Err(RequestFault::Interval) => name == "scalar24"@ && !is_less(0, numbers[1]->0),
        },
        name == "vector-field"@ && numbers.len() == 1 && numbers[0] is Some && 0 < numbers[0]->0
            < 0x7ff0_0000_0000_0000 ==> encoding_of(name, numbers) == Ok::<_, RequestFault>(
            ColorEncoding::VectorField { component_limit: numbers[0]->0 },
        ),
        name == "scalar16"@ && numbers.len() == 2 && numbers[0] is Some && numbers[1] is Some
            && is_finite(numbers[0]->0) && is_finite(numbers[1]->0) && is_less(
            numbers[0]->0,
            numbers[1]->0,
        ) ==> encoding_of(name, numbers) == Ok::<_, RequestFault>(
            ColorEncoding::Scalar16 { min: numbers[0]->0, max: numbers[1]->0 },
        ),
        name == "scalar24"@ && numbers.len() == 2 && numbers[0] is Some && numbers[1] is Some
            && is_finite(numbers[0]->0) && 0 < numbers[1]->0 < 0x7ff0_0000_0000_0000
            ==> encoding_of(name, numbers) == Ok::<_, RequestFault>(
            ColorEncoding::Scalar24 { base: numbers[0]->0, interval: numbers[1]->0 },
        ),
{
    reveal_strlit("vector-field");
    reveal_strlit("scalar16");
    reveal_strlit("scalar24");
    assert("vector-field"@.len() == 12 && "scalar16"@.len() == 8 && "scalar24"@.len() == 8);
    assert("scalar16"@[6] != "scalar24"@[6]);
    lemma_first_bad_place(numbers);
    if first_bad(numbers) >= numbers.len() {
        if numbers.len() == 1 {
            assert(numbers[0] is Some);
            assert(numbers =~= seq![Some(numbers[0]->0)]);
        }
        if numbers.len() == 2 {
            assert(numbers[0] is Some && numbers[1] is Some);
            assert(numbers =~= seq![Some(numbers[0]->0), Some(numbers[1]->0)]);
        }
    }
}

proof fn lemma_first_bad_place(numbers: Seq<Option<u64>>)
    ensures
        0 <= first_bad(numbers) <= numbers.len(),
        forall|k: int| 0 <= k < first_bad(numbers) ==> (#[trigger] numbers[k]) is Some,
        first_bad(numbers) < numbers.len() ==> numbers[first_bad(numbers)] is None,
    decreases numbers.len(),
{
    if numbers.len() > 0 && numbers[0] is Some {
        let rest = numbers.skip(1);
        lemma_first_bad_place(rest);
        assert forall|k: int| 0 <= k < first_bad(numbers) implies (#[trigger] numbers[k]) is Some by {
            if k > 0 {
                assert(rest[k - 1] == numbers[k]);
            }
        }
    }
}

/// The parameters of a request are the parts behind the colon that hold more than white
/// space, in their order.
pub proof fn lemma_filled(parts: Seq<Seq<char>>)
    ensures
        filled_parts(parts) == parts.filter(|part: Seq<char>| trimmed(part).len() > 0),
    decreases parts.len(),
{
    reveal(Seq::filter);
    if parts.len() > 0 {
        lemma_filled(parts.drop_last());
    }
}

/// The channels of a pixel. A scalar over all bits is read from red, green and blue, the
/// highest byte first; a scalar in two bytes from red and green, with blue full; a vector
/// has its eastward part in red and its northward part in green, with blue full. Where
/// there is no value blue is empty, and so are red and green but for a vector, whose
/// components stand in the middle.
pub proof fn lemma_channels(encoding: ColorEncoding, codes: Seq<u32>)
    requires
        codes.len() == 2,
    ensures
        encoding is Scalar24 ==> (encoding.holds(codes) <==> codes[0] <= 0xff_ffff),
        encoding is Scalar16 ==> (encoding.holds(codes) <==> codes[0] <= 0xffff),
        encoding is VectorField ==> (encoding.holds(codes) <==> codes[0] <= 0xff && codes[1]
            <= 0xff),
        encoding.packed(codes).len() == 4 && encoding.gap().len() == 4,
        encoding.packed(codes)[3] == 255 && encoding.gap()[3] == 255,
        encoding.holds(codes) && encoding is Scalar24 ==> encoding.packed(codes)[0] * 65536
            + encoding.packed(codes)[1] * 256 + encoding.packed(codes)[2] == codes[0],
        encoding.holds(codes) && encoding is Scalar16 ==> encoding.packed(codes)[0] * 256
            + encoding.packed(codes)[1] == codes[0] && encoding.packed(codes)[2] == 255,
        encoding.holds(codes) && encoding is VectorField ==> encoding.packed(codes)[0] == codes[0]
            && encoding.packed(codes)[1] == codes[1] && encoding.packed(codes)[2] == 255,
        encoding is VectorField ==> encoding.gap()[0] == 128 && encoding.gap()[1] == 128,
        !(encoding is VectorField) ==> encoding.gap()[0] == 0 && encoding.gap()[1] == 0,
        encoding.gap()[2] == 0,
{
}

/// What an encoding reads. A vector field takes two bands, `u` and then `v`; a scalar
/// takes one, under any name. A value is missing where one that is read is no number.
pub proof fn lemma_bands_read(encoding: ColorEncoding, names: Seq<Seq<char>>, values: Seq<u64>)
    ensures
        encoding.band_count() == if encoding is VectorField {
            2int
        } else {
            1int
        },
        encoding is VectorField ==> (encoding.means(names) <==> names == seq!["u"@, "v"@]),
        !(encoding is VectorField) ==> (encoding.means(names) <==> names.len() == 1),
        encoding.lacks(values) <==> is_nan(values[0]) || (encoding.band_count() == 2 && is_nan(
            values[1],
        )),
{
    if names.len() == 2 && names[0] == "u"@ && names[1] == "v"@ {
        assert(names =~= seq!["u"@, "v"@]);
    }
}

/// What an encoding can hold: a scalar over all bits the codes from zero to the greatest
/// of three bytes, a scalar in two bytes the values of its range with both of its ends,
/// and a vector the components that lie no further from zero than its limit, on either
/// side. An infinite value is never held.
pub proof fn lemma_range_held(encoding: ColorEncoding, values: Seq<u64>, code: u64)
    ensures
        match encoding {
            ColorEncoding::Scalar24 { .. } => !encoding.saturates(values, code) <==> (code
                <= 0x416f_ffff_e000_0000 || code == 0x8000_0000_0000_0000),
            ColorEncoding::Scalar16 { min, max } => !encoding.saturates(values, code) <==> (
            is_finite(values[0]) && !is_less(values[0], min) && !is_less(max, values[0])),
            ColorEncoding::VectorField { component_limit } => {
                &&& is_finite(component_limit) && component_limit < 0x8000_0000_0000_0000 ==> (
                !encoding.saturates(values, code) <==> values[0] % 0x8000_0000_0000_0000
                    <= component_limit && values[1] % 0x8000_0000_0000_0000 <= component_limit)
                &&& !encoding.saturates(values, code) ==> is_finite(values[0]) && is_finite(
                    values[1],
                )
            },
        },
{
}

/// How a request that cannot be served is reported: a part that is no number as it was
/// written, a wrong count by how many there have to be and how many there are, and all
/// else by the name of the encoding.
pub proof fn lemma_request_report(
    error: RequestError,
    fault: RequestFault,
    name: Seq<char>,
    parts: Seq<Seq<char>>,
)
    requires
        reports_request(error, fault, name, parts),
    ensures
        match fault {
            RequestFault::NotANumber(i) => error is NotANumber && error->part@ == parts[i],
            RequestFault::ParameterCount(expected) => error is ParameterCount
                && error->ParameterCount_name@ == name && error->expected == expected
                && error->given == parts.len(),
            RequestFault::NotFinite => error is NotFinite && error->NotFinite_name@ == name,
            RequestFault::Limit => error is Limit && error->Limit_name@ == name,
            RequestFault::Range => error is Range && error->Range_name@ == name,
            RequestFault::Interval => error is Interval && error->Interval_name@ == name,
            RequestFault::Unknown => error is Unknown && error->Unknown_name@ == name,
        },
{
}

/// A request is taken apart at its first colon: the name stands before it, and the
/// parameters behind it, between commas. Without a colon there is a name alone.
pub proof fn lemma_encoding_request(name: Seq<char>, behind: Seq<char>)
    requires
        !name.contains(':'),
    ensures
        encoding_name(name) == name,
        encoding_parts(name).len() == 0,
        encoding_name(name + seq![':'] + behind) == name,
        encoding_parts(name + seq![':'] + behind) == split_parts(behind, ',').filter(
            |part: Seq<char>| trimmed(part).len() > 0,
        ),
{
    let spec = name + seq![':'] + behind;
    lemma_first_place_found(name, ':');
    lemma_first_place_found(spec, ':');
    let i = first_place(spec, ':');
    if i < name.len() {
        assert(spec[i] == name[i]);
    } else if i > name.len() {
        assert(spec[name.len() as int] != ':');
    }
    assert(spec.take(i) =~= name);
    assert(spec.skip(i + 1) =~= behind);
    lemma_filled(split_parts(behind, ','));
}

} // verus!
