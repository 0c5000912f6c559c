//! What an archive says of itself, and the index of a set of archives.

use vstd::prelude::*;

use vstd::string::StringExecFns;

use crate::calendar::{in_calendar, rfc3339_time, rfc3339_time_text};
use crate::conversion::TileOutput;
use crate::descriptor::Coefficients;
use crate::json::{items_view, text_view, with_member, Json, JsonView, Members};
use crate::lattice::lower;
use crate::model::{BandSpec, FixedSurface, PreparedProduct, Quantization};
use crate::paths::{all_dated, destination, relative_url, url_of, Step};
use crate::range::{Extremes, RangeReport};
use crate::raster::{ColorEncoding, IMAGE_EXTENT, TILE_BUFFER, TILE_EXTENT};

verus! {

/// Version of the `raster_encoding` object.
///
/// Bumped whenever a client that understood the previous shape would read this
/// one wrongly rather than merely miss something.
pub const RASTER_ENCODING_SCHEMA_VERSION: u32 = 1;

/// What floating-point arithmetic makes of a raster encoding and of a product:
/// the coefficients of the decode rule, and the value of the level where the
/// surface has one.
#[derive(Clone, Copy, Debug)]
pub struct Figures {
    pub coefficients: Coefficients,
    pub level: u64,
}

/// A report on the range of a product, with the share of clipped values in
/// percent.
#[derive(Debug)]
pub struct MeasuredRange {
    pub report: RangeReport,
    pub clipped_share: u64,
}

/// A list of numbers.
pub open spec fn doubles_view(values: Seq<u64>) -> JsonView {
    JsonView::List(values.map_values(|v: u64| JsonView::Double(v)))
}

fn doubles(values: &Vec<u64>) -> (list: Json)
    ensures
        list@ == doubles_view(values@),
{
    let mut items: Vec<Json> = Vec::new();
    let mut i: usize = 0;
    while i < values.len()
        invariant
            i <= values@.len(),
            items@.len() == i,
            forall|k: int| 0 <= k < i ==> (#[trigger] items@[k])@ == JsonView::Double(values@[k]),
        decreases values@.len() - i,
    {
        items.push(Json::Double(values[i]));
        i = i + 1;
    }
    assert(items_view(items@) =~= doubles_view(values@)->List_0);
    Json::list(items)
}

fn bounds_list(bounds: [u64; 4]) -> (list: Json)
    ensures
        list@ == doubles_view(bounds@),
{
    let mut items: Vec<Json> = Vec::new();
    items.push(Json::Double(bounds[0]));
    items.push(Json::Double(bounds[1]));
    items.push(Json::Double(bounds[2]));
    items.push(Json::Double(bounds[3]));
    assert(items_view(items@) =~= doubles_view(bounds@)->List_0);
    Json::list(items)
}

/// A surface that has a name alone.
pub open spec fn plain_level(name: Seq<char>) -> JsonView {
    JsonView::Object(seq![("type"@, text_view(name))])
}

/// A surface at some value of a unit.
pub open spec fn valued_level(name: Seq<char>, value: u64, unit: Seq<char>) -> JsonView {
    JsonView::Object(
        seq![
            ("type"@, text_view(name)),
            ("value"@, JsonView::Double(value)),
            ("unit"@, text_view(unit)),
        ],
    )
}

/// The level the field sits on.
pub open spec fn level_view(surface: FixedSurface, value: u64) -> JsonView {
    match surface {
        FixedSurface::Unspecified => JsonView::Null,
        FixedSurface::Surface => plain_level("surface"@),
        FixedSurface::Msl => plain_level("mean-sea-level"@),
        FixedSurface::Altitude(_, _) => valued_level("height"@, value, "m"@),
        FixedSurface::IsobaricSurface(_, _) => valued_level("isobaric"@, value, "Pa"@),
        FixedSurface::DepthBelowSeaLevel(_, _) => valued_level(
            "depth-below-sea-level"@,
            value,
            "m"@,
        ),
        FixedSurface::CloudTops => plain_level("cloud-tops"@),
        FixedSurface::TankTotal => plain_level("tank-total"@),
        FixedSurface::Tank(number) => JsonView::Object(
            seq![("type"@, text_view("tank"@)), ("value"@, JsonView::Int(number as int))],
        ),
    }
}

fn plain(name: &str) -> (level: Json)
    ensures
        level@ == plain_level(name@),
{
    let mut members = Members::new();
    members.add("type", Json::text(name));
    assert(members@ =~= plain_level(name@)->Object_0);
    Json::object(members)
}

fn valued(name: &str, value: u64, unit: &str) -> (level: Json)
    ensures
        level@ == valued_level(name@, value, unit@),
{
    let mut members = Members::new();
    members.add("type", Json::text(name));
    members.add("value", Json::Double(value));
    members.add("unit", Json::text(unit));
    assert(members@ =~= valued_level(name@, value, unit@)->Object_0);
    Json::object(members)
}

/// The level the field sits on, as GRIB2 recorded it. Its value, where it has
/// one, is given with its scale factor applied.
///
/// A client showing wind has to know whether it is looking at the surface or at
/// 850 hPa, and nothing else in the archive says so.
pub fn level_descriptor(surface: FixedSurface, value: u64) -> (level: Json)
    ensures
        level@ == level_view(surface, value),
{
    match surface {
        FixedSurface::Unspecified => Json::Null,
        FixedSurface::Surface => plain("surface"),
        FixedSurface::Msl => plain("mean-sea-level"),
        FixedSurface::Altitude(_, _) => valued("height", value, "m"),
        FixedSurface::IsobaricSurface(_, _) => valued("isobaric", value, "Pa"),
        FixedSurface::DepthBelowSeaLevel(_, _) => valued("depth-below-sea-level", value, "m"),
        FixedSurface::CloudTops => plain("cloud-tops"),
        FixedSurface::TankTotal => plain("tank-total"),
        FixedSurface::Tank(number) => {
            let mut members = Members::new();
            members.add("type", Json::text("tank"));
            members.add("value", Json::Int(number as i128));
            assert(members@ =~= level_view(surface, value)->Object_0);
            Json::object(members)
        },
    }
}

/// Some band of the product is quantized.
pub open spec fn is_quantized(product: PreparedProduct) -> bool {
    exists|i: int|
        0 <= i < product.spec.quantize@.len() && (#[trigger] product.spec.quantize@[i]) is Some
}

fn has_classes(product: &PreparedProduct) -> (r: bool)
    ensures
        r == is_quantized(*product),
{
    let mut i: usize = 0;
    while i < product.spec.quantize.len()
        invariant
            i <= product.spec.quantize@.len(),
            forall|k: int| 0 <= k < i ==> (#[trigger] product.spec.quantize@[k]) is None,
        decreases product.spec.quantize@.len() - i,
    {
        if product.spec.quantize[i].is_some() {
            return true;
        }
        i = i + 1;
    }
    false
}

/// How the tile has to be uploaded and sampled.
pub open spec fn sampling_view(product: PreparedProduct) -> JsonView {
    JsonView::Object(
        seq![
            ("sample_space"@, text_view("normalized-texel"@)),
            ("texture_format"@, text_view("rgba8unorm"@)),
            (
                "filter"@,
                text_view(
                    if is_quantized(product) {
                        "nearest"@
                    } else {
                        "linear"@
                    },
                ),
            ),
            ("color_space_conversion"@, text_view("none"@)),
            ("premultiply_alpha"@, JsonView::Bool(false)),
            ("mipmaps"@, JsonView::Bool(false)),
        ],
    )
}

/// How the tile has to be uploaded and sampled for the decode rule to hold.
///
/// These are not suggestions. A colour-space conversion rewrites every channel,
/// premultiplication zeroes the channels of a transparent pixel, and mipmaps
/// average codes across zoom levels; each destroys the values outright, and
/// none of them announces itself. Quantized values are class indices, and the
/// classes between two of them do not exist. Filtering would invent them, so
/// such a tile has to be read back exactly as it was written.
pub fn sampling_contract(product: &PreparedProduct) -> (contract: Json)
    ensures
        contract@ == sampling_view(*product),
{
    let mut members = Members::new();
    members.add("sample_space", Json::text("normalized-texel"));
    members.add("texture_format", Json::text("rgba8unorm"));
    if has_classes(product) {
        members.add("filter", Json::text("nearest"));
    } else {
        members.add("filter", Json::text("linear"));
    }
    members.add("color_space_conversion", Json::text("none"));
    members.add("premultiply_alpha", Json::Bool(false));
    members.add("mipmaps", Json::Bool(false));
    assert(members@ =~= sampling_view(*product)->Object_0);
    Json::object(members)
}

/// Whether the pixels of a tile are interpolated between the nodes of the grid. They
/// are exactly where the metadata asks a client for a linear filter: the values
/// between two classes are not values at all.
pub fn interpolates(product: &PreparedProduct) -> (r: bool)
    ensures
        r == !is_quantized(*product),
        r <==> filter_of(sampling_view(*product)) == Some(text_view("linear"@)),
        !r <==> filter_of(sampling_view(*product)) == Some(text_view("nearest"@)),
{
    let r = !has_classes(product);
    proof {
        lemma_filter(*product);
    }
    r
}

/// The filter that a sampling contract asks for.
pub open spec fn filter_of(contract: JsonView) -> Option<JsonView> {
    match contract {
        JsonView::Object(members) => member_of(members, "filter"@),
        _ => None,
    }
}

/// The first member of a name.
pub open spec fn member_of(members: Seq<(Seq<char>, JsonView)>, name: Seq<char>) -> Option<JsonView>
    decreases members.len(),
{
    if members.len() == 0 {
        None
    } else if members[0].0 == name {
        Some(members[0].1)
    } else {
        member_of(members.skip(1), name)
    }
}

proof fn lemma_filter(product: PreparedProduct)
    ensures
        filter_of(sampling_view(product)) == Some(
            text_view(
                if is_quantized(product) {
                    "nearest"@
                } else {
                    "linear"@
                },
            ),
        ),
        text_view("nearest"@) != text_view("linear"@),
{
    reveal_strlit("filter");
    reveal_strlit("sample_space");
    reveal_strlit("texture_format");
    reveal_strlit("nearest");
    reveal_strlit("linear");
    reveal_with_fuel(member_of, 4);
    assert("sample_space"@.len() != "filter"@.len());
    assert("texture_format"@.len() != "filter"@.len());
    assert("nearest"@.len() != "linear"@.len());
}

/// The names of the first bands as a list.
pub open spec fn names_view(bands: Seq<BandSpec>, count: int) -> JsonView {
    JsonView::List(Seq::new(count as nat, |i: int| text_view(bands[i].name@)))
}

fn name_list(bands: &Vec<BandSpec>, count: usize) -> (list: Json)
    requires
        count <= bands@.len(),
    ensures
        list@ == names_view(bands@, count as int),
{
    let mut items: Vec<Json> = Vec::new();
    let mut i: usize = 0;
    while i < count
        invariant
            i <= count <= bands@.len(),
            items@.len() == i,
            forall|k: int| 0 <= k < i ==> (#[trigger] items@[k])@ == text_view(bands@[k].name@),
        decreases count - i,
    {
        items.push(Json::text(bands[i].name.as_str()));
        i = i + 1;
    }
    assert(items_view(items@) =~= names_view(bands@, count as int)->List_0);
    Json::list(items)
}

/// Which way each component points.
pub open spec fn components_view() -> JsonView {
    JsonView::List(seq![text_view("eastward"@), text_view("northward"@)])
}

/// Everything a client needs to decode a raster tile, save what differs between
/// forecast times.
pub open spec fn encoding_members(
    product: Option<PreparedProduct>,
    encoding: ColorEncoding,
    figures: Figures,
) -> Seq<(Seq<char>, JsonView)> {
    encoding.description(figures.coefficients) + seq![
        ("schema_version"@, JsonView::Int(RASTER_ENCODING_SCHEMA_VERSION as int)),
        ("container"@, text_view("png"@)),
        ("tile_size"@, JsonView::Int(TILE_EXTENT as int)),
        ("buffer"@, JsonView::Int(TILE_BUFFER as int)),
        ("image_size"@, JsonView::Int(IMAGE_EXTENT as int)),
    ] + match product {
        Some(product) => seq![
            ("bands"@, names_view(product.spec.band_specs@, encoding.band_count())),
            ("sampling"@, sampling_view(product)),
            ("level"@, level_view(product.product_id.surface, figures.level)),
        ],
        None => Seq::empty(),
    } + match encoding {
        ColorEncoding::VectorField { .. } => seq![
            ("components"@, components_view()),
            ("units"@, text_view("m/s"@)),
        ],
        _ => Seq::empty(),
    }
}

/// Everything a client needs to decode a raster tile, save what differs
/// between forecast times.
///
/// Shared by the archive metadata and by the manifest an animation reads: a
/// client blending two times has to configure its decode and its texture
/// coordinates before opening any archive, so the manifest cannot carry a
/// summary of this and expect the client to find the rest.
pub fn raster_encoding(
    product: Option<&PreparedProduct>,
    encoding: ColorEncoding,
    figures: Figures,
) -> (members: Members)
    requires
        product matches Some(p) ==> p.spec.band_specs@.len() >= encoding.band_count(),
    ensures
        members@ == encoding_members(
            match product {
                Some(p) => Some(*p),
                None => None,
            },
            encoding,
            figures,
        ),
{
    let mut members = encoding.descriptor(figures.coefficients);
    members.add("schema_version", Json::Int(RASTER_ENCODING_SCHEMA_VERSION as i128));
    members.add("container", Json::text("png"));
    members.add("tile_size", Json::Int(TILE_EXTENT as i128));
    members.add("buffer", Json::Int(TILE_BUFFER as i128));
    members.add("image_size", Json::Int(IMAGE_EXTENT as i128));
    if let Some(product) = product {
        members.add("bands", name_list(&product.spec.band_specs, encoding.bands()));
        members.add("sampling", sampling_contract(product));
        members.add("level", level_descriptor(product.product_id.surface, figures.level));
    }
    if let ColorEncoding::VectorField { .. } = encoding {
        let mut components: Vec<Json> = Vec::new();
        components.push(Json::text("eastward"));
        components.push(Json::text("northward"));
        assert(items_view(components@) =~= components_view()->List_0);
        members.add("components", Json::list(components));
        members.add("units", Json::text("m/s"));
    }
    assert(members@ =~= encoding_members(
        match product {
            Some(p) => Some(*p),
            None => None,
        },
        encoding,
        figures,
    ));
    members
}

/// The extremes of a band.
pub open spec fn extremes_view(extremes: Option<Extremes>) -> JsonView {
    match extremes {
        Some(e) => JsonView::Object(
            seq![("min"@, JsonView::Double(e.low)), ("max"@, JsonView::Double(e.high))],
        ),
        None => JsonView::Null,
    }
}

fn extremes_json(extremes: Option<Extremes>) -> (value: Json)
    ensures
        value@ == extremes_view(extremes),
{
    match extremes {
        Some(e) => {
            let mut members = Members::new();
            members.add("min", Json::Double(e.low));
            members.add("max", Json::Double(e.high));
            assert(members@ =~= extremes_view(extremes)->Object_0);
            Json::object(members)
        },
        None => Json::Null,
    }
}

/// What the source values were, beside the range the archive can hold.
pub open spec fn range_view(range: MeasuredRange, encoding: ColorEncoding) -> JsonView {
    JsonView::Object(
        seq![
            (
                "bands"@,
                JsonView::List(
                    range.report.extremes@.take(encoding.band_count()).map_values(
                        |e: Option<Extremes>| extremes_view(e),
                    ),
                ),
            ),
            ("values"@, JsonView::Int(range.report.total as int)),
            ("clipped_count"@, JsonView::Int(range.report.clipped as int)),
            ("clipped_share_percent"@, JsonView::Double(range.clipped_share)),
        ],
    )
}

/// What the source values were, beside the range the archive can hold.
///
/// Saturation cannot be seen in the tiles: a value above the limit is written
/// as the limit, and reads back as a real measurement. Recording the extremes
/// lets a reader tell one from the other, and lets the next run pick a range
/// that holds them.
pub fn range_report(range: &MeasuredRange, encoding: ColorEncoding) -> (value: Json)
    ensures
        value@ == range_view(*range, encoding),
{
    let mut bands: Vec<Json> = Vec::new();
    bands.push(extremes_json(range.report.extremes[0]));
    if encoding.bands() == 2 {
        bands.push(extremes_json(range.report.extremes[1]));
    }
    proof {
        assert(items_view(bands@) =~= range.report.extremes@.take(encoding.band_count()).map_values(
            |e: Option<Extremes>| extremes_view(e),
        ));
    }
    let mut members = Members::new();
    members.add("bands", Json::list(bands));
    members.add("values", Json::Int(range.report.total as i128));
    members.add("clipped_count", Json::Int(range.report.clipped as i128));
    members.add("clipped_share_percent", Json::Double(range.clipped_share));
    assert(members@ =~= range_view(*range, encoding)->Object_0);
    Json::object(members)
}

/// The fields of a layer: a number for each band.
pub open spec fn fields_view(bands: Seq<BandSpec>) -> Seq<(Seq<char>, JsonView)>
    decreases bands.len(),
{
    if bands.len() == 0 {
        Seq::empty()
    } else {
        with_member(fields_view(bands.drop_last()), bands.last().name@, text_view("Number"@))
    }
}

/// What is said of a layer.
pub open spec fn layer_view(
    name: Seq<char>,
    product: PreparedProduct,
    min_zoom: u8,
    max_zoom: u8,
) -> JsonView {
    JsonView::Object(
        seq![
            ("id"@, text_view(name)),
            ("minzoom"@, JsonView::Int(min_zoom as int)),
            ("maxzoom"@, JsonView::Int(max_zoom as int)),
            ("fields"@, JsonView::Object(fields_view(product.spec.band_specs@))),
        ],
    )
}

fn layer_json(name: &String, product: &PreparedProduct, min_zoom: u8, max_zoom: u8) -> (value: Json)
    ensures
        value@ == layer_view(name@, *product, min_zoom, max_zoom),
{
    let bands = &product.spec.band_specs;
    let mut fields = Members::new();
    let mut i: usize = 0;
    proof {
        assert(bands@.take(0) =~= Seq::empty());
    }
    while i < bands.len()
        invariant
            i <= bands@.len(),
            fields@ == fields_view(bands@.take(i as int)),
        decreases bands@.len() - i,
    {
        proof {
            assert(bands@.take(i + 1).drop_last() =~= bands@.take(i as int));
            assert(bands@.take(i + 1).last() == bands@[i as int]);
        }
        fields.insert(bands[i].name.as_str(), Json::text("Number"));
        i = i + 1;
    }
    assert(bands@.take(bands@.len() as int) =~= bands@);
    let mut members = Members::new();
    members.add("id", Json::text(name.as_str()));
    members.add("minzoom", Json::Int(min_zoom as i128));
    members.add("maxzoom", Json::Int(max_zoom as i128));
    members.add("fields", Json::object(fields));
    assert(members@ =~= layer_view(name@, *product, min_zoom, max_zoom)->Object_0);
    Json::object(members)
}

/// What is said of all the layers. A product without a name, or a name without a
/// product, has no layer.
pub open spec fn layers_view(
    products: Seq<PreparedProduct>,
    names: Seq<String>,
    min_zoom: u8,
    max_zoom: u8,
) -> JsonView {
    let count = lower(products.len() as int, names.len() as int);
    JsonView::List(
        Seq::new(count as nat, |i: int| layer_view(names[i]@, products[i], min_zoom, max_zoom)),
    )
}

fn layer_list(
    products: &Vec<PreparedProduct>,
    names: &Vec<String>,
    min_zoom: u8,
    max_zoom: u8,
) -> (list: Json)
    ensures
        list@ == layers_view(products@, names@, min_zoom, max_zoom),
{
    let mut items: Vec<Json> = Vec::new();
    let mut i: usize = 0;
    while i < products.len() && i < names.len()
        invariant
            i <= products@.len(),
            i <= names@.len(),
            items@.len() == i,
            forall|k: int|
                0 <= k < i ==> (#[trigger] items@[k])@ == layer_view(
                    names@[k]@,
                    products@[k],
                    min_zoom,
                    max_zoom,
                ),
        decreases products@.len() - i,
    {
        items.push(layer_json(&names[i], &products[i], min_zoom, max_zoom));
        i = i + 1;
    }
    assert(items_view(items@) =~= layers_view(products@, names@, min_zoom, max_zoom)->List_0);
    Json::list(items)
}

/// How a band is quantized.
pub open spec fn classes_view(quantize: Quantization, omitted: Option<Vec<u64>>) -> JsonView {
    JsonView::Object(
        seq![
            ("bounds"@, doubles_view(quantize.bounds@)),
            ("outputs"@, doubles_view(quantize.outputs@)),
            (
                "omitted_classes"@,
                match omitted {
                    Some(values) => doubles_view(values@),
                    None => JsonView::List(Seq::empty()),
                },
            ),
        ],
    )
}

fn classes_json(quantize: &Quantization, omitted: &Option<Vec<u64>>) -> (value: Json)
    ensures
        value@ == classes_view(*quantize, *omitted),
{
    let mut members = Members::new();
    members.add("bounds", doubles(&quantize.bounds));
    members.add("outputs", doubles(&quantize.outputs));
    match omitted {
        Some(values) => {
            members.add("omitted_classes", doubles(values));
        },
        None => {
            let none: Vec<Json> = Vec::new();
            assert(items_view(none@) =~= Seq::empty());
            members.add("omitted_classes", Json::list(none));
        },
    }
    assert(members@ =~= classes_view(*quantize, *omitted)->Object_0);
    Json::object(members)
}

/// How the first `n` bands are quantized, as far as they are.
pub open spec fn quantization_view(product: PreparedProduct, n: int) -> Seq<(Seq<char>, JsonView)>
    decreases n,
{
    if n <= 0 {
        Seq::empty()
    } else {
        let before = quantization_view(product, n - 1);
        match product.spec.quantize@[n - 1] {
            Some(quantize) => with_member(
                before,
                product.spec.band_specs@[n - 1].name@,
                classes_view(quantize, product.spec.omit_class@[n - 1]),
            ),
            None => before,
        }
    }
}

/// Which input values of the first `n` bands are left out, where any are.
pub open spec fn omitted_view(product: PreparedProduct, n: int) -> Seq<(Seq<char>, JsonView)>
    decreases n,
{
    if n <= 0 {
        Seq::empty()
    } else {
        let before = omitted_view(product, n - 1);
        match product.spec.omit_zero@[n - 1] {
            Some(values) => with_member(
                before,
                product.spec.band_specs@[n - 1].name@,
                doubles_view(values@),
            ),
            None => before,
        }
    }
}

/// How many bands have a place among the quantizations and the omitted classes.
pub open spec fn classed_bands(product: PreparedProduct) -> int {
    lower(
        product.spec.band_specs@.len() as int,
        lower(product.spec.quantize@.len() as int, product.spec.omit_class@.len() as int),
    )
}

/// How many bands have a place among the omitted input values.
pub open spec fn screened_bands(product: PreparedProduct) -> int {
    lower(product.spec.band_specs@.len() as int, product.spec.omit_zero@.len() as int)
}

fn quantization_members(product: &PreparedProduct) -> (members: Members)
    ensures
        members@ == quantization_view(*product, classed_bands(*product)),
{
    let spec = &product.spec;
    let mut members = Members::new();
    let mut i: usize = 0;
    while i < spec.band_specs.len() && i < spec.quantize.len() && i < spec.omit_class.len()
        invariant
            i <= spec.band_specs@.len(),
            i <= spec.quantize@.len(),
            i <= spec.omit_class@.len(),
            *spec == product.spec,
            members@ == quantization_view(*product, i as int),
        decreases spec.band_specs@.len() - i,
    {
        if let Some(quantize) = &spec.quantize[i] {
            members.insert(
                spec.band_specs[i].name.as_str(),
                classes_json(quantize, &spec.omit_class[i]),
            );
        }
        i = i + 1;
    }
    members
}

fn omitted_members(product: &PreparedProduct) -> (members: Members)
    ensures
        members@ == omitted_view(*product, screened_bands(*product)),
{
    let spec = &product.spec;
    let mut members = Members::new();
    let mut i: usize = 0;
    while i < spec.band_specs.len() && i < spec.omit_zero.len()
        invariant
            i <= spec.band_specs@.len(),
            i <= spec.omit_zero@.len(),
            *spec == product.spec,
            members@ == omitted_view(*product, i as int),
        decreases spec.band_specs@.len() - i,
    {
        if let Some(values) = &spec.omit_zero[i] {
            members.insert(spec.band_specs[i].name.as_str(), doubles(values));
        }
        i = i + 1;
    }
    members
}

/// What an archive is, beside its products.
#[derive(Debug)]
pub struct MetadataOptions {
    pub min_zoom: u8,
    pub max_zoom: u8,
    pub output: TileOutput,
    pub sequence: Option<usize>,
    /// How the source values sat inside the encoding's range.
    pub range: Option<MeasuredRange>,
}

/// What every archive says of itself.
pub open spec fn common_view(
    name: Seq<char>,
    bounds: Seq<u64>,
    options: MetadataOptions,
) -> Seq<(Seq<char>, JsonView)> {
    seq![
        ("name"@, text_view(name)),
        ("description"@, text_view(""@)),
        (
            "format"@,
            text_view(
                match options.output {
                    TileOutput::Mvt => "pbf"@,
                    TileOutput::Raster(_) => "png"@,
                },
            ),
        ),
        ("type"@, text_view("overlay"@)),
        ("generator"@, text_view("grib2pmtiles"@)),
        ("version"@, text_view("1.0.0"@)),
        ("minzoom"@, JsonView::Int(options.min_zoom as int)),
        ("maxzoom"@, JsonView::Int(options.max_zoom as int)),
        ("bounds"@, doubles_view(bounds)),
    ]
}

/// What an archive of images says of its encoding, with the range of its own
/// forecast time.
pub open spec fn archive_encoding(
    product: Option<PreparedProduct>,
    encoding: ColorEncoding,
    figures: Figures,
    range: Option<MeasuredRange>,
) -> JsonView {
    JsonView::Object(
        encoding_members(product, encoding, figures) + match range {
            Some(range) => seq![("source_range"@, range_view(range, encoding))],
            None => Seq::empty(),
        },
    )
}

/// What an archive of images says of its product.
pub open spec fn product_view(product: PreparedProduct) -> Seq<(Seq<char>, JsonView)> {
    seq![
        ("product"@, text_view(product.spec.name@)),
        (
            "reference_time"@,
            text_view(rfc3339_time_text(product.product_id.reference_datetime as int)),
        ),
        ("valid_time"@, text_view(rfc3339_time_text(product.product_id.datetime as int))),
    ]
}

/// The first product.
pub open spec fn first_product(products: Seq<PreparedProduct>) -> Option<PreparedProduct> {
    if products.len() > 0 {
        Some(products[0])
    } else {
        None
    }
}

/// What only one kind of archive says.
pub open spec fn own_view(
    products: Seq<PreparedProduct>,
    names: Seq<String>,
    options: MetadataOptions,
    figures: Figures,
) -> Seq<(Seq<char>, JsonView)> {
    match options.output {
        TileOutput::Raster(encoding) => seq![
            (
                "raster_encoding"@,
                archive_encoding(first_product(products), encoding, figures, options.range),
            ),
        ] + match first_product(products) {
            Some(product) => product_view(product),
            None => Seq::empty(),
        } + match options.sequence {
            Some(sequence) => seq![("sequence"@, JsonView::Int(sequence as int))],
            None => Seq::empty(),
        },
        TileOutput::Mvt => seq![
            ("vector_layers"@, layers_view(products, names, options.min_zoom, options.max_zoom)),
        ],
    }
}

/// What is said of lossy steps, where there are any.
pub open spec fn losses_view(products: Seq<PreparedProduct>) -> Seq<(Seq<char>, JsonView)> {
    match first_product(products) {
        Some(product) => {
            let quantization = quantization_view(product, classed_bands(product));
            let omitted = omitted_view(product, screened_bands(product));
            (if quantization.len() > 0 {
                seq![("quantization"@, JsonView::Object(quantization))]
            } else {
                Seq::empty()
            }) + (if omitted.len() > 0 {
                seq![("omitted_input_values"@, JsonView::Object(omitted))]
            } else {
                Seq::empty()
            })
        },
        None => Seq::empty(),
    }
}

/// What an archive says of itself.
///
/// A raster archive has no attributes to describe, but it does need to say how a
/// pixel turns back into a value: the parameters are chosen per archive and a
/// client cannot recover them from the tiles. Quantization is lossy, so it is
/// recorded: the values are class representatives, which a consumer cannot tell
/// apart from measurements otherwise.
pub fn generate_metadata(
    archive_name: &str,
    products: &Vec<PreparedProduct>,
    layer_names: &Vec<String>,
    bounds: [u64; 4],
    options: &MetadataOptions,
    figures: Figures,
) -> (metadata: Json)
    requires
        all_dated(products@),
        options.output matches TileOutput::Raster(encoding) ==> products@.len() > 0 ==> products@[0]
            .spec.band_specs@.len() >= encoding.band_count(),
    ensures
        metadata@ == JsonView::Object(
            common_view(archive_name@, bounds@, *options) + own_view(
                products@,
                layer_names@,
                *options,
                figures,
            ) + losses_view(products@),
        ),
{
    let mut metadata = Members::new();
    metadata.add("name", Json::text(archive_name));
    metadata.add("description", Json::text(""));
    match options.output {
        TileOutput::Mvt => {
            metadata.add("format", Json::text("pbf"));
        },
        TileOutput::Raster(_) => {
            metadata.add("format", Json::text("png"));
        },
    }
    metadata.add("type", Json::text("overlay"));
    metadata.add("generator", Json::text("grib2pmtiles"));
    metadata.add("version", Json::text("1.0.0"));
    metadata.add("minzoom", Json::Int(options.min_zoom as i128));
    metadata.add("maxzoom", Json::Int(options.max_zoom as i128));
    metadata.add("bounds", bounds_list(bounds));
    assert(metadata@ =~= common_view(archive_name@, bounds@, *options));
    let ghost common = metadata@;
    match options.output {
        TileOutput::Raster(encoding) => {
            let first = if products.len() > 0 {
                Some(&products[0])
            } else {
                None
            };
            let mut raster = raster_encoding(first, encoding, figures);
            let ghost plain = raster@;
            if let Some(range) = &options.range {
                raster.add("source_range", range_report(range, encoding));
            }
            proof {
                assert(raster@ =~= archive_encoding(
                    first_product(products@),
                    encoding,
                    figures,
                    options.range,
                )->Object_0);
            }
            metadata.add("raster_encoding", Json::object(raster));
            if products.len() > 0 {
                let product = &products[0];
                metadata.add("product", Json::text(product.spec.name.as_str()));
                let reference = rfc3339_time(product.product_id.reference_datetime);
                metadata.add("reference_time", Json::text(reference.as_str()));
                let valid = rfc3339_time(product.product_id.datetime);
                metadata.add("valid_time", Json::text(valid.as_str()));
            }
            if let Some(sequence) = options.sequence {
                metadata.add("sequence", Json::Int(sequence as i128));
            }
        },
        TileOutput::Mvt => {
            let layers = layer_list(products, layer_names, options.min_zoom, options.max_zoom);
            metadata.add("vector_layers", layers);
        },
    }
    assert(metadata@ =~= common + own_view(products@, layer_names@, *options, figures));
    let ghost own = metadata@;
    if products.len() > 0 {
        let quantization = quantization_members(&products[0]);
        let omitted = omitted_members(&products[0]);
        if quantization.members.len() > 0 {
            metadata.add("quantization", Json::object(quantization));
        }
        if omitted.members.len() > 0 {
            metadata.add("omitted_input_values", Json::object(omitted));
        }
    }
    assert(metadata@ =~= own + losses_view(products@));
    Json::object(metadata)
}

/// What the index says of one archive.
pub open spec fn time_view(
    product: PreparedProduct,
    url: Seq<char>,
    output: TileOutput,
    range: MeasuredRange,
) -> JsonView {
    JsonView::Object(
        seq![
            ("url"@, text_view(url)),
            ("valid_time"@, text_view(rfc3339_time_text(product.product_id.datetime as int))),
            (
                "reference_time"@,
                text_view(rfc3339_time_text(product.product_id.reference_datetime as int)),
            ),
        ] + match output {
            TileOutput::Raster(encoding) => seq![("source_range"@, range_view(range, encoding))],
            TileOutput::Mvt => Seq::empty(),
        },
    )
}

fn time_json(
    product: &PreparedProduct,
    url: &String,
    output: TileOutput,
    range: &MeasuredRange,
) -> (value: Json)
    requires
        in_calendar(product.product_id.datetime as int),
        in_calendar(product.product_id.reference_datetime as int),
    ensures
        value@ == time_view(*product, url@, output, *range),
{
    let mut members = Members::new();
    members.add("url", Json::text(url.as_str()));
    members.add("valid_time", Json::text(rfc3339_time(product.product_id.datetime).as_str()));
    members.add(
        "reference_time",
        Json::text(rfc3339_time(product.product_id.reference_datetime).as_str()),
    );
    if let TileOutput::Raster(encoding) = output {
        members.add("source_range", range_report(range, encoding));
    }
    assert(members@ =~= time_view(*product, url@, output, *range)->Object_0);
    Json::object(members)
}

/// The index of the archives that one run produced.
pub open spec fn manifest_view(
    directory: Seq<Step>,
    products: Seq<PreparedProduct>,
    outputs: Seq<Vec<Step>>,
    output: TileOutput,
    zooms: (u8, u8),
    bounds: Seq<u64>,
    ranges: Seq<MeasuredRange>,
    figures: Figures,
) -> JsonView {
    JsonView::Object(
        seq![
            ("generator"@, text_view("grib2pmtiles"@)),
            (
                "product"@,
                match first_product(products) {
                    Some(product) => text_view(product.spec.name@),
                    None => JsonView::Null,
                },
            ),
            ("minzoom"@, JsonView::Int(zooms.0 as int)),
            ("maxzoom"@, JsonView::Int(zooms.1 as int)),
            ("bounds"@, doubles_view(bounds)),
            (
                "encoding"@,
                match output {
                    TileOutput::Raster(encoding) => JsonView::Object(
                        encoding_members(first_product(products), encoding, figures),
                    ),
                    TileOutput::Mvt => JsonView::Null,
                },
            ),
            (
                "times"@,
                JsonView::List(
                    Seq::new(
                        lower(products.len() as int, outputs.len() as int) as nat,
                        |i: int|
                            time_view(
                                products[i],
                                url_of(destination(directory), destination(outputs[i]@)),
                                output,
                                ranges[i],
                            ),
                    ),
                ),
            ),
        ],
    )
}

/// Makes the index of the archives that one run produced, whose paths and whose
/// own directory are given as absolute.
///
/// Animating a field means holding two forecast times at once and blending
/// between them, and a client cannot do that from a set of archives it has to
/// discover. The encoding is written once at the top: it is shared by every
/// archive here, and a reader that finds it differing per time has no way to
/// interpolate between them. The extremes belong to one forecast time rather
/// than to the set: a later hour can hold a jet the first one did not.
pub fn generate_manifest(
    directory: &Vec<Step>,
    products: &Vec<PreparedProduct>,
    outputs: &Vec<Vec<Step>>,
    output: TileOutput,
    zooms: (u8, u8),
    bounds: [u64; 4],
    ranges: &Vec<MeasuredRange>,
    figures: Figures,
) -> (manifest: Json)
    requires
        all_dated(products@),
        ranges@.len() == products@.len(),
        output matches TileOutput::Raster(encoding) ==> products@.len() > 0 ==> products@[0]
            .spec.band_specs@.len() >= encoding.band_count(),
    ensures
        manifest@ == manifest_view(
            directory@,
            products@,
            outputs@,
            output,
            zooms,
            bounds@,
            ranges@,
            figures,
        ),
{
    let mut times: Vec<Json> = Vec::new();
    let mut i: usize = 0;
    while i < products.len() && i < outputs.len()
        invariant
            i <= products@.len(),
            i <= outputs@.len(),
            all_dated(products@),
            ranges@.len() == products@.len(),
            times@.len() == i,
            forall|k: int|
                0 <= k < i ==> (#[trigger] times@[k])@ == time_view(
                    products@[k],
                    url_of(destination(directory@), destination(outputs@[k]@)),
                    output,
                    ranges@[k],
                ),
        decreases products@.len() - i,
    {
        let url = relative_url(directory, &outputs[i]);
        times.push(time_json(&products[i], &url, output, &ranges[i]));
        i = i + 1;
    }
    let mut members = Members::new();
    members.add("generator", Json::text("grib2pmtiles"));
    if products.len() > 0 {
        members.add("product", Json::text(products[0].spec.name.as_str()));
    } else {
        members.add("product", Json::Null);
    }
    members.add("minzoom", Json::Int(zooms.0 as i128));
    members.add("maxzoom", Json::Int(zooms.1 as i128));
    members.add("bounds", bounds_list(bounds));
    match output {
        TileOutput::Raster(encoding) => {
            let first = if products.len() > 0 {
                Some(&products[0])
            } else {
                None
            };
            members.add("encoding", Json::object(raster_encoding(first, encoding, figures)));
        },
        TileOutput::Mvt => {
            members.add("encoding", Json::Null);
        },
    }
    let ghost expected = manifest_view(
        directory@,
        products@,
        outputs@,
        output,
        zooms,
        bounds@,
        ranges@,
        figures,
    )->Object_0;
    assert(items_view(times@) =~= expected[6].1->List_0);
    members.add("times", Json::list(times));
    assert(members@ =~= expected);
    Json::object(members)
}

/// The index and the archives agree on the encoding: an archive says what the
/// index says, and the range of its own forecast time at most.
pub proof fn lemma_manifest_agrees(
    products: Seq<PreparedProduct>,
    encoding: ColorEncoding,
    figures: Figures,
    range: Option<MeasuredRange>,
)
    ensures
        ({
            let shared = encoding_members(first_product(products), encoding, figures);
            let own = archive_encoding(first_product(products), encoding, figures, range)->Object_0;
            &&& own.take(shared.len() as int) == shared
            &&& own.len() == shared.len() + if range is Some {
                1int
            } else {
                0int
            }
        }),
{
    let shared = encoding_members(first_product(products), encoding, figures);
    let own = archive_encoding(first_product(products), encoding, figures, range)->Object_0;
    assert(own.take(shared.len() as int) =~= shared);
}

} // verus!
