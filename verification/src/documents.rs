//! What can be looked up, by name, in the metadata of an archive and in the index of a
//! set of archives.

use vstd::prelude::*;

use crate::calendar::rfc3339_time_text;
use crate::conversion::TileOutput;
use crate::descriptor::{channels_rule, channels_view, mask_view, packed_rule, weights_view};
use crate::json::{with_member, JsonView};
use crate::metadata::{
    archive_encoding, classed_bands, classes_view, common_view, components_view, doubles_view,
    encoding_members, fields_view, layer_view, layers_view, level_view, losses_view, manifest_view,
    member_of, names_view, omitted_view, own_view, quantization_view, range_view, sampling_view,
    screened_bands, Figures, MeasuredRange, MetadataOptions,
};
use crate::model::{BandSpec, FixedSurface, PreparedProduct, Quantization};
use crate::paths::{destination, url_of, Step};
use crate::raster::ColorEncoding;

verus! {

/// The value of the first member of a name, where a document is an object that has one.
pub open spec fn entry(document: JsonView, name: Seq<char>) -> Option<JsonView> {
    match document {
        JsonView::Object(members) => member_of(members, name),
        _ => None,
    }
}

/// Looking up takes the first member of a name.
pub proof fn lemma_member_at(members: Seq<(Seq<char>, JsonView)>, i: int)
    requires
        0 <= i < members.len(),
        forall|j: int| 0 <= j < i ==> (#[trigger] members[j]).0 != members[i].0,
    ensures
        member_of(members, members[i].0) == Some(members[i].1),
    decreases members.len(),
{
    if i > 0 {
        let rest = members.skip(1);
        assert(members[0].0 != members[i].0);
        assert(rest[i - 1] == members[i]);
        assert forall|j: int| 0 <= j < i - 1 implies (#[trigger] rest[j]).0 != rest[i - 1].0 by {
            assert(rest[j] == members[j + 1]);
        }
        lemma_member_at(rest, i - 1);
    }
}

/// A name that no member has is not found.
pub proof fn lemma_member_absent(members: Seq<(Seq<char>, JsonView)>, name: Seq<char>)
    requires
        forall|j: int| 0 <= j < members.len() ==> (#[trigger] members[j]).0 != name,
    ensures
        member_of(members, name) is None,
    decreases members.len(),
{
    if members.len() > 0 {
        assert(members[0].0 != name);
        let rest = members.skip(1);
        assert forall|j: int| 0 <= j < rest.len() implies (#[trigger] rest[j]).0 != name by {
            assert(rest[j] == members[j + 1]);
        }
        lemma_member_absent(rest, name);
    }
}

/// A name that the first members do not have is looked up among the others.
proof fn lemma_member_behind(
    first: Seq<(Seq<char>, JsonView)>,
    rest: Seq<(Seq<char>, JsonView)>,
    name: Seq<char>,
)
    requires
        forall|j: int| 0 <= j < first.len() ==> (#[trigger] first[j]).0 != name,
    ensures
        member_of(first + rest, name) == member_of(rest, name),
    decreases first.len(),
{
    let all = first + rest;
    if first.len() > 0 {
        assert(first[0].0 != name);
        let tail = first.skip(1);
        assert forall|j: int| 0 <= j < tail.len() implies (#[trigger] tail[j]).0 != name by {
            assert(tail[j] == first[j + 1]);
        }
        lemma_member_behind(tail, rest, name);
        assert(all[0] == first[0]);
        assert(all.skip(1) =~= tail + rest);
    } else {
        assert(all =~= rest);
    }
}

/// A name that the first members have is found there.
proof fn lemma_member_before(
    first: Seq<(Seq<char>, JsonView)>,
    rest: Seq<(Seq<char>, JsonView)>,
    name: Seq<char>,
)
    requires
        member_of(first, name) is Some,
    ensures
        member_of(first + rest, name) == member_of(first, name),
    decreases first.len(),
{
    let all = first + rest;
    if first.len() > 0 {
        assert(all[0] == first[0]);
        if first[0].0 != name {
            lemma_member_before(first.skip(1), rest, name);
            assert(all.skip(1) =~= first.skip(1) + rest);
        }
    }
}

/// The names in the metadata of an archive all differ.
proof fn lemma_archive_names()
    ensures
        "name"@.len() == 4,
        "description"@.len() == 11,
        "format"@.len() == 6,
        "type"@.len() == 4,
        "generator"@.len() == 9,
        "version"@.len() == 7,
        "minzoom"@.len() == 7,
        "maxzoom"@.len() == 7,
        "bounds"@.len() == 6,
        "raster_encoding"@.len() == 15,
        "product"@.len() == 7,
        "reference_time"@.len() == 14,
        "valid_time"@.len() == 10,
        "sequence"@.len() == 8,
        "vector_layers"@.len() == 13,
        "quantization"@.len() == 12,
        "omitted_input_values"@.len() == 20,
        "name"@ != "type"@,
        "format"@ != "bounds"@,
        "version"@ != "minzoom"@,
        "version"@ != "maxzoom"@,
        "version"@ != "product"@,
        "minzoom"@ != "maxzoom"@,
        "minzoom"@ != "product"@,
        "maxzoom"@ != "product"@,
{
    reveal_strlit("name");
    reveal_strlit("description");
    reveal_strlit("format");
    reveal_strlit("type");
    reveal_strlit("generator");
    reveal_strlit("version");
    reveal_strlit("minzoom");
    reveal_strlit("maxzoom");
    reveal_strlit("bounds");
    reveal_strlit("raster_encoding");
    reveal_strlit("product");
    reveal_strlit("reference_time");
    reveal_strlit("valid_time");
    reveal_strlit("sequence");
    reveal_strlit("vector_layers");
    reveal_strlit("quantization");
    reveal_strlit("omitted_input_values");
    assert("name"@.len() == 4);
    assert("description"@.len() == 11);
    assert("format"@.len() == 6);
    assert("type"@.len() == 4);
    assert("generator"@.len() == 9);
    assert("version"@.len() == 7);
    assert("minzoom"@.len() == 7);
    assert("maxzoom"@.len() == 7);
    assert("bounds"@.len() == 6);
    assert("raster_encoding"@.len() == 15);
    assert("product"@.len() == 7);
    assert("reference_time"@.len() == 14);
    assert("valid_time"@.len() == 10);
    assert("sequence"@.len() == 8);
    assert("vector_layers"@.len() == 13);
    assert("quantization"@.len() == 12);
    assert("omitted_input_values"@.len() == 20);
    assert("name"@[0] != "type"@[0]);
    assert("format"@[0] != "bounds"@[0]);
    assert("version"@[0] != "minzoom"@[0]);
    assert("version"@[0] != "maxzoom"@[0]);
    assert("version"@[0] != "product"@[0]);
    assert("minzoom"@[1] != "maxzoom"@[1]);
    assert("minzoom"@[0] != "product"@[0]);
    assert("maxzoom"@[0] != "product"@[0]);
}

/// The names in the index all differ.
proof fn lemma_index_names()
    ensures
        "generator"@.len() == 9,
        "product"@.len() == 7,
        "minzoom"@.len() == 7,
        "maxzoom"@.len() == 7,
        "bounds"@.len() == 6,
        "encoding"@.len() == 8,
        "times"@.len() == 5,
        "product"@ != "minzoom"@,
        "product"@ != "maxzoom"@,
        "minzoom"@ != "maxzoom"@,
{
    reveal_strlit("generator");
    reveal_strlit("product");
    reveal_strlit("minzoom");
    reveal_strlit("maxzoom");
    reveal_strlit("bounds");
    reveal_strlit("encoding");
    reveal_strlit("times");
    assert("generator"@.len() == 9);
    assert("product"@.len() == 7);
    assert("minzoom"@.len() == 7);
    assert("maxzoom"@.len() == 7);
    assert("bounds"@.len() == 6);
    assert("encoding"@.len() == 8);
    assert("times"@.len() == 5);
    assert("product"@[0] != "minzoom"@[0]);
    assert("product"@[0] != "maxzoom"@[0]);
    assert("minzoom"@[1] != "maxzoom"@[1]);
}

/// The names in an entry of the index all differ.
proof fn lemma_time_names()
    ensures
        "url"@.len() == 3,
        "valid_time"@.len() == 10,
        "reference_time"@.len() == 14,
        "source_range"@.len() == 12,
{
    reveal_strlit("url");
    reveal_strlit("valid_time");
    reveal_strlit("reference_time");
    reveal_strlit("source_range");
    assert("url"@.len() == 3);
    assert("valid_time"@.len() == 10);
    assert("reference_time"@.len() == 14);
    assert("source_range"@.len() == 12);
}

/// The names in the description of an encoding all differ.
proof fn lemma_encoding_names()
    ensures
        "encoding"@.len() == 8,
        "base"@.len() == 4,
        "interval"@.len() == 8,
        "compatible_decoder"@.len() == 18,
        "sample_space"@.len() == 12,
        "decode"@.len() == 6,
        "mask"@.len() == 4,
        "min"@.len() == 3,
        "max"@.len() == 3,
        "component_limit"@.len() == 15,
        "schema_version"@.len() == 14,
        "container"@.len() == 9,
        "tile_size"@.len() == 9,
        "buffer"@.len() == 6,
        "image_size"@.len() == 10,
        "bands"@.len() == 5,
        "sampling"@.len() == 8,
        "level"@.len() == 5,
        "components"@.len() == 10,
        "units"@.len() == 5,
        "source_range"@.len() == 12,
        "encoding"@ != "interval"@,
        "encoding"@ != "sampling"@,
        "base"@ != "mask"@,
        "interval"@ != "sampling"@,
        "sample_space"@ != "source_range"@,
        "decode"@ != "buffer"@,
        "min"@ != "max"@,
        "container"@ != "tile_size"@,
        "image_size"@ != "components"@,
        "bands"@ != "level"@,
        "bands"@ != "units"@,
        "level"@ != "units"@,
{
    reveal_strlit("encoding");
    reveal_strlit("base");
    reveal_strlit("interval");
    reveal_strlit("compatible_decoder");
    reveal_strlit("sample_space");
    reveal_strlit("decode");
    reveal_strlit("mask");
    reveal_strlit("min");
    reveal_strlit("max");
    reveal_strlit("component_limit");
    reveal_strlit("schema_version");
    reveal_strlit("container");
    reveal_strlit("tile_size");
    reveal_strlit("buffer");
    reveal_strlit("image_size");
    reveal_strlit("bands");
    reveal_strlit("sampling");
    reveal_strlit("level");
    reveal_strlit("components");
    reveal_strlit("units");
    reveal_strlit("source_range");
    assert("encoding"@.len() == 8);
    assert("base"@.len() == 4);
    assert("interval"@.len() == 8);
    assert("compatible_decoder"@.len() == 18);
    assert("sample_space"@.len() == 12);
    assert("decode"@.len() == 6);
    assert("mask"@.len() == 4);
    assert("min"@.len() == 3);
    assert("max"@.len() == 3);
    assert("component_limit"@.len() == 15);
    assert("schema_version"@.len() == 14);
    assert("container"@.len() == 9);
    assert("tile_size"@.len() == 9);
    assert("buffer"@.len() == 6);
    assert("image_size"@.len() == 10);
    assert("bands"@.len() == 5);
    assert("sampling"@.len() == 8);
    assert("level"@.len() == 5);
    assert("components"@.len() == 10);
    assert("units"@.len() == 5);
    assert("source_range"@.len() == 12);
    assert("encoding"@[0] != "interval"@[0]);
    assert("encoding"@[0] != "sampling"@[0]);
    assert("base"@[0] != "mask"@[0]);
    assert("interval"@[0] != "sampling"@[0]);
    assert("sample_space"@[1] != "source_range"@[1]);
    assert("decode"@[0] != "buffer"@[0]);
    assert("min"@[1] != "max"@[1]);
    assert("container"@[0] != "tile_size"@[0]);
    assert("image_size"@[0] != "components"@[0]);
    assert("bands"@[0] != "level"@[0]);
    assert("bands"@[0] != "units"@[0]);
    assert("level"@[0] != "units"@[0]);
}

/// A list of numbers says each of them, in order.
pub open spec fn lists_numbers(value: Option<JsonView>, numbers: Seq<u64>) -> bool {
    value matches Some(JsonView::List(items)) && {
        &&& items.len() == numbers.len()
        &&& forall|i: int| 0 <= i < items.len() ==> #[trigger] items[i] == JsonView::Double(numbers[i])
    }
}

/// What every archive says of itself: its name, its format, its zooms and its bounds.
pub proof fn lemma_archive_says(
    name: Seq<char>,
    products: Seq<PreparedProduct>,
    names: Seq<String>,
    bounds: Seq<u64>,
    options: MetadataOptions,
    figures: Figures,
)
    ensures
        ({
            let document = JsonView::Object(
                common_view(name, bounds, options) + own_view(products, names, options, figures)
                    + losses_view(products),
            );
            &&& entry(document, "name"@) == Some(JsonView::Text(name))
            &&& entry(document, "description"@) == Some(JsonView::Text(""@))
            &&& entry(document, "format"@) == Some(
                JsonView::Text(
                    if options.output is Mvt {
                        "pbf"@
                    } else {
                        "png"@
                    },
                ),
            )
            &&& entry(document, "type"@) == Some(JsonView::Text("overlay"@))
            &&& entry(document, "generator"@) == Some(JsonView::Text("grib2pmtiles"@))
            &&& entry(document, "version"@) == Some(JsonView::Text("1.0.0"@))
            &&& entry(document, "minzoom"@) == Some(JsonView::Int(options.min_zoom as int))
            &&& entry(document, "maxzoom"@) == Some(JsonView::Int(options.max_zoom as int))
            &&& lists_numbers(entry(document, "bounds"@), bounds)
        }),
{
    lemma_archive_names();
    let common = common_view(name, bounds, options);
    let own = own_view(products, names, options, figures);
    let losses = losses_view(products);
    let all = common + own + losses;
    assert(all =~= common + (own + losses));
    assert(common[0].0 == "name"@ && common[1].0 == "description"@ && common[2].0 == "format"@
        && common[3].0 == "type"@ && common[4].0 == "generator"@ && common[5].0 == "version"@
        && common[6].0 == "minzoom"@ && common[7].0 == "maxzoom"@ && common[8].0 == "bounds"@);
    assert forall|i: int| 0 <= i < common.len() implies #[trigger] member_of(all, common[i].0)
        == Some(common[i].1) by {
        lemma_member_at(common, i);
        lemma_member_before(common, own + losses, common[i].0);
    }
    assert(member_of(all, common[0].0) == Some(common[0].1));
    assert(member_of(all, common[1].0) == Some(common[1].1));
    assert(member_of(all, common[2].0) == Some(common[2].1));
    assert(member_of(all, common[3].0) == Some(common[3].1));
    assert(member_of(all, common[4].0) == Some(common[4].1));
    assert(member_of(all, common[5].0) == Some(common[5].1));
    assert(member_of(all, common[6].0) == Some(common[6].1));
    assert(member_of(all, common[7].0) == Some(common[7].1));
    assert(member_of(all, common[8].0) == Some(common[8].1));
}

/// What an archive of images says of its product: how its pixels are decoded, which
/// product it is, when it was issued and when it is valid, and its number in a sequence
/// where it has one. It has no vector layers.
pub proof fn lemma_raster_archive_says(
    name: Seq<char>,
    products: Seq<PreparedProduct>,
    names: Seq<String>,
    bounds: Seq<u64>,
    options: MetadataOptions,
    figures: Figures,
    encoding: ColorEncoding,
)
    requires
        options.output == TileOutput::Raster(encoding),
        products.len() > 0,
    ensures
        ({
            let document = JsonView::Object(
                common_view(name, bounds, options) + own_view(products, names, options, figures)
                    + losses_view(products),
            );
            &&& entry(document, "raster_encoding"@) == Some(
                archive_encoding(Some(products[0]), encoding, figures, options.range),
            )
            &&& entry(document, "product"@) == Some(JsonView::Text(products[0].spec.name@))
            &&& entry(document, "reference_time"@) == Some(
                JsonView::Text(
                    rfc3339_time_text(products[0].product_id.reference_datetime as int),
                ),
            )
            &&& entry(document, "valid_time"@) == Some(
                JsonView::Text(rfc3339_time_text(products[0].product_id.datetime as int)),
            )
            &&& entry(document, "sequence"@) == match options.sequence {
                Some(sequence) => Some(JsonView::Int(sequence as int)),
                None => None,
            }
            &&& entry(document, "vector_layers"@) is None
        }),
{
    lemma_archive_names();
    let common = common_view(name, bounds, options);
    let own = own_view(products, names, options, figures);
    let losses = losses_view(products);
    let all = common + own + losses;
    assert(all =~= common + (own + losses));
    lemma_common_names(name, bounds, options);
    assert(own[0].0 == "raster_encoding"@ && own[1].0 == "product"@ && own[2].0
        == "reference_time"@ && own[3].0 == "valid_time"@);
    assert forall|i: int| 0 <= i < 4 implies #[trigger] member_of(all, own[i].0) == Some(
        own[i].1,
    ) by {
        lemma_member_at(own, i);
        lemma_member_before(own, losses, own[i].0);
        lemma_member_behind(common, own + losses, own[i].0);
    }
    assert(member_of(all, own[0].0) == Some(own[0].1));
    assert(member_of(all, own[1].0) == Some(own[1].1));
    assert(member_of(all, own[2].0) == Some(own[2].1));
    assert(member_of(all, own[3].0) == Some(own[3].1));
    lemma_losses_names(products);
    lemma_member_behind(common, own + losses, "sequence"@);
    lemma_member_behind(common, own + losses, "vector_layers"@);
    if let Some(sequence) = options.sequence {
        assert(own.len() == 5 && own[4].0 == "sequence"@);
        lemma_member_at(own, 4);
        lemma_member_before(own, losses, "sequence"@);
    } else {
        assert(own.len() == 4);
        lemma_member_absent(own + losses, "sequence"@);
    }
    lemma_member_absent(own + losses, "vector_layers"@);
}

/// The names that every archive has.
proof fn lemma_common_names(name: Seq<char>, bounds: Seq<u64>, options: MetadataOptions)
    ensures
        forall|i: int| 0 <= i < common_view(name, bounds, options).len() ==> {
            let own = (#[trigger] common_view(name, bounds, options)[i]).0;
            &&& own != "raster_encoding"@
            &&& own != "product"@
            &&& own != "reference_time"@
            &&& own != "valid_time"@
            &&& own != "sequence"@
            &&& own != "vector_layers"@
            &&& own != "quantization"@
            &&& own != "omitted_input_values"@
        },
{
    lemma_archive_names();
    let common = common_view(name, bounds, options);
    assert(common[0].0 == "name"@ && common[1].0 == "description"@ && common[2].0 == "format"@
        && common[3].0 == "type"@ && common[4].0 == "generator"@ && common[5].0 == "version"@
        && common[6].0 == "minzoom"@ && common[7].0 == "maxzoom"@ && common[8].0 == "bounds"@);
}

/// The names under which lossy steps are told.
proof fn lemma_losses_names(products: Seq<PreparedProduct>)
    ensures
        forall|i: int| 0 <= i < losses_view(products).len() ==> {
            let own = (#[trigger] losses_view(products)[i]).0;
            own == "quantization"@ || own == "omitted_input_values"@
        },
{
}

/// What an archive of vector tiles says of its layers: one for each product with a name,
/// with its id, its zooms and its fields. It says nothing of images.
pub proof fn lemma_vector_archive_says(
    name: Seq<char>,
    products: Seq<PreparedProduct>,
    names: Seq<String>,
    bounds: Seq<u64>,
    options: MetadataOptions,
    figures: Figures,
)
    requires
        options.output == TileOutput::Mvt,
    ensures
        ({
            let document = JsonView::Object(
                common_view(name, bounds, options) + own_view(products, names, options, figures)
                    + losses_view(products),
            );
            &&& entry(document, "raster_encoding"@) is None
            &&& entry(document, "sequence"@) is None
            &&& entry(document, "vector_layers"@) matches Some(JsonView::List(layers)) && {
                &&& layers.len() == if products.len() < names.len() {
                    products.len()
                } else {
                    names.len()
                }
                &&& forall|i: int|
                    #![trigger layers[i]]
                    0 <= i < layers.len() ==> {
                        &&& entry(layers[i], "id"@) == Some(JsonView::Text(names[i]@))
                        &&& entry(layers[i], "minzoom"@) == Some(
                            JsonView::Int(options.min_zoom as int),
                        )
                        &&& entry(layers[i], "maxzoom"@) == Some(
                            JsonView::Int(options.max_zoom as int),
                        )
                        &&& entry(layers[i], "fields"@) is Some
                    }
                &&& forall|i: int, b: int|
                    #![trigger layers[i], products[i].spec.band_specs@[b]]
                    0 <= i < layers.len() && 0 <= b < products[i].spec.band_specs@.len() ==> entry(
                        entry(layers[i], "fields"@)->0,
                        products[i].spec.band_specs@[b].name@,
                    ) == Some(JsonView::Text("Number"@))
                &&& forall|i: int, field: Seq<char>|
                    #![trigger entry(entry(layers[i], "fields"@)->0, field)]
                    0 <= i < layers.len() && entry(entry(layers[i], "fields"@)->0, field) is Some
                        ==> exists|b: int|
                        0 <= b < products[i].spec.band_specs@.len() && (
                        #[trigger] products[i].spec.band_specs@[b]).name@ == field
            }
        }),
{
    lemma_archive_names();
    let common = common_view(name, bounds, options);
    let own = own_view(products, names, options, figures);
    let losses = losses_view(products);
    let all = common + own + losses;
    assert(all =~= common + (own + losses));
    lemma_common_names(name, bounds, options);
    lemma_losses_names(products);
    assert(own.len() == 1 && own[0].0 == "vector_layers"@);
    lemma_member_at(own, 0);
    lemma_member_before(own, losses, "vector_layers"@);
    lemma_member_behind(common, own + losses, "vector_layers"@);
    lemma_member_behind(common, own + losses, "raster_encoding"@);
    lemma_member_behind(common, own + losses, "sequence"@);
    lemma_member_absent(own + losses, "raster_encoding"@);
    lemma_member_absent(own + losses, "sequence"@);
    let layers = layers_view(products, names, options.min_zoom, options.max_zoom)->List_0;
    assert(entry(JsonView::Object(all), "vector_layers"@) == Some(JsonView::List(layers)));
    assert forall|i: int| #![trigger layers[i]] 0 <= i < layers.len() implies {
        &&& entry(layers[i], "id"@) == Some(JsonView::Text(names[i]@))
        &&& entry(layers[i], "minzoom"@) == Some(JsonView::Int(options.min_zoom as int))
        &&& entry(layers[i], "maxzoom"@) == Some(JsonView::Int(options.max_zoom as int))
        &&& entry(layers[i], "fields"@) == Some(
            JsonView::Object(fields_view(products[i].spec.band_specs@)),
        )
    } by {
        lemma_layer_says(names[i]@, products[i], options.min_zoom, options.max_zoom);
    }
    assert forall|i: int, b: int|
        #![trigger layers[i], products[i].spec.band_specs@[b]]
        0 <= i < layers.len() && 0 <= b < products[i].spec.band_specs@.len() implies entry(
        entry(layers[i], "fields"@)->0,
        products[i].spec.band_specs@[b].name@,
    ) == Some(JsonView::Text("Number"@)) by {
        lemma_fields(products[i].spec.band_specs@, products[i].spec.band_specs@[b].name@);
    }
    assert forall|i: int, field: Seq<char>|
        #![trigger entry(entry(layers[i], "fields"@)->0, field)]
        0 <= i < layers.len() && entry(
            entry(layers[i], "fields"@)->0,
            field,
        ) is Some implies exists|b: int|
        0 <= b < products[i].spec.band_specs@.len() && (
        #[trigger] products[i].spec.band_specs@[b]).name@ == field by {
        lemma_fields(products[i].spec.band_specs@, field);
    }
}

proof fn lemma_layer_says(name: Seq<char>, product: PreparedProduct, min_zoom: u8, max_zoom: u8)
    ensures
        ({
            let layer = layer_view(name, product, min_zoom, max_zoom);
            &&& entry(layer, "id"@) == Some(JsonView::Text(name))
            &&& entry(layer, "minzoom"@) == Some(JsonView::Int(min_zoom as int))
            &&& entry(layer, "maxzoom"@) == Some(JsonView::Int(max_zoom as int))
            &&& entry(layer, "fields"@) == Some(
                JsonView::Object(fields_view(product.spec.band_specs@)),
            )
        }),
{
    reveal_strlit("id");
    reveal_strlit("minzoom");
    reveal_strlit("maxzoom");
    reveal_strlit("fields");
    assert("id"@.len() == 2);
    assert("minzoom"@.len() == 7);
    assert("maxzoom"@.len() == 7);
    assert("fields"@.len() == 6);
    assert("minzoom"@[1] != "maxzoom"@[1]);
    let members = layer_view(name, product, min_zoom, max_zoom)->Object_0;
    assert(members[0].0 == "id"@ && members[1].0 == "minzoom"@ && members[2].0 == "maxzoom"@
        && members[3].0 == "fields"@);
    lemma_member_at(members, 0);
    lemma_member_at(members, 1);
    lemma_member_at(members, 2);
    lemma_member_at(members, 3);
}

/// Looking up after a member was set finds that member under its name, and what was
/// there before under all others.
pub proof fn lemma_with_member(
    members: Seq<(Seq<char>, JsonView)>,
    name: Seq<char>,
    value: JsonView,
    other: Seq<char>,
)
    ensures
        member_of(with_member(members, name, value), other) == if other == name {
            Some(value)
        } else {
            member_of(members, other)
        },
    decreases members.len(),
{
    if members.len() == 0 {
        reveal_with_fuel(member_of, 2);
    } else {
        let rest = members.skip(1);
        let after = with_member(members, name, value);
        if members[0].0 == name {
            assert(after.skip(1) =~= rest);
        } else {
            lemma_with_member(rest, name, value, other);
            assert(after.skip(1) =~= with_member(rest, name, value));
        }
    }
}

/// The fields of a layer are the names of its bands, each a number.
proof fn lemma_fields(bands: Seq<BandSpec>, field: Seq<char>)
    ensures
        member_of(fields_view(bands), field) == if exists|b: int|
            0 <= b < bands.len() && (#[trigger] bands[b]).name@ == field {
            Some(JsonView::Text("Number"@))
        } else {
            None
        },
    decreases bands.len(),
{
    if bands.len() > 0 {
        let before = bands.drop_last();
        lemma_fields(before, field);
        lemma_with_member(
            fields_view(before),
            bands.last().name@,
            JsonView::Text("Number"@),
            field,
        );
        assert(bands[bands.len() - 1] == bands.last());
        if exists|b: int| 0 <= b < before.len() && (#[trigger] before[b]).name@ == field {
            let b = choose|b: int| 0 <= b < before.len() && (#[trigger] before[b]).name@ == field;
            assert(bands[b].name@ == field);
        }
        if exists|b: int| 0 <= b < bands.len() && (#[trigger] bands[b]).name@ == field {
            let b = choose|b: int| 0 <= b < bands.len() && (#[trigger] bands[b]).name@ == field;
            if b < before.len() {
                assert(before[b].name@ == field);
            }
        }
    }
}

/// What a client finds out about the images of an archive: their container and sizes,
/// which bands they hold and how these have to be sampled, the level of the field, how a
/// pixel is decoded, and the range of the source where it was measured.
#[verifier::rlimit(60)]
pub proof fn lemma_encoding_says(
    product: PreparedProduct,
    encoding: ColorEncoding,
    figures: Figures,
    range: Option<MeasuredRange>,
)
    ensures
        ({
            let document = archive_encoding(Some(product), encoding, figures, range);
            &&& range is None ==> document == JsonView::Object(
                encoding_members(Some(product), encoding, figures),
            )
            &&& entry(document, "schema_version"@) == Some(JsonView::Int(1))
            &&& entry(document, "container"@) == Some(JsonView::Text("png"@))
            &&& entry(document, "tile_size"@) == Some(JsonView::Int(512))
            &&& entry(document, "buffer"@) == Some(JsonView::Int(1))
            &&& entry(document, "image_size"@) == Some(JsonView::Int(514))
            &&& entry(document, "sample_space"@) == Some(JsonView::Text("normalized-texel"@))
            &&& entry(document, "bands"@) == Some(
                names_view(
                    product.spec.band_specs@,
                    if encoding is VectorField {
                        2
                    } else {
                        1
                    },
                ),
            )
            &&& entry(document, "sampling"@) == Some(sampling_view(product))
            &&& entry(document, "level"@) == Some(
                level_view(product.product_id.surface, figures.level),
            )
            &&& entry(document, "source_range"@) == match range {
                Some(range) => Some(range_view(range, encoding)),
                None => None,
            }
            &&& encoding matches ColorEncoding::Scalar24 { base, interval } ==> {
                &&& entry(document, "encoding"@) == Some(JsonView::Text("scalar-24"@))
                &&& entry(document, "base"@) == Some(JsonView::Double(base))
                &&& entry(document, "interval"@) == Some(JsonView::Double(interval))
                &&& entry(document, "compatible_decoder"@) == Some(
                    JsonView::Text("mapbox-terrain-rgb"@),
                )
                &&& entry(document, "decode"@) == Some(
                    packed_rule(3, figures.coefficients.weights@, base),
                )
                &&& entry(document, "mask"@) == Some(JsonView::Null)
                &&& entry(document, "units"@) is None
            }
            &&& encoding matches ColorEncoding::Scalar16 { min, max } ==> {
                &&& entry(document, "encoding"@) == Some(JsonView::Text("scalar-16"@))
                &&& entry(document, "min"@) == Some(JsonView::Double(min))
                &&& entry(document, "max"@) == Some(JsonView::Double(max))
                &&& entry(document, "decode"@) == Some(
                    packed_rule(2, figures.coefficients.weights@, min),
                )
                &&& entry(document, "mask"@) == Some(mask_view())
                &&& entry(document, "units"@) is None
            }
            &&& encoding matches ColorEncoding::VectorField { component_limit } ==> {
                &&& entry(document, "encoding"@) == Some(JsonView::Text("vector-field"@))
                &&& entry(document, "component_limit"@) == Some(JsonView::Double(component_limit))
                &&& entry(document, "decode"@) == Some(
                    channels_rule(figures.coefficients.scale, figures.coefficients.offset),
                )
                &&& entry(document, "mask"@) == Some(mask_view())
                &&& entry(document, "units"@) == Some(JsonView::Text("m/s"@))
                &&& entry(document, "components"@) == Some(components_view())
            }
        }),
{
    lemma_encoding_names();
    let all = archive_encoding(Some(product), encoding, figures, range)->Object_0;
    if range is None {
        assert(all =~= encoding_members(Some(product), encoding, figures));
    }
    if encoding is Scalar24 {
        assert(all[0].0 == "encoding"@ && all[1].0 == "base"@ && all[2].0 == "interval"@ && all[3].0 == "compatible_decoder"@ && all[4].0 == "sample_space"@ && all[5].0 == "decode"@ && all[6].0 == "mask"@ && all[7].0 == "schema_version"@ && all[8].0 == "container"@ && all[9].0 == "tile_size"@ && all[10].0 == "buffer"@ && all[11].0 == "image_size"@ && all[12].0 == "bands"@ && all[13].0 == "sampling"@ && all[14].0 == "level"@);
        lemma_member_at(all, 0);
        lemma_member_at(all, 1);
        lemma_member_at(all, 2);
        lemma_member_at(all, 3);
        lemma_member_at(all, 4);
        lemma_member_at(all, 5);
        lemma_member_at(all, 6);
        lemma_member_at(all, 7);
        lemma_member_at(all, 8);
        lemma_member_at(all, 9);
        lemma_member_at(all, 10);
        lemma_member_at(all, 11);
        lemma_member_at(all, 12);
        lemma_member_at(all, 13);
        lemma_member_at(all, 14);
        if range is Some {
            assert(all.len() == 16 && all[15].0 == "source_range"@);
            lemma_member_at(all, 15);
        } else {
            assert(all.len() == 15);
            lemma_member_absent(all, "source_range"@);
        }
        lemma_member_absent(all, "min"@);
        lemma_member_absent(all, "max"@);
        lemma_member_absent(all, "component_limit"@);
        lemma_member_absent(all, "components"@);
        lemma_member_absent(all, "units"@);
    }
    if encoding is Scalar16 {
        assert(all[0].0 == "encoding"@ && all[1].0 == "min"@ && all[2].0 == "max"@ && all[3].0 == "sample_space"@ && all[4].0 == "decode"@ && all[5].0 == "mask"@ && all[6].0 == "schema_version"@ && all[7].0 == "container"@ && all[8].0 == "tile_size"@ && all[9].0 == "buffer"@ && all[10].0 == "image_size"@ && all[11].0 == "bands"@ && all[12].0 == "sampling"@ && all[13].0 == "level"@);
        lemma_member_at(all, 0);
        lemma_member_at(all, 1);
        lemma_member_at(all, 2);
        lemma_member_at(all, 3);
        lemma_member_at(all, 4);
        lemma_member_at(all, 5);
        lemma_member_at(all, 6);
        lemma_member_at(all, 7);
        lemma_member_at(all, 8);
        lemma_member_at(all, 9);
        lemma_member_at(all, 10);
        lemma_member_at(all, 11);
        lemma_member_at(all, 12);
        lemma_member_at(all, 13);
        if range is Some {
            assert(all.len() == 15 && all[14].0 == "source_range"@);
            lemma_member_at(all, 14);
        } else {
            assert(all.len() == 14);
            lemma_member_absent(all, "source_range"@);
        }
        lemma_member_absent(all, "base"@);
        lemma_member_absent(all, "interval"@);
        lemma_member_absent(all, "compatible_decoder"@);
        lemma_member_absent(all, "component_limit"@);
        lemma_member_absent(all, "components"@);
        lemma_member_absent(all, "units"@);
    }
    if encoding is VectorField {
        assert(all[0].0 == "encoding"@ && all[1].0 == "component_limit"@ && all[2].0 == "sample_space"@ && all[3].0 == "decode"@ && all[4].0 == "mask"@ && all[5].0 == "schema_version"@ && all[6].0 == "container"@ && all[7].0 == "tile_size"@ && all[8].0 == "buffer"@ && all[9].0 == "image_size"@ && all[10].0 == "bands"@ && all[11].0 == "sampling"@ && all[12].0 == "level"@ && all[13].0 == "components"@ && all[14].0 == "units"@);
        lemma_member_at(all, 0);
        lemma_member_at(all, 1);
        lemma_member_at(all, 2);
        lemma_member_at(all, 3);
        lemma_member_at(all, 4);
        lemma_member_at(all, 5);
        lemma_member_at(all, 6);
        lemma_member_at(all, 7);
        lemma_member_at(all, 8);
        lemma_member_at(all, 9);
        lemma_member_at(all, 10);
        lemma_member_at(all, 11);
        lemma_member_at(all, 12);
        lemma_member_at(all, 13);
        lemma_member_at(all, 14);
        if range is Some {
            assert(all.len() == 16 && all[15].0 == "source_range"@);
            lemma_member_at(all, 15);
        } else {
            assert(all.len() == 15);
            lemma_member_absent(all, "source_range"@);
        }
        lemma_member_absent(all, "base"@);
        lemma_member_absent(all, "interval"@);
        lemma_member_absent(all, "compatible_decoder"@);
        lemma_member_absent(all, "min"@);
        lemma_member_absent(all, "max"@);
    }
}

/// The names of bands, and the parts of the rule by which a pixel is decoded. A scalar
/// is the weighted sum of its channels, red first, with the base or the least value as
/// offset; the components of a vector share a scale and an offset, eastward in red and
/// northward in green. The mask is what blue says beyond one half.
pub proof fn lemma_rules_say(bands: Seq<BandSpec>, count: int, weights: Seq<u64>, a: u64, b: u64)
    requires
        0 <= count <= 3,
        count <= bands.len(),
        weights.len() == 3,
    ensures
        names_view(bands, count) matches JsonView::List(items) && items.len() == count && forall|
            i: int,
        |
            0 <= i < count ==> #[trigger] items[i] == JsonView::Text(bands[i].name@),
        entry(packed_rule(count, weights, a), "kind"@) == Some(JsonView::Text("linear-packed"@)),
        entry(packed_rule(count, weights, a), "offset"@) == Some(JsonView::Double(a)),
        lists_numbers(entry(packed_rule(count, weights, a), "weights"@), weights.take(count)),
        entry(packed_rule(2, weights, a), "channels"@) == Some(
            JsonView::List(seq![JsonView::Text("r"@), JsonView::Text("g"@)]),
        ),
        entry(packed_rule(3, weights, a), "channels"@) == Some(
            JsonView::List(
                seq![JsonView::Text("r"@), JsonView::Text("g"@), JsonView::Text("b"@)],
            ),
        ),
        entry(channels_rule(a, b), "kind"@) == Some(JsonView::Text("linear-channels"@)),
        entry(channels_rule(a, b), "channels"@) == Some(
            JsonView::List(seq![JsonView::Text("r"@), JsonView::Text("g"@)]),
        ),
        entry(channels_rule(a, b), "scale"@) == Some(JsonView::Double(a)),
        entry(channels_rule(a, b), "offset"@) == Some(JsonView::Double(b)),
        components_view() == JsonView::List(
            seq![JsonView::Text("eastward"@), JsonView::Text("northward"@)],
        ),
        entry(mask_view(), "kind"@) == Some(JsonView::Text("channel-gte"@)),
        entry(mask_view(), "channel"@) == Some(JsonView::Text("b"@)),
        entry(mask_view(), "threshold"@) == Some(JsonView::Double(0x3fe0_0000_0000_0000)),
{
    reveal_strlit("kind");
    reveal_strlit("channels");
    reveal_strlit("channel");
    reveal_strlit("threshold");
    reveal_strlit("weights");
    reveal_strlit("offset");
    reveal_strlit("scale");
    assert("kind"@.len() == 4);
    assert("channels"@.len() == 8);
    assert("channel"@.len() == 7);
    assert("threshold"@.len() == 9);
    assert("weights"@.len() == 7);
    assert("offset"@.len() == 6);
    assert("scale"@.len() == 5);
    assert forall|n: int| 0 <= n <= 3 implies {
        &&& entry(#[trigger] packed_rule(n, weights, a), "kind"@) == Some(
            JsonView::Text("linear-packed"@),
        )
        &&& entry(packed_rule(n, weights, a), "channels"@) == Some(channels_view(n))
        &&& entry(packed_rule(n, weights, a), "weights"@) == Some(weights_view(weights, n))
        &&& entry(packed_rule(n, weights, a), "offset"@) == Some(JsonView::Double(a))
    } by {
        let rule = packed_rule(n, weights, a)->Object_0;
        assert(rule[0].0 == "kind"@ && rule[1].0 == "channels"@ && rule[2].0 == "weights"@
            && rule[3].0 == "offset"@);
        lemma_member_at(rule, 0);
        lemma_member_at(rule, 1);
        lemma_member_at(rule, 2);
        lemma_member_at(rule, 3);
    }
    let two = seq![JsonView::Text("r"@), JsonView::Text("g"@)];
    let three = seq![JsonView::Text("r"@), JsonView::Text("g"@), JsonView::Text("b"@)];
    assert(channels_view(2)->List_0 =~= two);
    assert(channels_view(3)->List_0 =~= three);
    assert(entry(packed_rule(2, weights, a), "channels"@) == Some(channels_view(2)));
    assert(entry(packed_rule(3, weights, a), "channels"@) == Some(channels_view(3)));
    let separate = channels_rule(a, b)->Object_0;
    assert(separate[0].0 == "kind"@ && separate[1].0 == "channels"@ && separate[2].0 == "scale"@
        && separate[3].0 == "offset"@);
    lemma_member_at(separate, 0);
    lemma_member_at(separate, 1);
    lemma_member_at(separate, 2);
    lemma_member_at(separate, 3);
    let mask = mask_view()->Object_0;
    assert(mask[0].0 == "kind"@ && mask[1].0 == "channel"@ && mask[2].0 == "threshold"@);
    lemma_member_at(mask, 0);
    lemma_member_at(mask, 1);
    lemma_member_at(mask, 2);
}

/// How a tile has to be sampled: with its nearest value where some band is quantized, and
/// otherwise linearly; as numbers, without conversion, premultiplication or mipmaps.
pub proof fn lemma_sampling_says(product: PreparedProduct)
    ensures
        ({
            let document = sampling_view(product);
            &&& entry(document, "filter"@) == Some(
                JsonView::Text(
                    if exists|b: int|
                        0 <= b < product.spec.quantize@.len() && (
                        #[trigger] product.spec.quantize@[b]) is Some {
                        "nearest"@
                    } else {
                        "linear"@
                    },
                ),
            )
            &&& entry(document, "sample_space"@) == Some(JsonView::Text("normalized-texel"@))
            &&& entry(document, "texture_format"@) == Some(JsonView::Text("rgba8unorm"@))
            &&& entry(document, "color_space_conversion"@) == Some(JsonView::Text("none"@))
            &&& entry(document, "premultiply_alpha"@) == Some(JsonView::Bool(false))
            &&& entry(document, "mipmaps"@) == Some(JsonView::Bool(false))
        }),
{
    reveal_strlit("sample_space");
    reveal_strlit("texture_format");
    reveal_strlit("filter");
    reveal_strlit("color_space_conversion");
    reveal_strlit("premultiply_alpha");
    reveal_strlit("mipmaps");
    assert("sample_space"@.len() == 12);
    assert("texture_format"@.len() == 14);
    assert("filter"@.len() == 6);
    assert("color_space_conversion"@.len() == 22);
    assert("premultiply_alpha"@.len() == 17);
    assert("mipmaps"@.len() == 7);
    let all = sampling_view(product)->Object_0;
    assert(all[0].0 == "sample_space"@ && all[1].0 == "texture_format"@ && all[2].0 == "filter"@
        && all[3].0 == "color_space_conversion"@ && all[4].0 == "premultiply_alpha"@ && all[5].0
        == "mipmaps"@);
    lemma_member_at(all, 0);
    lemma_member_at(all, 1);
    lemma_member_at(all, 2);
    lemma_member_at(all, 3);
    lemma_member_at(all, 4);
    lemma_member_at(all, 5);
}

/// What is said of the level of a field: its kind, and where it has a value, that and
/// its unit.
pub proof fn lemma_level_says(surface: FixedSurface, value: u64)
    ensures
        ({
            let document = level_view(surface, value);
            &&& document == JsonView::Null <==> surface is Unspecified
            &&& entry(document, "type"@) == match surface {
                FixedSurface::Unspecified => None,
                FixedSurface::Surface => Some(JsonView::Text("surface"@)),
                FixedSurface::Msl => Some(JsonView::Text("mean-sea-level"@)),
                FixedSurface::Altitude(_, _) => Some(JsonView::Text("height"@)),
                FixedSurface::IsobaricSurface(_, _) => Some(JsonView::Text("isobaric"@)),
                FixedSurface::DepthBelowSeaLevel(_, _) => Some(
                    JsonView::Text("depth-below-sea-level"@),
                ),
                FixedSurface::CloudTops => Some(JsonView::Text("cloud-tops"@)),
                FixedSurface::TankTotal => Some(JsonView::Text("tank-total"@)),
                FixedSurface::Tank(_) => Some(JsonView::Text("tank"@)),
            }
            &&& entry(document, "value"@) == match surface {
                FixedSurface::Altitude(_, _) => Some(JsonView::Double(value)),
                FixedSurface::IsobaricSurface(_, _) => Some(JsonView::Double(value)),
                FixedSurface::DepthBelowSeaLevel(_, _) => Some(JsonView::Double(value)),
                FixedSurface::Tank(number) => Some(JsonView::Int(number as int)),
                _ => None,
            }
            &&& entry(document, "unit"@) == match surface {
                FixedSurface::Altitude(_, _) => Some(JsonView::Text("m"@)),
                FixedSurface::IsobaricSurface(_, _) => Some(JsonView::Text("Pa"@)),
                FixedSurface::DepthBelowSeaLevel(_, _) => Some(JsonView::Text("m"@)),
                _ => None,
            }
        }),
{
    reveal_strlit("type");
    reveal_strlit("value");
    reveal_strlit("unit");
    assert("type"@.len() == 4);
    assert("value"@.len() == 5);
    assert("unit"@.len() == 4);
    assert("type"@[0] != "unit"@[0]);
    if !(surface is Unspecified) {
        let all = level_view(surface, value)->Object_0;
        assert(all[0].0 == "type"@);
        lemma_member_at(all, 0);
        if all.len() > 1 {
            assert(all[1].0 == "value"@);
            lemma_member_at(all, 1);
        } else {
            lemma_member_absent(all, "value"@);
        }
        if all.len() > 2 {
            assert(all[2].0 == "unit"@);
            lemma_member_at(all, 2);
        } else {
            lemma_member_absent(all, "unit"@);
        }
    }
}

/// Setting a member leaves at least one.
proof fn lemma_with_member_some(
    members: Seq<(Seq<char>, JsonView)>,
    name: Seq<char>,
    value: JsonView,
)
    ensures
        with_member(members, name, value).len() > 0,
    decreases members.len(),
{
    if members.len() > 0 && members[0].0 != name {
        lemma_with_member_some(members.skip(1), name, value);
    }
}

/// How bands are quantized is told under their names, by the last quantized band of a
/// name, and of no other bands.
pub proof fn lemma_quantization_says(product: PreparedProduct, n: int, name: Seq<char>)
    requires
        0 <= n <= product.spec.quantize@.len(),
        n <= product.spec.band_specs@.len(),
        n <= product.spec.omit_class@.len(),
    ensures
        quantization_view(product, n).len() > 0 <==> exists|b: int|
            0 <= b < n && (#[trigger] product.spec.quantize@[b]) is Some,
        member_of(quantization_view(product, n), name) is Some <==> exists|b: int|
            0 <= b < n && (#[trigger] product.spec.quantize@[b]) is Some
                && product.spec.band_specs@[b].name@ == name,
        forall|b: int|
            0 <= b < n && (#[trigger] product.spec.quantize@[b]) is Some
                && product.spec.band_specs@[b].name@ == name && (forall|c: int|
                b < c < n && product.spec.band_specs@[c].name@ == name ==> (
                #[trigger] product.spec.quantize@[c]) is None) ==> member_of(
                quantization_view(product, n),
                name,
            ) == Some(
                classes_view(
                    product.spec.quantize@[b]->0,
                    product.spec.omit_class@[b],
                ),
            ),
    decreases n,
{
    if n > 0 {
        lemma_quantization_says(product, n - 1, name);
        if let Some(quantize) = product.spec.quantize@[n - 1] {
            let own = product.spec.band_specs@[n - 1].name@;
            let value = classes_view(quantize, product.spec.omit_class@[n - 1]);
            lemma_with_member(quantization_view(product, n - 1), own, value, name);
            lemma_with_member_some(quantization_view(product, n - 1), own, value);
        }
    }
}

/// Which input values of bands are left out is told under their names, by the last band
/// of a name that leaves any out, and of no other bands.
pub proof fn lemma_omissions_say(product: PreparedProduct, n: int, name: Seq<char>)
    requires
        0 <= n <= product.spec.omit_zero@.len(),
        n <= product.spec.band_specs@.len(),
    ensures
        omitted_view(product, n).len() > 0 <==> exists|b: int|
            0 <= b < n && (#[trigger] product.spec.omit_zero@[b]) is Some,
        member_of(omitted_view(product, n), name) is Some <==> exists|b: int|
            0 <= b < n && (#[trigger] product.spec.omit_zero@[b]) is Some
                && product.spec.band_specs@[b].name@ == name,
        forall|b: int|
            0 <= b < n && (#[trigger] product.spec.omit_zero@[b]) is Some
                && product.spec.band_specs@[b].name@ == name && (forall|c: int|
                b < c < n && product.spec.band_specs@[c].name@ == name ==> (
                #[trigger] product.spec.omit_zero@[c]) is None) ==> lists_numbers(
                member_of(omitted_view(product, n), name),
                product.spec.omit_zero@[b]->0@,
            ),
    decreases n,
{
    if n > 0 {
        lemma_omissions_say(product, n - 1, name);
        if let Some(values) = product.spec.omit_zero@[n - 1] {
            let own = product.spec.band_specs@[n - 1].name@;
            let value = doubles_view(values@);
            lemma_with_member(omitted_view(product, n - 1), own, value, name);
            lemma_with_member_some(omitted_view(product, n - 1), own, value);
        }
    }
}

/// The classes of a band, and those that are left out, are listed as they are.
pub proof fn lemma_classes_say(quantize: Quantization, omitted: Option<Vec<u64>>)
    ensures
        ({
            let document = classes_view(quantize, omitted);
            &&& lists_numbers(entry(document, "bounds"@), quantize.bounds@)
            &&& lists_numbers(entry(document, "outputs"@), quantize.outputs@)
            &&& lists_numbers(
                entry(document, "omitted_classes"@),
                match omitted {
                    Some(values) => values@,
                    None => Seq::empty(),
                },
            )
        }),
{
    reveal_strlit("bounds");
    reveal_strlit("outputs");
    reveal_strlit("omitted_classes");
    assert("bounds"@.len() == 6);
    assert("outputs"@.len() == 7);
    assert("omitted_classes"@.len() == 15);
    let all = classes_view(quantize, omitted)->Object_0;
    assert(all[0].0 == "bounds"@ && all[1].0 == "outputs"@ && all[2].0 == "omitted_classes"@);
    lemma_member_at(all, 0);
    lemma_member_at(all, 1);
    lemma_member_at(all, 2);
}

/// An archive tells of lossy steps if and only if its first product has any: under
/// `quantization` how its bands are quantized, and under `omitted_input_values` what is
/// left out of them.
pub proof fn lemma_losses_say(
    name: Seq<char>,
    products: Seq<PreparedProduct>,
    names: Seq<String>,
    bounds: Seq<u64>,
    options: MetadataOptions,
    figures: Figures,
)
    requires
        products.len() > 0,
        products[0].spec.quantize@.len() == products[0].spec.band_specs@.len(),
        products[0].spec.omit_zero@.len() == products[0].spec.band_specs@.len(),
        products[0].spec.omit_class@.len() == products[0].spec.band_specs@.len(),
    ensures
        ({
            let document = JsonView::Object(
                common_view(name, bounds, options) + own_view(products, names, options, figures)
                    + losses_view(products),
            );
            let product = products[0];
            let n = product.spec.band_specs@.len() as int;
            &&& entry(document, "quantization"@) == if exists|b: int|
                0 <= b < n && (#[trigger] product.spec.quantize@[b]) is Some {
                Some(JsonView::Object(quantization_view(product, n)))
            } else {
                None
            }
            &&& entry(document, "omitted_input_values"@) == if exists|b: int|
                0 <= b < n && (#[trigger] product.spec.omit_zero@[b]) is Some {
                Some(JsonView::Object(omitted_view(product, n)))
            } else {
                None
            }
        }),
{
    lemma_archive_names();
    let product = products[0];
    let n = product.spec.band_specs@.len() as int;
    lemma_quantization_says(product, n, Seq::empty());
    lemma_omissions_say(product, n, Seq::empty());
    let common = common_view(name, bounds, options);
    let own = own_view(products, names, options, figures);
    let losses = losses_view(products);
    let all = common + own + losses;
    assert(all =~= common + (own + losses));
    lemma_common_names(name, bounds, options);
    assert forall|j: int| 0 <= j < own.len() implies (#[trigger] own[j]).0 != "quantization"@
        && own[j].0 != "omitted_input_values"@ by {
        if options.output is Raster {
            assert(own[0].0 == "raster_encoding"@ && own[1].0 == "product"@ && own[2].0
                == "reference_time"@ && own[3].0 == "valid_time"@);
            if options.sequence is Some {
                assert(own.len() == 5 && own[4].0 == "sequence"@);
            } else {
                assert(own.len() == 4);
            }
        } else {
            assert(own.len() == 1 && own[0].0 == "vector_layers"@);
        }
    }
    lemma_member_behind(common, own + losses, "quantization"@);
    lemma_member_behind(common, own + losses, "omitted_input_values"@);
    lemma_member_behind(own, losses, "quantization"@);
    lemma_member_behind(own, losses, "omitted_input_values"@);
    let quantized = quantization_view(product, n).len() > 0;
    let screened = omitted_view(product, n).len() > 0;
    assert(classed_bands(product) == n && screened_bands(product) == n);
    if quantized {
        assert(losses[0].0 == "quantization"@);
        lemma_member_at(losses, 0);
        if screened {
            assert(losses.len() == 2 && losses[1].0 == "omitted_input_values"@);
            lemma_member_at(losses, 1);
        } else {
            assert(losses.len() == 1);
            lemma_member_absent(losses, "omitted_input_values"@);
        }
    } else {
        if screened {
            assert(losses.len() == 1 && losses[0].0 == "omitted_input_values"@);
            lemma_member_at(losses, 0);
        } else {
            assert(losses.len() == 0);
            lemma_member_absent(losses, "omitted_input_values"@);
        }
        lemma_member_absent(losses, "quantization"@);
    }
}

/// The index names the product and the zooms that its archives share, and lists one
/// entry for each archive, in their order.
pub proof fn lemma_index_says(
    directory: Seq<Step>,
    products: Seq<PreparedProduct>,
    outputs: Seq<Vec<Step>>,
    output: TileOutput,
    zooms: (u8, u8),
    bounds: Seq<u64>,
    ranges: Seq<MeasuredRange>,
    figures: Figures,
)
    ensures
        ({
            let document = manifest_view(
                directory,
                products,
                outputs,
                output,
                zooms,
                bounds,
                ranges,
                figures,
            );
            &&& entry(document, "generator"@) == Some(JsonView::Text("grib2pmtiles"@))
            &&& entry(document, "product"@) == Some(
                if products.len() > 0 {
                    JsonView::Text(products[0].spec.name@)
                } else {
                    JsonView::Null
                },
            )
            &&& entry(document, "minzoom"@) == Some(JsonView::Int(zooms.0 as int))
            &&& entry(document, "maxzoom"@) == Some(JsonView::Int(zooms.1 as int))
            &&& lists_numbers(entry(document, "bounds"@), bounds)
            &&& output is Mvt ==> entry(document, "encoding"@) == Some(JsonView::Null)
            &&& output is Raster && products.len() > 0 ==> entry(document, "encoding"@) == Some(
                JsonView::Object(
                    encoding_members(Some(products[0]), output->Raster_0, figures),
                ),
            )
            &&& entry(document, "times"@) matches Some(JsonView::List(times)) && times.len()
                == if products.len() < outputs.len() {
                products.len()
            } else {
                outputs.len()
            }
        }),
{
    lemma_index_names();
    let members = manifest_view(
        directory,
        products,
        outputs,
        output,
        zooms,
        bounds,
        ranges,
        figures,
    )->Object_0;
    assert(members[0].0 == "generator"@ && members[1].0 == "product"@ && members[2].0
        == "minzoom"@ && members[3].0 == "maxzoom"@ && members[4].0 == "bounds"@ && members[5].0
        == "encoding"@ && members[6].0 == "times"@);
    lemma_member_at(members, 0);
    lemma_member_at(members, 1);
    lemma_member_at(members, 2);
    lemma_member_at(members, 3);
    lemma_member_at(members, 4);
    lemma_member_at(members, 5);
    lemma_member_at(members, 6);
}

/// What the index says of archive `i`: where it is, when its product is valid and when
/// it was issued, and the range of its own values. The archive says the same of its
/// times.
pub proof fn lemma_index_entry(
    directory: Seq<Step>,
    products: Seq<PreparedProduct>,
    outputs: Seq<Vec<Step>>,
    output: TileOutput,
    zooms: (u8, u8),
    bounds: Seq<u64>,
    ranges: Seq<MeasuredRange>,
    figures: Figures,
    i: int,
    name: Seq<char>,
    names: Seq<String>,
    options: MetadataOptions,
)
    requires
        0 <= i < products.len(),
        i < outputs.len(),
        options.output == output,
        output is Raster,
    ensures
        ({
            let document = manifest_view(
                directory,
                products,
                outputs,
                output,
                zooms,
                bounds,
                ranges,
                figures,
            );
            let archive = JsonView::Object(
                common_view(name, bounds, options) + own_view(
                    seq![products[i]],
                    names,
                    options,
                    figures,
                ) + losses_view(seq![products[i]]),
            );
            let time = entry(document, "times"@)->0->List_0[i];
            &&& entry(time, "url"@) == Some(
                JsonView::Text(url_of(destination(directory), destination(outputs[i]@))),
            )
            &&& entry(time, "valid_time"@) == Some(
                JsonView::Text(rfc3339_time_text(products[i].product_id.datetime as int)),
            )
            &&& entry(time, "reference_time"@) == Some(
                JsonView::Text(
                    rfc3339_time_text(products[i].product_id.reference_datetime as int),
                ),
            )
            &&& entry(time, "valid_time"@) == entry(archive, "valid_time"@)
            &&& entry(time, "reference_time"@) == entry(archive, "reference_time"@)
            &&& output matches TileOutput::Raster(encoding) ==> entry(time, "source_range"@)
                == Some(range_view(ranges[i], encoding))
        }),
{
    lemma_index_names();
    lemma_time_names();
    let members = manifest_view(
        directory,
        products,
        outputs,
        output,
        zooms,
        bounds,
        ranges,
        figures,
    )->Object_0;
    assert(members[0].0 == "generator"@ && members[1].0 == "product"@ && members[2].0
        == "minzoom"@ && members[3].0 == "maxzoom"@ && members[4].0 == "bounds"@ && members[5].0
        == "encoding"@ && members[6].0 == "times"@);
    lemma_member_at(members, 6);
    let time = members[6].1->List_0[i];
    let inner = time->Object_0;
    assert(inner[0].0 == "url"@ && inner[1].0 == "valid_time"@ && inner[2].0
        == "reference_time"@);
    lemma_member_at(inner, 0);
    lemma_member_at(inner, 1);
    lemma_member_at(inner, 2);
    assert(inner[3].0 == "source_range"@);
    lemma_member_at(inner, 3);
    lemma_raster_archive_says(
        name,
        seq![products[i]],
        names,
        bounds,
        options,
        figures,
        output->Raster_0,
    );
}

/// What is said of the range of a product: how many values it has and how many of them
/// are clipped, what share that is, and the extremes of each band that is encoded.
pub proof fn lemma_range_says(range: MeasuredRange, encoding: ColorEncoding)
    ensures
        ({
            let document = range_view(range, encoding);
            &&& entry(document, "values"@) == Some(JsonView::Int(range.report.total as int))
            &&& entry(document, "clipped_count"@) == Some(
                JsonView::Int(range.report.clipped as int),
            )
            &&& entry(document, "clipped_share_percent"@) == Some(
                JsonView::Double(range.clipped_share),
            )
            &&& entry(document, "bands"@) matches Some(JsonView::List(bands)) && {
                &&& bands.len() == if encoding is VectorField {
                    2nat
                } else {
                    1nat
                }
                &&& forall|b: int|
                    0 <= b < bands.len() ==> match range.report.extremes@[b] {
                        Some(extremes) => {
                            &&& entry(#[trigger] bands[b], "min"@) == Some(
                                JsonView::Double(extremes.low),
                            )
                            &&& entry(bands[b], "max"@) == Some(JsonView::Double(extremes.high))
                        },
                        None => bands[b] == JsonView::Null,
                    }
            }
        }),
{
    reveal_strlit("bands");
    reveal_strlit("values");
    reveal_strlit("clipped_count");
    reveal_strlit("clipped_share_percent");
    reveal_strlit("min");
    reveal_strlit("max");
    assert("bands"@.len() == 5);
    assert("values"@.len() == 6);
    assert("clipped_count"@.len() == 13);
    assert("clipped_share_percent"@.len() == 21);
    assert("min"@.len() == 3);
    assert("max"@.len() == 3);
    assert("min"@[1] != "max"@[1]);
    let members = range_view(range, encoding)->Object_0;
    assert(members[0].0 == "bands"@ && members[1].0 == "values"@ && members[2].0
        == "clipped_count"@ && members[3].0 == "clipped_share_percent"@);
    lemma_member_at(members, 0);
    lemma_member_at(members, 1);
    lemma_member_at(members, 2);
    lemma_member_at(members, 3);
    let bands = members[0].1->List_0;
    assert forall|b: int| 0 <= b < bands.len() implies match range.report.extremes@[b] {
        Some(extremes) => {
            &&& entry(#[trigger] bands[b], "min"@) == Some(JsonView::Double(extremes.low))
            &&& entry(bands[b], "max"@) == Some(JsonView::Double(extremes.high))
        },
        None => bands[b] == JsonView::Null,
    } by {
        if let Some(extremes) = range.report.extremes@[b] {
            let own = bands[b]->Object_0;
            assert(own[0].0 == "min"@ && own[1].0 == "max"@);
            lemma_member_at(own, 0);
            lemma_member_at(own, 1);
        }
    }
}

} // verus!
