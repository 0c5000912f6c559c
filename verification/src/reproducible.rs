//! Why the tiles of an archive are a function of what they are drawn from: whatever
//! order threads finish them in, two runs on the same cells or the same samples write
//! the same bytes at the same places. Otherwise nothing downstream could cache an
//! archive, ship a delta of it or sign it.
//!
//! The proofs start with the cells of a vector tile and the samples of a raster tile.
//! These are projected and interpolated from products in floating point, which is
//! outside of the library, so nothing is said here of the way to them.

use vstd::prelude::*;

use fast_mvt::MvtValue;

use crate::cells::{are_features, fill_alike, ProjectedCell};
use crate::conversion::{concatenated, gzip_stream};
use crate::image::{image_places, is_covered, pixels_of, png_file, Sample};
use crate::model::CompactOptI32;
use crate::mvt::{
    features_view, layer_bytes, lemma_same_layer, plain, tagged_by, FeatureView, TaggedFeature,
};
use crate::pyramid::{
    finished_in, lemma_same_archive, places_differ, written, EncodedTile, Zxy,
};
use crate::raster::{ColorEncoding, IMAGE_EXTENT};
use crate::sort::ascending;

verus! {

/// What a vector layer of a tile is made of: its name, its cells, the names of its
/// bands and the rule by which values become attributes.
pub struct LayerInput {
    pub name: Seq<char>,
    pub cells: Seq<ProjectedCell>,
    pub bands: Seq<String>,
    pub rule: spec_fn(Seq<CompactOptI32>) -> Seq<Option<MvtValue>>,
}

/// Features made of a layer's cells.
pub open spec fn made_of(input: LayerInput, extent: int, features: Seq<TaggedFeature>) -> bool {
    &&& are_features(plain(features), input.cells, extent, input.bands.len() as int)
    &&& tagged_by(features, input.rule)
}

/// What may be said of a layer.
pub open spec fn layer_said(input: LayerInput, extent: int, said: Seq<FeatureView>) -> bool {
    exists|features: Seq<TaggedFeature>| #[trigger]
        made_of(input, extent, features) && said == features_view(features, input.bands)
}

/// The bytes of the first `n` layers, without those that have no features.
pub open spec fn kept_layers(
    inputs: Seq<LayerInput>,
    said: Seq<Seq<FeatureView>>,
    extent: int,
    n: int,
) -> Seq<Seq<u8>>
    decreases n,
{
    if n <= 0 {
        Seq::empty()
    } else if said[n - 1].len() > 0 {
        kept_layers(inputs, said, extent, n - 1).push(
            layer_bytes(inputs[n - 1].name, extent as u32, said[n - 1]),
        )
    } else {
        kept_layers(inputs, said, extent, n - 1)
    }
}

/// What is said of each layer.
pub open spec fn all_said(
    inputs: Seq<LayerInput>,
    extent: int,
    said: Seq<Seq<FeatureView>>,
) -> bool {
    &&& said.len() == inputs.len()
    &&& forall|k: int| 0 <= k < inputs.len() ==> layer_said(inputs[k], extent, #[trigger] said[k])
    &&& exists|k: int| 0 <= k < said.len() && (#[trigger] said[k]).len() > 0
}

/// The stored bytes of a vector tile.
pub open spec fn vector_tile(inputs: Seq<LayerInput>, extent: int, bytes: Seq<u8>) -> bool {
    exists|said: Seq<Seq<FeatureView>>| #[trigger]
        all_said(inputs, extent, said) && gzip_stream(
            concatenated(kept_layers(inputs, said, extent, inputs.len() as int)),
        ) == Some(bytes)
}

/// A layer says one thing.
proof fn lemma_layer_said(
    input: LayerInput,
    extent: int,
    a: Seq<FeatureView>,
    b: Seq<FeatureView>,
)
    requires
        0 < extent <= 0x3fff_ffff,
        layer_said(input, extent, a),
        layer_said(input, extent, b),
    ensures
        a == b,
{
    let p = choose|p: Seq<TaggedFeature>| #[trigger]
        made_of(input, extent, p) && a == features_view(p, input.bands);
    let q = choose|q: Seq<TaggedFeature>| #[trigger]
        made_of(input, extent, q) && b == features_view(q, input.bands);
    assert(fill_alike(input.cells, input.cells, extent));
    lemma_same_layer(
        p,
        q,
        input.cells,
        input.cells,
        input.rule,
        input.name,
        extent,
        input.bands,
    );
}

/// A vector tile is a function of the cells of its layers.
pub proof fn lemma_one_vector_tile(
    inputs: Seq<LayerInput>,
    extent: int,
    a: Seq<u8>,
    b: Seq<u8>,
)
    requires
        0 < extent <= 0x3fff_ffff,
        vector_tile(inputs, extent, a),
        vector_tile(inputs, extent, b),
    ensures
        a == b,
{
    let n = inputs.len() as int;
    let p = choose|p: Seq<Seq<FeatureView>>| #[trigger]
        all_said(inputs, extent, p) && gzip_stream(
            concatenated(kept_layers(inputs, p, extent, n)),
        ) == Some(a);
    let q = choose|q: Seq<Seq<FeatureView>>| #[trigger]
        all_said(inputs, extent, q) && gzip_stream(
            concatenated(kept_layers(inputs, q, extent, n)),
        ) == Some(b);
    assert forall|k: int| 0 <= k < n implies p[k] == q[k] by {
        assert(layer_said(inputs[k], extent, p[k]) && layer_said(inputs[k], extent, q[k]));
        lemma_layer_said(inputs[k], extent, p[k], q[k]);
    }
    assert(p =~= q);
}

/// The tiles of a run: one for each place that has any bytes, and with these.
pub open spec fn finished(
    tiles: Seq<EncodedTile>,
    made: spec_fn(Zxy, Seq<u8>) -> bool,
) -> bool {
    &&& places_differ(tiles)
    &&& forall|i: int| 0 <= i < tiles.len() ==> made((#[trigger] tiles[i]).zxy, tiles[i].bytes@)
    &&& forall|place: Zxy, bytes: Seq<u8>| #[trigger]
        made(place, bytes) ==> exists|i: int|
            0 <= i < tiles.len() && (#[trigger] tiles[i]).zxy == place
}

/// No place has two kinds of bytes.
pub open spec fn single_valued(made: spec_fn(Zxy, Seq<u8>) -> bool) -> bool {
    forall|place: Zxy, a: Seq<u8>, b: Seq<u8>| #[trigger]
        made(place, a) && #[trigger] made(place, b) ==> a == b
}

/// The tiles of an archive are a function of what is made of each place: two runs that
/// make the same, in whatever order their threads finish, write the tiles with the
/// same bytes and in the same order.
pub proof fn lemma_one_archive(
    made: spec_fn(Zxy, Seq<u8>) -> bool,
    a: Seq<EncodedTile>,
    b: Seq<EncodedTile>,
    p: Seq<EncodedTile>,
    q: Seq<EncodedTile>,
)
    requires
        single_valued(made),
        finished(a, made),
        finished(b, made),
        ascending(p),
        p.to_multiset() == a.to_multiset(),
        ascending(q),
        q.to_multiset() == b.to_multiset(),
    ensures
        written(p) == written(q),
{
    lemma_finished(made, a, b);
    lemma_finished(made, b, a);
    lemma_same_archive(a, b, p, q);
}

proof fn lemma_finished(
    made: spec_fn(Zxy, Seq<u8>) -> bool,
    a: Seq<EncodedTile>,
    b: Seq<EncodedTile>,
)
    requires
        single_valued(made),
        finished(a, made),
        finished(b, made),
    ensures
        finished_in(a, b),
{
    assert forall|i: int| 0 <= i < a.len() implies written(b).contains(
        (#[trigger] a[i].zxy, a[i].bytes@),
    ) by {
        assert(made(a[i].zxy, a[i].bytes@));
        let j = choose|j: int| 0 <= j < b.len() && (#[trigger] b[j]).zxy == a[i].zxy;
        assert(made(b[j].zxy, b[j].bytes@));
        assert(written(b)[j] == (a[i].zxy, a[i].bytes@));
    }
}

/// The tiles of a vector archive: at the places where there is data, the layers of the
/// place.
pub open spec fn vector_tiles(
    places: spec_fn(Zxy) -> bool,
    inputs: spec_fn(Zxy) -> Seq<LayerInput>,
    extent: int,
) -> spec_fn(Zxy, Seq<u8>) -> bool {
    |place: Zxy, bytes: Seq<u8>| places(place) && vector_tile(inputs(place), extent, bytes)
}

/// The tiles of a raster archive: at the places where there is data, the image of what
/// was sampled there.
pub open spec fn raster_tiles(
    places: spec_fn(Zxy) -> bool,
    samples: spec_fn(Zxy) -> Seq<Option<Sample>>,
    encoding: ColorEncoding,
) -> spec_fn(Zxy, Seq<u8>) -> bool {
    |place: Zxy, bytes: Seq<u8>|
        {
            &&& places(place)
            &&& is_covered(samples(place))
            &&& samples(place).len() == image_places()
            &&& bytes == png_file(
                pixels_of(encoding, samples(place)),
                IMAGE_EXTENT,
                IMAGE_EXTENT,
            )
        }
}

/// Two runs on the same layers write the same vector archive.
pub proof fn lemma_one_vector_archive(
    places: spec_fn(Zxy) -> bool,
    inputs: spec_fn(Zxy) -> Seq<LayerInput>,
    extent: int,
    a: Seq<EncodedTile>,
    b: Seq<EncodedTile>,
    p: Seq<EncodedTile>,
    q: Seq<EncodedTile>,
)
    requires
        0 < extent <= 0x3fff_ffff,
        finished(a, vector_tiles(places, inputs, extent)),
        finished(b, vector_tiles(places, inputs, extent)),
        ascending(p),
        p.to_multiset() == a.to_multiset(),
        ascending(q),
        q.to_multiset() == b.to_multiset(),
    ensures
        written(p) == written(q),
{
    let made = vector_tiles(places, inputs, extent);
    assert forall|place: Zxy, x: Seq<u8>, y: Seq<u8>| #[trigger]
        made(place, x) && #[trigger] made(place, y) implies x == y by {
        lemma_one_vector_tile(inputs(place), extent, x, y);
    }
    lemma_one_archive(made, a, b, p, q);
}

/// Two runs on the same samples write the same raster archive.
pub proof fn lemma_one_raster_archive(
    places: spec_fn(Zxy) -> bool,
    samples: spec_fn(Zxy) -> Seq<Option<Sample>>,
    encoding: ColorEncoding,
    a: Seq<EncodedTile>,
    b: Seq<EncodedTile>,
    p: Seq<EncodedTile>,
    q: Seq<EncodedTile>,
)
    requires
        finished(a, raster_tiles(places, samples, encoding)),
        finished(b, raster_tiles(places, samples, encoding)),
        ascending(p),
        p.to_multiset() == a.to_multiset(),
        ascending(q),
        q.to_multiset() == b.to_multiset(),
    ensures
        written(p) == written(q),
{
    lemma_one_archive(raster_tiles(places, samples, encoding), a, b, p, q);
}

} // verus!
