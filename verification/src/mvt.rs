//! Writing the features of a tile as a vector layer.

use vstd::prelude::*;

use fast_mvt::{MvtError, MvtFeatureBuilder, MvtLayerBuilder, MvtValue};

use crate::cells::{are_features, fill_alike, lemma_same_features, said_of, Feature, ProjectedCell};
use crate::geometry::{
    cross_product, lemma_term_bound, polygons_view, rings_view, step_sum, Coord, LineString, Polygon,
};
use crate::model::CompactOptI32;
use crate::text::chars_of;

verus! {

/// Declares `fast_mvt`'s builder of a layer.
#[verifier::external_type_specification]
#[verifier::external_body]
pub struct ExMvtLayerBuilder(MvtLayerBuilder);

/// Declares `fast_mvt`'s builder of a feature.
#[verifier::external_type_specification]
#[verifier::external_body]
pub struct ExMvtFeatureBuilder(MvtFeatureBuilder);

/// Declares `fast_mvt`'s attribute value, which is only carried through.
#[verifier::external_type_specification]
#[verifier::external_body]
pub struct ExMvtValue(MvtValue);

/// Declares `fast_mvt`'s error.
#[verifier::external_type_specification]
#[verifier::external_body]
pub struct ExMvtError(MvtError);

/// What has been said of a feature: the words that draw its polygons, its
/// attributes in the order in which they were set, and its id.
pub struct FeatureView {
    pub geometry: Seq<u32>,
    pub tags: Seq<(Seq<char>, MvtValue)>,
    pub id: Option<u64>,
}

/// What a builder of a layer holds: the name, the extent and the finished
/// features.
pub uninterp spec fn layer_contents(layer: MvtLayerBuilder) -> (Seq<char>, u32, Seq<FeatureView>);

/// What a builder of a feature holds: what its layer holds, and the feature so
/// far.
pub uninterp spec fn feature_contents(feature: MvtFeatureBuilder) -> (
    (Seq<char>, u32, Seq<FeatureView>),
    FeatureView,
);

/// The bytes that `fast_mvt` makes of a layer.
pub uninterp spec fn layer_bytes(name: Seq<char>, extent: u32, features: Seq<FeatureView>) -> Seq<
    u8,
>;

/// The words with which `fast_mvt` draws polygons, each given by its outer ring and
/// its holes. A ring is drawn without a repeated first point, an outer one
/// clockwise and a hole the other way round, whichever way it was given.
pub uninterp spec fn geometry_words(polygons: Seq<(Seq<Coord>, Seq<Seq<Coord>>)>) -> Seq<u32>;

/// A ring without its first point repeated at the end.
pub open spec fn opened(ring: Seq<Coord>) -> Seq<Coord> {
    if ring.len() >= 2 && ring[0] == ring.last() {
        ring.drop_last()
    } else {
        ring
    }
}

/// The area of the first `n` steps of a ring, doubled.
pub open spec fn area_upto(ring: Seq<Coord>, n: nat) -> int {
    step_sum(ring, n, |p: Coord, q: Coord| cross_product(p, q))
}

/// A ring that can be drawn: it has points, no more steps than a command can
/// repeat, and an area that can be summed up in a machine word.
pub open spec fn is_fit_ring(ring: LineString) -> bool {
    let points = opened(ring.0@);
    &&& 1 <= points.len() <= 0x2000_0000
    &&& forall|n: nat|
        n <= points.len() ==> i64::MIN <= #[trigger] area_upto(points, n) <= i64::MAX
}

pub open spec fn is_fit_polygon(polygon: Polygon) -> bool {
    &&& is_fit_ring(polygon.exterior)
    &&& forall|i: int|
        0 <= i < polygon.interiors@.len() ==> is_fit_ring(#[trigger] polygon.interiors@[i])
}

pub open spec fn are_fit(polygons: Seq<Polygon>) -> bool {
    forall|i: int| 0 <= i < polygons.len() ==> is_fit_polygon(#[trigger] polygons[i])
}

/// Starts a layer with `fast_mvt`'s `MvtLayerBuilder::with_capacity`. Only an empty
/// name is refused. A new layer has no features, and the default extent.
#[verifier::external_body]
fn start_layer(name: &str, features: usize) -> (layer: Result<MvtLayerBuilder, MvtError>)
    requires
        features <= 0x10_0000,
    ensures
        match layer {
            Ok(layer) => name@.len() > 0 && layer_contents(layer) == (
                name@,
                4096u32,
                Seq::<FeatureView>::empty(),
            ),
            Err(_) => name@.len() == 0,
        },
{
    MvtLayerBuilder::with_capacity(name, features)
}

/// Sets the extent of a layer with `fast_mvt`'s `MvtLayerBuilder::extent`, and
/// changes nothing else.
#[verifier::external_body]
fn set_extent(layer: &mut MvtLayerBuilder, extent: u32)
    requires
        extent > 0,
    ensures
        layer_contents(*final(layer)) == (
            layer_contents(*old(layer)).0,
            extent,
            layer_contents(*old(layer)).2,
        ),
{
    layer.extent(std::num::NonZeroU32::new(extent).unwrap());
}

/// Starts a feature of polygons with `fast_mvt`'s `MvtLayerBuilder::feature`. The
/// feature is drawn with words that depend on the polygons alone, has no
/// attributes and no id, and its layer holds what it held. For a ring it writes a
/// command and a point to start with, a command and two words for each further
/// point, and a command to close it. It refuses rings without points and with
/// more than it can number, and sums up areas in 64 bits; of rings that are fit it
/// refuses none.
#[verifier::external_body]
fn start_feature(layer: MvtLayerBuilder, polygons: &Vec<Polygon>) -> (feature: Result<
    MvtFeatureBuilder,
    MvtError,
>)
    requires
        are_fit(polygons@),
    ensures
        feature matches Ok(feature) && feature_contents(feature) == (
            layer_contents(layer),
            FeatureView {
                geometry: geometry_words(polygons_view(polygons@)),
                tags: Seq::empty(),
                id: None,
            },
        ) && 5 * feature_contents(feature).1.geometry.len() <= polygons_weight(
            polygons_view(polygons@),
        ),
{
    let ring = |ring: &LineString| {
        ring.0.iter().map(|c| fast_mvt::MvtCoord { x: c.x, y: c.y }).collect()
    };
    let polygons = polygons
        .iter()
        .map(|p| {
            fast_mvt::MvtPolygon::new(ring(&p.exterior), p.interiors.iter().map(ring).collect())
        })
        .collect();
    layer.feature(&fast_mvt::MvtGeometry::MultiPolygon(polygons))
}

/// How many attributes features have.
pub open spec fn tag_count(features: Seq<FeatureView>) -> nat
    decreases features.len(),
{
    if features.len() == 0 {
        0
    } else {
        tag_count(features.drop_last()) + features.last().tags.len()
    }
}

/// What is said of a feature with one more attribute. A null one counts for nothing.
pub open spec fn with_tag(feature: FeatureView, key: Seq<char>, value: MvtValue) -> FeatureView {
    if is_null(value) {
        feature
    } else {
        FeatureView {
            geometry: feature.geometry,
            tags: feature.tags.push((key, value)),
            id: feature.id,
        }
    }
}

/// Sets an attribute with `fast_mvt`'s `MvtFeatureBuilder::tag`, behind those that
/// were set before. It drops the null value. It numbers the keys and the values of
/// a layer in 32 bits, and refuses an attribute only where they run out.
#[verifier::external_body]
fn set_tag(feature: &mut MvtFeatureBuilder, key: &str, value: &MvtValue) -> (outcome: Result<
    (),
    MvtError,
>)
    ensures
        tag_count(feature_contents(*old(feature)).0.2) + feature_contents(
            *old(feature),
        ).1.tags.len() < u32::MAX ==> outcome is Ok,
        outcome is Ok ==> feature_contents(*final(feature)) == (
            feature_contents(*old(feature)).0,
            with_tag(feature_contents(*old(feature)).1, key@, *value),
        ),
{
    feature.tag(key, value.clone())?;
    Ok(())
}

/// Sets the id of a feature with `fast_mvt`'s `MvtFeatureBuilder::id`, and changes
/// nothing else.
#[verifier::external_body]
fn set_id(feature: &mut MvtFeatureBuilder, id: Option<u64>)
    ensures
        feature_contents(*final(feature)) == (
            feature_contents(*old(feature)).0,
            (FeatureView {
                geometry: feature_contents(*old(feature)).1.geometry,
                tags: feature_contents(*old(feature)).1.tags,
                id,
            }),
        ),
{
    feature.id(id);
}

/// Finishes a feature with `fast_mvt`'s `MvtFeatureBuilder::end`: it stands behind
/// the other features of its layer.
#[verifier::external_body]
fn end_feature(feature: MvtFeatureBuilder) -> (layer: MvtLayerBuilder)
    ensures
        layer_contents(layer) == (
            feature_contents(feature).0.0,
            feature_contents(feature).0.1,
            feature_contents(feature).0.2.push(feature_contents(feature).1),
        ),
{
    feature.end()
}

/// The text that an attribute is, where it is one.
pub uninterp spec fn text_of(value: MvtValue) -> Option<Seq<char>>;

/// Gives the text of a `fast_mvt` value of the variant `String`, and nothing of the
/// others.
#[verifier::external_body]
fn text_in(value: &MvtValue) -> (text: Option<&str>)
    ensures
        match text {
            Some(text) => text_of(*value) == Some(text@),
            None => text_of(*value) is None,
        },
{
    match value {
        MvtValue::String(text) => Some(text.as_str()),
        _ => None,
    }
}

/// The attribute is null.
pub uninterp spec fn is_null(value: MvtValue) -> bool;

/// Tells whether a `fast_mvt` value is of its variant `Null`.
#[verifier::external_body]
fn holds_nothing(value: &MvtValue) -> (r: bool)
    ensures
        r == is_null(*value),
{
    matches!(value, MvtValue::Null)
}

/// A bound on the bytes of a ring: five for each of its words.
pub open spec fn ring_weight(ring: Seq<Coord>) -> nat {
    5 * (2 * ring.len() + 3)
}

pub open spec fn rings_weight(rings: Seq<Seq<Coord>>) -> nat
    decreases rings.len(),
{
    if rings.len() == 0 {
        0
    } else {
        rings_weight(rings.drop_last()) + ring_weight(rings.last())
    }
}

pub open spec fn polygons_weight(polygons: Seq<(Seq<Coord>, Seq<Seq<Coord>>)>) -> nat
    decreases polygons.len(),
{
    if polygons.len() == 0 {
        0
    } else {
        polygons_weight(polygons.drop_last()) + ring_weight(polygons.last().0) + rings_weight(
            polygons.last().1,
        )
    }
}

/// A bound on the bytes of an attribute: four for each character of its key and of a
/// text, and some for the rest.
pub open spec fn tag_weight(tag: (Seq<char>, MvtValue)) -> nat {
    40 + 4 * tag.0.len() + match text_of(tag.1) {
        Some(text) => 4 * text.len(),
        None => 0,
    }
}

pub open spec fn tags_weight(tags: Seq<(Seq<char>, MvtValue)>) -> nat
    decreases tags.len(),
{
    if tags.len() == 0 {
        0
    } else {
        tags_weight(tags.drop_last()) + tag_weight(tags.last())
    }
}

pub open spec fn features_weight(features: Seq<FeatureView>) -> nat
    decreases features.len(),
{
    if features.len() == 0 {
        0
    } else {
        features_weight(features.drop_last()) + 48 + 5 * features.last().geometry.len()
            + tags_weight(features.last().tags)
    }
}

/// A bound on the bytes of a layer: what its name, its words and its attributes
/// take at most.
pub open spec fn layer_weight(name: Seq<char>, features: Seq<FeatureView>) -> nat {
    64 + 4 * name.len() + features_weight(features)
}

/// How many bytes a layer may take: a message holds less than two gibibytes.
pub const LAYER_LIMIT: u64 = 0x7fff_ffff;

/// Writes a layer with `fast_mvt`'s `MvtLayerBuilder::encode`, which panics where
/// the message is longer than the limit. The bytes depend on what the layer holds
/// alone; they are not stated.
#[verifier::external_body]
fn encode_layer(layer: MvtLayerBuilder) -> (bytes: Vec<u8>)
    requires
        layer_bytes(
            layer_contents(layer).0,
            layer_contents(layer).1,
            layer_contents(layer).2,
        ).len() <= LAYER_LIMIT,
    ensures
        bytes@ == layer_bytes(
            layer_contents(layer).0,
            layer_contents(layer).1,
            layer_contents(layer).2,
        ),
{
    layer.encode()
}

/// Measures a layer with `fast_mvt`'s `MvtTileBuilder::encoded_len`, once
/// `MvtLayerBuilder::end` has made a tile of it alone: it counts the bytes that
/// would be written. It panics where they are too many, which the weight rules out.
#[verifier::external_body]
fn measure_layer(layer: MvtLayerBuilder) -> (count: usize)
    requires
        layer_weight(layer_contents(layer).0, layer_contents(layer).2) <= LAYER_LIMIT,
    ensures
        count == layer_bytes(
            layer_contents(layer).0,
            layer_contents(layer).1,
            layer_contents(layer).2,
        ).len(),
{
    layer.end().encoded_len()
}

/// A feature with the attributes of its bands. A band without a value has none.
#[derive(Debug)]
pub struct TaggedFeature {
    pub feature: Feature,
    pub tags: Vec<Option<MvtValue>>,
}

impl TaggedFeature {
    /// Every band that has a value has an attribute, as far as there are bands.
    pub open spec fn wf(&self, bands: int) -> bool {
        &&& self.tags@.len() == bands
        &&& forall|b: int|
            0 <= b < bands && b < 4 && self.feature.values@[b]@ is Some ==> (
            #[trigger] self.tags@[b]) is Some
    }
}

/// The attributes of the first `n` bands, without those that are null.
pub open spec fn tags_view(feature: TaggedFeature, names: Seq<String>, n: int) -> Seq<
    (Seq<char>, MvtValue),
>
    decreases n,
{
    if n <= 0 {
        Seq::empty()
    } else if feature.feature.values@[n - 1]@ is Some && !is_null(feature.tags@[n - 1]->0) {
        tags_view(feature, names, n - 1).push((names[n - 1]@, feature.tags@[n - 1]->0))
    } else {
        tags_view(feature, names, n - 1)
    }
}

/// What is said of a feature.
pub open spec fn feature_view(feature: TaggedFeature, names: Seq<String>) -> FeatureView {
    FeatureView {
        geometry: geometry_words(polygons_view(feature.feature.polygons@)),
        tags: tags_view(
            feature,
            names,
            if names.len() < 4 {
                names.len() as int
            } else {
                4
            },
        ),
        id: feature.feature.id,
    }
}

/// What is said of all the features.
pub open spec fn features_view(features: Seq<TaggedFeature>, names: Seq<String>) -> Seq<
    FeatureView,
> {
    features.map_values(|f: TaggedFeature| feature_view(f, names))
}

/// A bound on the bytes of a feature, by its points.
pub open spec fn drawing_weight(feature: TaggedFeature, names: Seq<String>) -> nat {
    48 + polygons_weight(polygons_view(feature.feature.polygons@)) + tags_weight(
        feature_view(feature, names).tags,
    )
}

/// A bound on the bytes of features, by their points.
pub open spec fn drawings_weight(features: Seq<TaggedFeature>, names: Seq<String>) -> nat
    decreases features.len(),
{
    if features.len() == 0 {
        0
    } else {
        drawings_weight(features.drop_last(), names) + drawing_weight(features.last(), names)
    }
}

/// What a layer of features may weigh.
pub open spec fn heaviest(name: Seq<char>, features: Seq<TaggedFeature>, names: Seq<String>) -> nat {
    64 + 4 * name.len() + drawings_weight(features, names)
}

/// Why a layer cannot be written.
#[derive(Clone, Copy, Debug, PartialEq, Eq, Structural)]
pub enum LayerError {
    /// The layer has no name.
    MissingName,
    /// A polygon cannot be drawn.
    Unfit,
}

fn is_fit(ring: &LineString) -> (r: bool)
    ensures
        r == is_fit_ring(*ring),
{
    let total: usize = ring.0.len();
    let count: usize = if total >= 2 && ring.0[0] == ring.0[total - 1] {
        total - 1
    } else {
        total
    };
    let ghost points = opened(ring.0@);
    if count < 1 || count > 0x2000_0000 {
        return false;
    }
    let mut area: i128 = 0;
    let mut i: usize = 0;
    while i < count
        invariant
            i <= count,
            count == points.len(),
            1 <= count <= 0x2000_0000,
            points == opened(ring.0@),
            count <= ring.0@.len(),
            area == area_upto(points, i as nat),
            forall|n: nat|
                n <= i ==> i64::MIN <= #[trigger] area_upto(points, n) <= i64::MAX,
        decreases count - i,
    {
        let left = ring.0[i];
        let right = if i + 1 < count {
            ring.0[i + 1]
        } else {
            ring.0[0]
        };
        proof {
            let n = i as int + 1;
            assert(points[i as int] == left);
            assert(n % count as int == if n < count {
                n
            } else {
                0
            }) by {
                if n < count {
                    vstd::arithmetic::div_mod::lemma_small_mod(n as nat, count as nat);
                } else {
                    vstd::arithmetic::div_mod::lemma_mod_self_0(n);
                }
            }
            assert(points[n % count as int] == right);
            lemma_term_bound(left, right);
            assert(area_upto(points, n as nat) == area_upto(points, i as nat) + cross_product(
                left,
                right,
            ));
        }
        let down: i128 = left.x as i128 * right.y as i128;
        let up: i128 = left.y as i128 * right.x as i128;
        area = area + (down - up);
        i = i + 1;
        if area < i64::MIN as i128 || area > i64::MAX as i128 {
            assert(!(i64::MIN <= area_upto(points, i as nat) <= i64::MAX));
            return false;
        }
    }
    true
}

fn all_fit(polygons: &Vec<Polygon>) -> (r: bool)
    ensures
        r == are_fit(polygons@),
{
    let mut i: usize = 0;
    while i < polygons.len()
        invariant
            i <= polygons@.len(),
            forall|k: int| 0 <= k < i ==> is_fit_polygon(#[trigger] polygons@[k]),
        decreases polygons@.len() - i,
    {
        let polygon = &polygons[i];
        if !is_fit(&polygon.exterior) {
            assert(!is_fit_polygon(polygons@[i as int]));
            return false;
        }
        let mut h: usize = 0;
        while h < polygon.interiors.len()
            invariant
                h <= polygon.interiors@.len(),
                i < polygons@.len(),
                *polygon == polygons@[i as int],
                forall|k: int| 0 <= k < h ==> is_fit_ring(#[trigger] polygon.interiors@[k]),
            decreases polygon.interiors@.len() - h,
        {
            if !is_fit(&polygon.interiors[h]) {
                assert(!is_fit_polygon(polygons@[i as int]));
                return false;
            }
            h = h + 1;
        }
        i = i + 1;
    }
    true
}

/// Some feature cannot be drawn.
pub open spec fn has_unfit(features: Seq<TaggedFeature>) -> bool {
    exists|i: int| 0 <= i < features.len() && !are_fit((#[trigger] features[i]).feature.polygons@)
}

/// A weight as far as it can be counted.
pub open spec fn capped(weight: nat) -> u64 {
    if weight > u64::MAX {
        u64::MAX
    } else {
        weight as u64
    }
}

fn add_weight(a: u64, b: u64) -> (r: u64)
    ensures
        forall|w: nat| a == capped(w) ==> r == #[trigger] capped((w + b) as nat),
{
    if a > u64::MAX - b {
        u64::MAX
    } else {
        a + b
    }
}

/// Adds the weight of a ring.
fn weigh_ring(start: u64, ring: &LineString) -> (r: u64)
    requires
        is_fit_ring(*ring),
    ensures
        forall|w: nat| start == capped(w) ==> r == #[trigger] capped(w + ring_weight(ring.0@)),
{
    let own: u64 = 15 + 10 * ring.0.len() as u64;
    let r: u64 = add_weight(start, own);
    proof {
        assert forall|w: nat| start == capped(w) implies r == #[trigger] capped(
            w + ring_weight(ring.0@),
        ) by {
            assert(r == capped((w + own) as nat));
        }
    }
    r
}

fn weigh_polygon(start: u64, polygon: &Polygon) -> (r: u64)
    requires
        is_fit_polygon(*polygon),
    ensures
        forall|w: nat|
            start == capped(w) ==> r == #[trigger] capped(
                w + ring_weight(polygon.exterior.0@) + rings_weight(
                    rings_view(polygon.interiors@),
                ),
            ),
{
    let ghost rings = rings_view(polygon.interiors@);
    let ghost outer = ring_weight(polygon.exterior.0@);
    let mut r: u64 = weigh_ring(start, &polygon.exterior);
    let mut h: usize = 0;
    proof {
        assert(rings.take(0) =~= Seq::empty());
    }
    while h < polygon.interiors.len()
        invariant
            h <= polygon.interiors@.len(),
            is_fit_polygon(*polygon),
            rings == rings_view(polygon.interiors@),
            forall|w: nat|
                start == capped(w) ==> r == #[trigger] capped(
                    w + outer + rings_weight(rings.take(h as int)),
                ),
        decreases polygon.interiors@.len() - h,
    {
        let ghost before = r;
        r = weigh_ring(r, &polygon.interiors[h]);
        proof {
            assert(rings.take(h + 1).drop_last() =~= rings.take(h as int));
            assert(rings.take(h + 1).last() == polygon.interiors@[h as int].0@);
            assert forall|w: nat| start == capped(w) implies r == #[trigger] capped(
                w + outer + rings_weight(rings.take(h + 1)),
            ) by {
                let part = w + outer + rings_weight(rings.take(h as int));
                assert(before == capped(part));
                assert(r == capped(part + ring_weight(polygon.interiors@[h as int].0@)));
            }
        }
        h = h + 1;
    }
    assert(rings.take(rings.len() as int) =~= rings);
    r
}

/// Adds the weight of a feature.
fn weigh_feature(start: u64, feature: &TaggedFeature, names: &Vec<String>) -> (r: u64)
    requires
        feature.wf(names@.len() as int),
        are_fit(feature.feature.polygons@),
    ensures
        forall|w: nat|
            start == capped(w) ==> r == #[trigger] capped(w + drawing_weight(*feature, names@)),
{
    let polygons = &feature.feature.polygons;
    let ghost drawn = polygons_view(polygons@);
    let mut r: u64 = add_weight(start, 48);
    let mut i: usize = 0;
    proof {
        assert(drawn.take(0) =~= Seq::empty());
        assert forall|w: nat| start == capped(w) implies r == #[trigger] capped(
            w + 48 + polygons_weight(drawn.take(0)),
        ) by {
            assert(r == capped((w + 48u64) as nat));
        }
    }
    while i < polygons.len()
        invariant
            i <= polygons@.len(),
            are_fit(polygons@),
            drawn == polygons_view(polygons@),
            forall|w: nat|
                start == capped(w) ==> r == #[trigger] capped(
                    w + 48 + polygons_weight(drawn.take(i as int)),
                ),
        decreases polygons@.len() - i,
    {
        let ghost before = r;
        r = weigh_polygon(r, &polygons[i]);
        proof {
            assert(drawn.take(i + 1).drop_last() =~= drawn.take(i as int));
            let p = polygons@[i as int];
            let rings = rings_view(p.interiors@);
            assert(drawn.take(i + 1).last() == (p.exterior.0@, rings));
            assert forall|w: nat| start == capped(w) implies r == #[trigger] capped(
                w + 48 + polygons_weight(drawn.take(i + 1)),
            ) by {
                let part = (w + 48 + polygons_weight(drawn.take(i as int))) as nat;
                assert(before == capped(part));
                assert(r == capped(part + ring_weight(p.exterior.0@) + rings_weight(rings)));
            }
        }
        i = i + 1;
    }
    let ghost all = polygons_weight(drawn);
    proof {
        assert(drawn.take(drawn.len() as int) =~= drawn);
    }
    let mut b: usize = 0;
    while b < names.len() && b < 4
        invariant
            b <= names@.len(),
            b <= 4,
            feature.wf(names@.len() as int),
            forall|w: nat|
                start == capped(w) ==> r == #[trigger] capped(
                    w + 48 + all + tags_weight(tags_view(*feature, names@, b as int)),
                ),
        decreases names@.len() - b,
    {
        let ghost before = r;
        let ghost tags = tags_view(*feature, names@, b as int);
        if feature.feature.values[b].get().is_some() {
            if let Some(value) = &feature.tags[b] {
                if !holds_nothing(value) {
                    r = weigh_tag(r, names[b].as_str(), value);
                    proof {
                        let next = tags_view(*feature, names@, b + 1);
                        assert(next.drop_last() =~= tags);
                        assert(next.last() == (names@[b as int]@, *value));
                        assert forall|w: nat| start == capped(w) implies r == #[trigger] capped(
                            w + 48 + all + tags_weight(next),
                        ) by {
                            let part = (w + 48 + all + tags_weight(tags)) as nat;
                            assert(before == capped(part));
                            assert(r == capped(part + tag_weight((names@[b as int]@, *value))));
                        }
                    }
                }
            } else {
                assert(feature.tags@[b as int] is Some);
            }
        }
        b = b + 1;
    }
    proof {
        assert forall|w: nat| start == capped(w) implies r == #[trigger] capped(
            w + drawing_weight(*feature, names@),
        ) by {
            let tags = feature_view(*feature, names@).tags;
            assert(w + drawing_weight(*feature, names@) == w + 48 + all + tags_weight(tags));
            assert(r == capped((w + 48 + all + tags_weight(tags)) as nat));
        }
    }
    r
}

/// Adds the weight of an attribute.
fn weigh_tag(start: u64, key: &str, value: &MvtValue) -> (r: u64)
    ensures
        forall|w: nat| start == capped(w) ==> r == #[trigger] capped(w + tag_weight((key@, *value))),
{
    let chars = chars_of(key);
    let begun: u64 = add_weight(start, 40);
    let named: u64 = weigh_text(begun, &chars);
    let r: u64 = match text_in(value) {
        Some(text) => weigh_text(named, &chars_of(text)),
        None => named,
    };
    proof {
        assert forall|w: nat| start == capped(w) implies r == #[trigger] capped(
            w + tag_weight((key@, *value)),
        ) by {
            assert(begun == capped((w + 40u64) as nat));
            let w1 = (w + 40) as nat;
            assert(named == capped(w1 + 4 * key@.len()));
            let w2 = w1 + 4 * key@.len();
            if let Some(text) = text_of(*value) {
                assert(r == capped(w2 + 4 * text.len()));
            }
        }
    }
    r
}

/// Adds the weight of a text.
fn weigh_text(start: u64, chars: &Vec<char>) -> (r: u64)
    ensures
        forall|w: nat| start == capped(w) ==> r == #[trigger] capped(w + 4 * chars@.len()),
{
    let count: usize = chars.len();
    let first: u64 = add_weight(start, count as u64);
    let second: u64 = add_weight(first, count as u64);
    let third: u64 = add_weight(second, count as u64);
    let r: u64 = add_weight(third, count as u64);
    proof {
        assert forall|w: nat| start == capped(w) implies r == #[trigger] capped(
            w + 4 * chars@.len(),
        ) by {
            let n = count as nat;
            assert(first == capped((w + count as u64) as nat));
            let w1 = w + n;
            assert(second == capped((w1 + count as u64) as nat));
            let w2 = w1 + n;
            assert(third == capped((w2 + count as u64) as nat));
            let w3 = w2 + n;
            assert(r == capped((w3 + count as u64) as nat));
        }
    }
    r
}

fn add_feature(layer: MvtLayerBuilder, feature: &TaggedFeature, names: &Vec<String>) -> (after:
    Option<MvtLayerBuilder>)
    requires
        feature.wf(names@.len() as int),
        are_fit(feature.feature.polygons@),
        tag_count(layer_contents(layer).2) + 4 <= u32::MAX,
    ensures
        after matches Some(after) && layer_contents(after) == (
            layer_contents(layer).0,
            layer_contents(layer).1,
            layer_contents(layer).2.push(feature_view(*feature, names@)),
        ),
        5 * feature_view(*feature, names@).geometry.len() <= polygons_weight(
            polygons_view(feature.feature.polygons@),
        ),
{
    let ghost start = layer_contents(layer);
    let mut draft = match start_feature(layer, &feature.feature.polygons) {
        Ok(draft) => draft,
        Err(_) => {
            return None;
        },
    };
    let mut b: usize = 0;
    while b < names.len() && b < 4
        invariant
            b <= names@.len(),
            b <= 4,
            feature.wf(names@.len() as int),
            tag_count(start.2) + 4 <= u32::MAX,
            tags_view(*feature, names@, b as int).len() <= b,
            feature_contents(draft) == (
                start,
                (FeatureView {
                    geometry: geometry_words(polygons_view(feature.feature.polygons@)),
                    tags: tags_view(*feature, names@, b as int),
                    id: None,
                }),
            ),
        decreases names@.len() - b,
    {
        if feature.feature.values[b].get().is_some() {
            if let Some(value) = &feature.tags[b] {
                match set_tag(&mut draft, names[b].as_str(), value) {
                    Ok(_) => {},
                    Err(_) => {
                        return None;
                    },
                }
            } else {
                assert(feature.tags@[b as int] is Some);
            }
        }
        b = b + 1;
    }
    if feature.feature.id.is_some() {
        set_id(&mut draft, feature.feature.id);
    }
    Some(end_feature(draft))
}

proof fn lemma_tags_few(feature: TaggedFeature, names: Seq<String>, n: int)
    requires
        0 <= n,
    ensures
        tags_view(feature, names, n).len() <= n,
    decreases n,
{
    if n > 0 {
        lemma_tags_few(feature, names, n - 1);
    }
}

proof fn lemma_tag_count(features: Seq<TaggedFeature>, names: Seq<String>)
    ensures
        tag_count(features_view(features, names)) <= 4 * features.len(),
    decreases features.len(),
{
    let all = features_view(features, names);
    if features.len() > 0 {
        lemma_tag_count(features.drop_last(), names);
        assert(all.drop_last() =~= features_view(features.drop_last(), names));
        let n = if names.len() < 4 {
            names.len() as int
        } else {
            4
        };
        lemma_tags_few(features.last(), names, n);
        assert(all.last() == feature_view(features.last(), names));
    }
}

/// What becomes of a layer of features: none without features, and otherwise its
/// bytes or why it cannot be written.
pub open spec fn is_rendered(
    outcome: Result<Option<Vec<u8>>, LayerError>,
    name: Seq<char>,
    extent: int,
    features: Seq<TaggedFeature>,
    bands: Seq<String>,
) -> bool {
    match outcome {
        Ok(None) => features.len() == 0,
        Ok(Some(bytes)) => {
            &&& features.len() > 0
            &&& name.len() > 0
            &&& !has_unfit(features)
            &&& bytes@ == layer_bytes(name, extent as u32, features_view(features, bands))
        },
        Err(LayerError::MissingName) => features.len() > 0 && name.len() == 0,
        Err(LayerError::Unfit) => has_unfit(features) && name.len() > 0,
    }
}

/// There is a layer to be written.
pub open spec fn has_layer(name: Seq<char>, features: Seq<TaggedFeature>) -> bool {
    features.len() > 0 && name.len() > 0 && !has_unfit(features)
}

/// Makes a layer of features.
fn fill_layer(
    name: &str,
    extent: i32,
    features: &Vec<TaggedFeature>,
    bands: &Vec<String>,
) -> (outcome: Result<MvtLayerBuilder, LayerError>)
    requires
        extent > 0,
        0 < features@.len() <= 0x3fff_ffff,
        forall|i: int|
            0 <= i < features@.len() ==> (#[trigger] features@[i]).wf(bands@.len() as int),
    ensures
        match outcome {
            Ok(layer) => {
                &&& has_layer(name@, features@)
                &&& layer_contents(layer) == (
                    name@,
                    extent as u32,
                    features_view(features@, bands@),
                )
                &&& features_weight(features_view(features@, bands@)) <= drawings_weight(
                    features@,
                    bands@,
                )
            },
            Err(LayerError::MissingName) => name@.len() == 0,
            Err(LayerError::Unfit) => has_unfit(features@) && name@.len() > 0,
        },
{
    let capacity: usize = if features.len() < 0x10_0000 {
        features.len()
    } else {
        0x10_0000
    };
    let mut layer = match start_layer(name, capacity) {
        Ok(layer) => layer,
        Err(_) => {
            return Err(LayerError::MissingName);
        },
    };
    set_extent(&mut layer, extent as u32);
    let mut i: usize = 0;
    let ghost said = features_view(features@, bands@);
    proof {
        assert(said.take(0) =~= Seq::empty());
        assert(features@.take(0) =~= Seq::empty());
    }
    while i < features.len()
        invariant
            i <= features@.len(),
            features@.len() <= 0x3fff_ffff,
            name@.len() > 0,
            extent > 0,
            said == features_view(features@, bands@),
            forall|i: int|
                0 <= i < features@.len() ==> (#[trigger] features@[i]).wf(bands@.len() as int),
            forall|k: int| 0 <= k < i ==> are_fit((#[trigger] features@[k]).feature.polygons@),
            layer_contents(layer) == (name@, extent as u32, said.take(i as int)),
            features_weight(said.take(i as int)) <= drawings_weight(
                features@.take(i as int),
                bands@,
            ),
        decreases features@.len() - i,
    {
        if !all_fit(&features[i].feature.polygons) {
            assert(!are_fit(features@[i as int].feature.polygons@));
            return Err(LayerError::Unfit);
        }
        proof {
            lemma_tag_count(features@.take(i as int), bands@);
            assert(features_view(features@.take(i as int), bands@) =~= said.take(i as int));
            assert(said.take(i + 1).drop_last() =~= said.take(i as int));
            assert(said.take(i + 1).last() == feature_view(features@[i as int], bands@));
            assert(said.take(i + 1) =~= said.take(i as int).push(
                feature_view(features@[i as int], bands@),
            ));
            assert(features@.take(i + 1).drop_last() =~= features@.take(i as int));
            assert(features@.take(i + 1).last() == features@[i as int]);
        }
        layer = match add_feature(layer, &features[i], bands) {
            Some(layer) => layer,
            None => {
                return Err(LayerError::Unfit);
            },
        };
        i = i + 1;
    }
    proof {
        assert(said.take(said.len() as int) =~= said);
        assert(features@.take(features@.len() as int) =~= features@);
    }
    Ok(layer)
}

/// Writes a layer of features, in their order. A tile without features has no
/// layer. A layer has to fit into a message.
pub fn render_mvt_layer(
    name: &str,
    extent: i32,
    features: &Vec<TaggedFeature>,
    bands: &Vec<String>,
) -> (outcome: Result<Option<Vec<u8>>, LayerError>)
    requires
        extent > 0,
        features@.len() <= 0x3fff_ffff,
        forall|i: int|
            0 <= i < features@.len() ==> (#[trigger] features@[i]).wf(bands@.len() as int),
        has_layer(name@, features@) ==> layer_bytes(
            name@,
            extent as u32,
            features_view(features@, bands@),
        ).len() <= LAYER_LIMIT,
    ensures
        is_rendered(outcome, name@, extent as int, features@, bands@),
{
    if features.len() == 0 {
        return Ok(None);
    }
    match fill_layer(name, extent, features, bands) {
        Ok(layer) => Ok(Some(encode_layer(layer))),
        Err(error) => Err(error),
    }
}

/// Weighs a layer.
fn weigh_layer(name: &str, features: &Vec<TaggedFeature>, bands: &Vec<String>) -> (weight: u64)
    requires
        !has_unfit(features@),
        forall|i: int|
            0 <= i < features@.len() ==> (#[trigger] features@[i]).wf(bands@.len() as int),
    ensures
        weight == capped(heaviest(name@, features@, bands@)),
{
    let chars = chars_of(name);
    let mut weight: u64 = weigh_text(64, &chars);
    let mut i: usize = 0;
    proof {
        assert(features@.take(0) =~= Seq::empty());
        assert(64u64 == capped(64));
        assert(weight == capped((64 + 4 * name@.len()) as nat));
    }
    while i < features.len()
        invariant
            i <= features@.len(),
            !has_unfit(features@),
            forall|i: int|
                0 <= i < features@.len() ==> (#[trigger] features@[i]).wf(bands@.len() as int),
            weight == capped(heaviest(name@, features@.take(i as int), bands@)),
        decreases features@.len() - i,
    {
        assert(are_fit(features@[i as int].feature.polygons@));
        weight = weigh_feature(weight, &features[i], bands);
        proof {
            assert(features@.take(i + 1).drop_last() =~= features@.take(i as int));
            assert(features@.take(i + 1).last() == features@[i as int]);
            assert(weight == capped(
                heaviest(name@, features@.take(i as int), bands@) + drawing_weight(
                    features@[i as int],
                    bands@,
                ),
            ));
        }
        i = i + 1;
    }
    assert(features@.take(features@.len() as int) =~= features@);
    weight
}

/// Writes a layer of features like `render_mvt_layer`, where its weight shows that it
/// can be measured and its length that it fits into a message.
pub fn render_measured_layer(
    name: &str,
    extent: i32,
    features: &Vec<TaggedFeature>,
    bands: &Vec<String>,
) -> (outcome: Option<Result<Option<Vec<u8>>, LayerError>>)
    requires
        extent > 0,
        features@.len() <= 0x3fff_ffff,
        forall|i: int|
            0 <= i < features@.len() ==> (#[trigger] features@[i]).wf(bands@.len() as int),
    ensures
        outcome is None <==> has_layer(name@, features@) && (heaviest(name@, features@, bands@)
            > LAYER_LIMIT || layer_bytes(
            name@,
            extent as u32,
            features_view(features@, bands@),
        ).len() > LAYER_LIMIT),
        outcome matches Some(result) ==> is_rendered(
            result,
            name@,
            extent as int,
            features@,
            bands@,
        ),
{
    if features.len() == 0 {
        return Some(Ok(None));
    }
    let layer = match fill_layer(name, extent, features, bands) {
        Ok(layer) => layer,
        Err(error) => {
            return Some(Err(error));
        },
    };
    if weigh_layer(name, features, bands) > LAYER_LIMIT {
        return None;
    }
    if measure_layer(layer) as u64 > LAYER_LIMIT {
        return None;
    }
    Some(render_mvt_layer(name, extent, features, bands))
}

/// The features without their attributes.
pub open spec fn plain(features: Seq<TaggedFeature>) -> Seq<Feature> {
    features.map_values(|f: TaggedFeature| f.feature)
}

/// The attributes are those of the values, by one rule for all features.
pub open spec fn tagged_by(
    features: Seq<TaggedFeature>,
    rule: spec_fn(Seq<CompactOptI32>) -> Seq<Option<MvtValue>>,
) -> bool {
    forall|i: int|
        0 <= i < features.len() ==> (#[trigger] features[i]).tags@ == rule(
            features[i].feature.values@,
        )
}

/// A layer is a function of what its cells fill: two runs on cells that fill the same
/// places with the same values say the same of their features, and so write the same
/// bytes.
pub proof fn lemma_same_layer(
    p: Seq<TaggedFeature>,
    q: Seq<TaggedFeature>,
    a: Seq<ProjectedCell>,
    b: Seq<ProjectedCell>,
    rule: spec_fn(Seq<CompactOptI32>) -> Seq<Option<MvtValue>>,
    name: Seq<char>,
    extent: int,
    names: Seq<String>,
)
    requires
        0 < extent <= 0x3fff_ffff,
        fill_alike(a, b, extent),
        are_features(plain(p), a, extent, names.len() as int),
        are_features(plain(q), b, extent, names.len() as int),
        tagged_by(p, rule),
        tagged_by(q, rule),
    ensures
        features_view(p, names) == features_view(q, names),
        layer_bytes(name, extent as u32, features_view(p, names)) == layer_bytes(
            name,
            extent as u32,
            features_view(q, names),
        ),
{
    lemma_same_features(plain(p), plain(q), a, b, extent, names.len() as int);
    assert forall|i: int| 0 <= i < p.len() implies feature_view(p[i], names) == feature_view(
        q[i],
        names,
    ) by {
        assert(said_of(plain(p)[i]) == said_of(plain(q)[i]));
        assert(p[i].tags@ == rule(p[i].feature.values@));
        assert(q[i].tags@ == rule(q[i].feature.values@));
        let n = if names.len() < 4 {
            names.len() as int
        } else {
            4
        };
        lemma_same_tags(p[i], q[i], names, n);
    }
    assert(features_view(p, names) =~= features_view(q, names));
}

proof fn lemma_same_tags(a: TaggedFeature, b: TaggedFeature, names: Seq<String>, n: int)
    requires
        a.tags@ == b.tags@,
        a.feature.values@ == b.feature.values@,
    ensures
        tags_view(a, names, n) == tags_view(b, names, n),
    decreases n,
{
    if n > 0 {
        lemma_same_tags(a, b, names, n - 1);
    }
}

/// What a layer says of a feature: the words that draw its own polygons, its own id, and
/// the attributes of its bands. An attribute is there if and only if the band has a value
/// and the attribute is not null, under the name of that band.
pub proof fn lemma_feature_says(feature: TaggedFeature, names: Seq<String>)
    ensures
        ({
            let said = feature_view(feature, names);
            &&& said.geometry == geometry_words(polygons_view(feature.feature.polygons@))
            &&& said.id == feature.feature.id
            &&& forall|key: Seq<char>, value: MvtValue| #[trigger]
                said.tags.contains((key, value)) <==> exists|b: int|
                    0 <= b < names.len() && b < 4 && key == (#[trigger] names[b])@
                        && feature.feature.values@[b]@ is Some && !is_null(feature.tags@[b]->0)
                        && value == feature.tags@[b]->0
        }),
{
    let n = if names.len() < 4 {
        names.len() as int
    } else {
        4
    };
    assert forall|key: Seq<char>, value: MvtValue| #[trigger]
        tags_view(feature, names, n).contains((key, value)) <==> exists|b: int|
            0 <= b < names.len() && b < 4 && key == (#[trigger] names[b])@
                && feature.feature.values@[b]@ is Some && !is_null(feature.tags@[b]->0) && value
                == feature.tags@[b]->0 by {
        lemma_tags_of(feature, names, n, key, value);
    }
}

proof fn lemma_tags_of(
    feature: TaggedFeature,
    names: Seq<String>,
    n: int,
    key: Seq<char>,
    value: MvtValue,
)
    ensures
        tags_view(feature, names, n).contains((key, value)) <==> exists|b: int|
            0 <= b < n && key == (#[trigger] names[b])@ && feature.feature.values@[b]@ is Some
                && !is_null(feature.tags@[b]->0) && value == feature.tags@[b]->0,
    decreases n,
{
    if n > 0 {
        let before = tags_view(feature, names, n - 1);
        let now = tags_view(feature, names, n);
        lemma_tags_of(feature, names, n - 1, key, value);
        if now.contains((key, value)) {
            let i = choose|i: int| 0 <= i < now.len() && now[i] == (key, value);
            if i < before.len() {
                assert(before[i] == (key, value));
            } else {
                assert(key == names[n - 1]@);
            }
        }
        if before.contains((key, value)) {
            let i = choose|i: int| 0 <= i < before.len() && before[i] == (key, value);
            assert(now[i] == (key, value));
        }
        if key == names[n - 1]@ && feature.feature.values@[n - 1]@ is Some && !is_null(
            feature.tags@[n - 1]->0,
        ) && value == feature.tags@[n - 1]->0 {
            assert(now[before.len() as int] == (key, value));
        }
    }
}

/// The attributes come in the order of the bands.
pub proof fn lemma_tags_in_order(feature: TaggedFeature, names: Seq<String>, n: int, b: int)
    requires
        0 <= b < n,
        feature.feature.values@[b]@ is Some,
        !is_null(feature.tags@[b]->0),
    ensures
        tags_view(feature, names, b).len() < tags_view(feature, names, n).len(),
        tags_view(feature, names, n)[tags_view(feature, names, b).len() as int] == (
            names[b]@,
            feature.tags@[b]->0,
        ),
    decreases n,
{
    if b < n - 1 {
        lemma_tags_in_order(feature, names, n - 1, b);
    }
}

/// What becomes of a layer. There is none without features; with features, one without a
/// name is refused, and so is one with a ring that cannot be drawn; any other is written
/// under its own name, with its own extent and its features in their order.
pub proof fn lemma_rendered(
    outcome: Result<Option<Vec<u8>>, LayerError>,
    name: Seq<char>,
    extent: int,
    features: Seq<TaggedFeature>,
    bands: Seq<String>,
)
    requires
        is_rendered(outcome, name, extent, features, bands),
    ensures
        outcome matches Ok(None) <==> features.len() == 0,
        features.len() > 0 && name.len() == 0 <==> outcome == Err::<Option<Vec<u8>>, LayerError>(
            LayerError::MissingName,
        ),
        outcome == Err::<Option<Vec<u8>>, LayerError>(LayerError::Unfit) <==> name.len() > 0
            && exists|i: int|
            0 <= i < features.len() && !are_fit((#[trigger] features[i]).feature.polygons@),
        outcome matches Ok(Some(bytes)) ==> bytes@ == layer_bytes(
            name,
            extent as u32,
            Seq::new(features.len(), |i: int| feature_view(features[i], bands)),
        ),
{
    assert(features_view(features, bands) =~= Seq::new(
        features.len(),
        |i: int| feature_view(features[i], bands),
    ));
    if outcome is Ok && outcome->Ok_0 is Some {
        assert(!has_unfit(features));
    }
}

/// A ring can be drawn if and only if it has a point and no more of them than a command
/// can repeat, not counting the first one again at the end, and its area can be summed up
/// on the way, by the products of the coordinates of neighbours.
pub proof fn lemma_fit(ring: LineString, count: nat, n: nat)
    requires
        count == ring.0@.len() || count + 1 == ring.0@.len(),
        count + 1 == ring.0@.len() <==> ring.0@.len() >= 2 && ring.0@[0] == ring.0@[ring.0@.len()
            - 1],
    ensures
        is_fit_ring(ring) <==> 1 <= count <= 0x2000_0000 && forall|m: nat|
            m <= count ==> -0x8000_0000_0000_0000 <= #[trigger] area_upto(
                ring.0@.take(count as int),
                m,
            ) <= 0x7fff_ffff_ffff_ffff,
        area_upto(ring.0@, 0) == 0,
        n + 1 < count ==> area_upto(ring.0@.take(count as int), n + 1) == area_upto(
            ring.0@.take(count as int),
            n,
        ) + (ring.0@[n as int].x * ring.0@[n as int + 1].y - ring.0@[n as int].y * ring.0@[n as int
            + 1].x),
        n + 1 == count ==> area_upto(ring.0@.take(count as int), n + 1) == area_upto(
            ring.0@.take(count as int),
            n,
        ) + (ring.0@[n as int].x * ring.0@[0].y - ring.0@[n as int].y * ring.0@[0].x),
{
    let open = ring.0@.take(count as int);
    assert(open =~= opened(ring.0@));
    let f = |p: Coord, q: Coord| cross_product(p, q);
    assert(area_upto(ring.0@, 0) == step_sum(ring.0@, 0, f));
    assert(area_upto(open, n + 1) == step_sum(open, n + 1, f));
    assert(area_upto(open, n) == step_sum(open, n, f));
    if n + 1 < count {
        vstd::arithmetic::div_mod::lemma_small_mod(n + 1, count);
        assert(f(open[n as int], open[n as int + 1]) == cross_product(
            ring.0@[n as int],
            ring.0@[n as int + 1],
        ));
    } else if n + 1 == count {
        vstd::arithmetic::div_mod::lemma_mod_self_0(count as int);
        assert(f(open[n as int], open[0]) == cross_product(ring.0@[n as int], ring.0@[0]));
    }
}

/// There is a layer to be written if and only if there are features, a name for them, and
/// no ring among them that cannot be drawn.
pub proof fn lemma_has_layer(name: Seq<char>, features: Seq<TaggedFeature>)
    ensures
        has_layer(name, features) <==> features.len() > 0 && name.len() > 0 && forall|i: int|
            0 <= i < features.len() ==> are_fit((#[trigger] features[i]).feature.polygons@),
        LAYER_LIMIT == 2 * 1024 * 1024 * 1024 - 1,
{
}

} // verus!
