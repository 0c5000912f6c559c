//! What a raster archive says of its encoding, so that a client can invert it
//! without being told anything else.

use vstd::prelude::*;

use vstd::string::StringExecFns;

use crate::json::{items_view, text_view, Json, JsonView, Members};
use crate::raster::ColorEncoding;

verus! {

/// The numbers that turn a texel back into a value, as the bits of doubles: the
/// weights of the channels of a scalar, or the scale and offset that both
/// channels of a vector share.
#[derive(Clone, Copy, Debug)]
pub struct Coefficients {
    pub weights: [u64; 3],
    pub scale: u64,
    pub offset: u64,
}

/// How a client tells an on-grid pixel from an off-grid one.
///
/// Expressed against the sampled texel rather than the byte, like every other
/// coefficient here, and as a threshold rather than an equality: a sampler
/// filtering across the edge of the grid returns values between the two, and
/// only a threshold gives a clean boundary. Comparing against 255 would be
/// false for every texel a shader ever sees.
pub open spec fn mask_view() -> JsonView {
    JsonView::Object(
        seq![
            ("kind"@, text_view("channel-gte"@)),
            ("channel"@, text_view("b"@)),
            ("threshold"@, JsonView::Double(0x3fe0_0000_0000_0000)),
        ],
    )
}

fn mask_descriptor() -> (mask: Json)
    ensures
        mask@ == mask_view(),
{
    let mut members = Members::new();
    members.add("kind", Json::text("channel-gte"));
    members.add("channel", Json::text("b"));
    members.add("threshold", Json::Double(0x3fe0_0000_0000_0000));
    assert(members@ =~= mask_view()->Object_0);
    Json::object(members)
}

/// The names of channels as a list.
pub open spec fn channels_view(count: int) -> JsonView {
    JsonView::List(seq![text_view("r"@), text_view("g"@), text_view("b"@)].take(count))
}

fn channels(count: usize) -> (list: Json)
    requires
        2 <= count <= 3,
    ensures
        list@ == channels_view(count as int),
{
    let mut items: Vec<Json> = Vec::new();
    items.push(Json::text("r"));
    items.push(Json::text("g"));
    if count == 3 {
        items.push(Json::text("b"));
    }
    assert(items_view(items@) =~= channels_view(count as int)->List_0);
    Json::list(items)
}

/// The first weights as a list.
pub open spec fn weights_view(weights: Seq<u64>, count: int) -> JsonView {
    JsonView::List(weights.take(count).map_values(|w: u64| JsonView::Double(w)))
}

fn weight_list(weights: [u64; 3], count: usize) -> (list: Json)
    requires
        count <= 3,
    ensures
        list@ == weights_view(weights@, count as int),
{
    let mut items: Vec<Json> = Vec::new();
    let mut i: usize = 0;
    while i < count
        invariant
            i <= count <= 3,
            items@.len() == i,
            forall|k: int| 0 <= k < i ==> (#[trigger] items@[k])@ == JsonView::Double(weights@[k]),
        decreases count - i,
    {
        items.push(Json::Double(weights[i]));
        i = i + 1;
    }
    assert(items_view(items@) =~= weights_view(weights@, count as int)->List_0);
    Json::list(items)
}

/// The rule for several channels that hold one value between them.
pub open spec fn packed_rule(count: int, weights: Seq<u64>, offset: u64) -> JsonView {
    JsonView::Object(
        seq![
            ("kind"@, text_view("linear-packed"@)),
            ("channels"@, channels_view(count)),
            ("weights"@, weights_view(weights, count)),
            ("offset"@, JsonView::Double(offset)),
        ],
    )
}

fn packed(count: usize, weights: [u64; 3], offset: u64) -> (rule: Json)
    requires
        2 <= count <= 3,
    ensures
        rule@ == packed_rule(count as int, weights@, offset),
{
    let mut members = Members::new();
    members.add("kind", Json::text("linear-packed"));
    members.add("channels", channels(count));
    members.add("weights", weight_list(weights, count));
    members.add("offset", Json::Double(offset));
    assert(members@ =~= packed_rule(count as int, weights@, offset)->Object_0);
    Json::object(members)
}

/// The rule for channels that hold a value each.
pub open spec fn channels_rule(scale: u64, offset: u64) -> JsonView {
    JsonView::Object(
        seq![
            ("kind"@, text_view("linear-channels"@)),
            ("channels"@, channels_view(2)),
            ("scale"@, JsonView::Double(scale)),
            ("offset"@, JsonView::Double(offset)),
        ],
    )
}

fn separate(scale: u64, offset: u64) -> (rule: Json)
    ensures
        rule@ == channels_rule(scale, offset),
{
    let mut members = Members::new();
    members.add("kind", Json::text("linear-channels"));
    members.add("channels", channels(2));
    members.add("scale", Json::Double(scale));
    members.add("offset", Json::Double(offset));
    assert(members@ =~= channels_rule(scale, offset)->Object_0);
    Json::object(members)
}

impl ColorEncoding {
    /// The members of the descriptor.
    ///
    /// The coefficients are written against what a `sampler2D` returns for a
    /// UNORM texture, so a client never has to know the channel is 8 bits. That
    /// space sits beside the encoding rather than inside the decode rule because
    /// it describes the numbers the client feeds in, not the arithmetic applied
    /// to them.
    pub open spec fn description(self, coefficients: Coefficients) -> Seq<(Seq<char>, JsonView)> {
        let space = ("sample_space"@, text_view("normalized-texel"@));
        match self {
            ColorEncoding::Scalar24 { base, interval } => seq![
                ("encoding"@, text_view("scalar-24"@)),
                ("base"@, JsonView::Double(base)),
                ("interval"@, JsonView::Double(interval)),
                ("compatible_decoder"@, text_view("mapbox-terrain-rgb"@)),
                space,
                ("decode"@, packed_rule(3, coefficients.weights@, base)),
                ("mask"@, JsonView::Null),
            ],
            ColorEncoding::Scalar16 { min, max } => seq![
                ("encoding"@, text_view("scalar-16"@)),
                ("min"@, JsonView::Double(min)),
                ("max"@, JsonView::Double(max)),
                space,
                ("decode"@, packed_rule(2, coefficients.weights@, min)),
                ("mask"@, mask_view()),
            ],
            ColorEncoding::VectorField { component_limit } => seq![
                ("encoding"@, text_view("vector-field"@)),
                ("component_limit"@, JsonView::Double(component_limit)),
                space,
                ("decode"@, channels_rule(coefficients.scale, coefficients.offset)),
                ("mask"@, mask_view()),
            ],
        }
    }

    /// What the archive metadata carries, so that a client can invert this
    /// without being told anything else.
    pub fn descriptor(&self, coefficients: Coefficients) -> (members: Members)
        ensures
            members@ == self.description(coefficients),
    {
        let mut members = Members::new();
        match *self {
            ColorEncoding::Scalar24 { base, interval } => {
                members.add("encoding", Json::text("scalar-24"));
                members.add("base", Json::Double(base));
                members.add("interval", Json::Double(interval));
                members.add("compatible_decoder", Json::text("mapbox-terrain-rgb"));
                members.add("sample_space", Json::text("normalized-texel"));
                members.add("decode", packed(3, coefficients.weights, base));
                members.add("mask", Json::Null);
            },
            ColorEncoding::Scalar16 { min, max } => {
                members.add("encoding", Json::text("scalar-16"));
                members.add("min", Json::Double(min));
                members.add("max", Json::Double(max));
                members.add("sample_space", Json::text("normalized-texel"));
                members.add("decode", packed(2, coefficients.weights, min));
                members.add("mask", mask_descriptor());
            },
            ColorEncoding::VectorField { component_limit } => {
                members.add("encoding", Json::text("vector-field"));
                members.add("component_limit", Json::Double(component_limit));
                members.add("sample_space", Json::text("normalized-texel"));
                members.add("decode", separate(coefficients.scale, coefficients.offset));
                members.add("mask", mask_descriptor());
            },
        }
        assert(members@ =~= self.description(coefficients));
        members
    }
}

} // verus!
