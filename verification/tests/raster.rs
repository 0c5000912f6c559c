//! Raster tiles: the encodings, what they publish, and the images.

use grib2pmtiles::descriptor::Coefficients;
use grib2pmtiles::image::{assemble_pixels, encode_png, render_raster_tile, Sample};
use grib2pmtiles::json::{Json, Members};
use grib2pmtiles::lattice::SampleGrid;
use grib2pmtiles::model::{Band, BaseTile, CompactOptI32, Point, RawPair};
use grib2pmtiles::range::{inspect_range, raw_readings, RangeReport, Reading};
use grib2pmtiles::raster::{
    encoding_request, ColorEncoding, RequestError, IMAGE_EXTENT, TILE_BUFFER, TILE_EXTENT,
};

const ZERO_CODE: f64 = 128.0;
const SIGNED_CODES: f64 = 127.0;
const BYTE_CODES: f64 = 255.0;
const SCALAR16_CODES: f64 = 65535.0;
const SCALAR24_CODES: f64 = 16777215.0;

fn wind(component_limit: f64) -> ColorEncoding {
    ColorEncoding::VectorField { component_limit: component_limit.to_bits() }
}

fn scalar16(min: f64, max: f64) -> ColorEncoding {
    ColorEncoding::Scalar16 { min: min.to_bits(), max: max.to_bits() }
}

fn scalar24(base: f64, interval: f64) -> ColorEncoding {
    ColorEncoding::Scalar24 { base: base.to_bits(), interval: interval.to_bits() }
}

fn normalize(value: f64, high: f64) -> u32 {
    if value.is_nan() {
        return 0;
    }
    value.round().clamp(0.0, high) as u32
}

fn signed_code(value: f64, limit: f64) -> u32 {
    let normalized = (value / limit).clamp(-1.0, 1.0);
    if normalized.is_nan() {
        return ZERO_CODE as u32;
    }
    (normalized * SIGNED_CODES + ZERO_CODE).round() as u32
}

/// The floating-point part of encoding: the codes of the values.
fn codes(encoding: ColorEncoding, values: [f64; 2]) -> [u32; 2] {
    match encoding {
        ColorEncoding::Scalar24 { base, interval } => {
            let (base, interval) = (f64::from_bits(base), f64::from_bits(interval));
            [normalize((values[0] - base) / interval, SCALAR24_CODES), 0]
        }
        ColorEncoding::Scalar16 { min, max } => {
            let (min, max) = (f64::from_bits(min), f64::from_bits(max));
            [normalize((values[0] - min) / (max - min) * SCALAR16_CODES, SCALAR16_CODES), 0]
        }
        ColorEncoding::VectorField { component_limit } => {
            let limit = f64::from_bits(component_limit);
            [signed_code(values[0], limit), signed_code(values[1], limit)]
        }
    }
}

fn encode(encoding: ColorEncoding, values: [f64; 2]) -> [u8; 4] {
    encoding.encode(values.map(f64::to_bits), codes(encoding, values))
}

/// The floating-point part of the descriptor.
fn coefficients(encoding: ColorEncoding) -> Coefficients {
    let (weights, scale, offset) = match encoding {
        ColorEncoding::Scalar24 { base, interval } => {
            let interval = f64::from_bits(interval);
            (
                [
                    65536.0 * BYTE_CODES * interval,
                    256.0 * BYTE_CODES * interval,
                    BYTE_CODES * interval,
                ],
                0.0,
                f64::from_bits(base),
            )
        }
        ColorEncoding::Scalar16 { min, max } => {
            let (min, max) = (f64::from_bits(min), f64::from_bits(max));
            (
                [
                    256.0 * BYTE_CODES * (max - min) / SCALAR16_CODES,
                    BYTE_CODES * (max - min) / SCALAR16_CODES,
                    0.0,
                ],
                0.0,
                min,
            )
        }
        ColorEncoding::VectorField { component_limit } => {
            let limit = f64::from_bits(component_limit);
            (
                [0.0; 3],
                BYTE_CODES * limit / SIGNED_CODES,
                -ZERO_CODE * limit / SIGNED_CODES,
            )
        }
    };
    Coefficients {
        weights: weights.map(f64::to_bits),
        scale: scale.to_bits(),
        offset: offset.to_bits(),
    }
}

fn descriptor(encoding: ColorEncoding) -> Json {
    Json::object(encoding.descriptor(coefficients(encoding)))
}

fn member<'a>(json: &'a Json, name: &str) -> &'a Json {
    match json {
        Json::Object(members) => {
            &members
                .iter()
                .find(|(key, _)| key == name)
                .unwrap_or_else(|| panic!("no member {name:?} in {json:?}"))
                .1
        }
        _ => panic!("no object: {json:?}"),
    }
}

fn text(json: &Json) -> &str {
    match json {
        Json::Text(text) => text,
        _ => panic!("no text: {json:?}"),
    }
}

fn number(json: &Json) -> f64 {
    match json {
        Json::Double(bits) => f64::from_bits(*bits),
        _ => panic!("no double: {json:?}"),
    }
}

fn items(json: &Json) -> &Vec<Json> {
    match json {
        Json::List(items) => items,
        _ => panic!("no list: {json:?}"),
    }
}

fn channel(name: &str) -> usize {
    match name {
        "r" => 0,
        "g" => 1,
        "b" => 2,
        "a" => 3,
        _ => panic!("unknown channel {name:?}"),
    }
}

/// Decodes a pixel the way a shader does: sample the texture, then apply the
/// published coefficients and nothing else.
fn decode(descriptor: &Json, pixel: [u8; 4]) -> Vec<f64> {
    decode_texel(descriptor, pixel.map(|code| f64::from(code) / 255.0))
}

fn decode_texel(descriptor: &Json, sampled: [f64; 4]) -> Vec<f64> {
    let decode = member(descriptor, "decode");
    let channels = items(member(decode, "channels"))
        .iter()
        .map(|name| sampled[channel(text(name))])
        .collect::<Vec<_>>();
    let offset = number(member(decode, "offset"));
    match text(member(decode, "kind")) {
        "linear-packed" => {
            let weights = items(member(decode, "weights"));
            vec![
                channels
                    .iter()
                    .zip(weights)
                    .map(|(value, weight)| value * number(weight))
                    .sum::<f64>()
                    + offset,
            ]
        }
        "linear-channels" => {
            let scale = number(member(decode, "scale"));
            channels.iter().map(|value| value * scale + offset).collect()
        }
        kind => panic!("unknown decode kind {kind:?}"),
    }
}

/// Calm air has to land on a code that means zero: an even split across all 256
/// would put zero at 127.5, and a still field would creep in one direction.
#[test]
fn calm_air_decodes_to_zero_within_rounding() {
    for component_limit in [1.0, 12.5, 50.0, 100.0] {
        let encoding = wind(component_limit);
        let pixel = encode(encoding, [0.0, 0.0]);
        assert_eq!([pixel[0], pixel[1]], [ZERO_CODE as u8; 2]);

        let step = component_limit / SIGNED_CODES;
        for component in decode(&descriptor(encoding), pixel) {
            assert!(
                component.abs() < step * 1e-6,
                "calm air decoded as {component} m/s, against a step of {step}"
            );
        }
    }
}

#[test]
fn a_vector_survives_the_round_trip_within_half_a_step() {
    let encoding = wind(100.0);
    let step = 100.0 / SIGNED_CODES;

    for u in [-100.0, -37.5, -0.25, 0.0, 0.25, 12.5, 99.9, 100.0] {
        for v in [-100.0, -1.0, 0.0, 4.0, 100.0] {
            let decoded = decode(&descriptor(encoding), encode(encoding, [u, v]));
            assert!(
                (decoded[0] - u).abs() <= step / 2.0 + f64::EPSILON
                    && (decoded[1] - v).abs() <= step / 2.0 + f64::EPSILON,
                "({u}, {v}) decoded as {decoded:?}"
            );
        }
    }
}

#[test]
fn a_vector_field_reaches_both_ends_of_its_range() {
    let encoding = wind(50.0);
    let step = 50.0 / SIGNED_CODES;

    assert_eq!(encode(encoding, [-50.0, 50.0])[..2], [1, 255]);
    for (decoded, expected) in decode(&descriptor(encoding), encode(encoding, [-50.0, 50.0]))
        .into_iter()
        .zip([-50.0, 50.0])
    {
        assert!(
            (decoded - expected).abs() < step * 1e-6,
            "{expected} decoded as {decoded}"
        );
    }
}

#[test]
fn values_outside_the_range_clamp_instead_of_wrapping() {
    let encoding = wind(50.0);

    // Wrapping here would turn a violent easterly into a westerly.
    assert_eq!(encode(encoding, [-1000.0, 1000.0])[..2], [1, 255]);
    assert_eq!(
        encode(encoding, [f64::NEG_INFINITY, f64::INFINITY])[..2],
        [1, 255]
    );
    // NaN must not fall through into a neighbouring code.
    assert_eq!(encode(encoding, [f64::NAN, f64::NAN]), encoding.off_grid());

    let terrain = scalar24(0.0, 1.0);
    assert_eq!(encode(terrain, [-1.0, 0.0])[..3], [0, 0, 0]);
    assert_eq!(encode(terrain, [f64::NAN, 0.0]), terrain.off_grid());
}

#[test]
fn a_scalar_survives_the_round_trip_within_half_an_interval() {
    let encoding = scalar24(-10000.0, 0.1);

    for value in [-10000.0, -9999.9, -273.15, 0.0, 15.5, 8848.0] {
        let decoded = decode(&descriptor(encoding), encode(encoding, [value, 0.0]))[0];
        assert!(
            (decoded - value).abs() <= 0.05 + 1e-9,
            "{value} -> {decoded}"
        );
    }
}

#[test]
fn a_masked_scalar_survives_the_round_trip_and_keeps_its_mask() {
    // The point of spending only 16 bits: blue is still free to say where the
    // grid stops, which a regional model needs.
    let encoding = scalar16(-50.0, 50.0);
    let step = 100.0 / SCALAR16_CODES;

    for value in [-50.0, -12.34, 0.0, 0.001, 27.5, 50.0] {
        let pixel = encode(encoding, [value, 0.0]);
        assert_eq!(pixel[2], 255, "blue marks the pixel as on-grid");
        let decoded = decode(&descriptor(encoding), pixel)[0];
        assert!(
            (decoded - value).abs() <= step / 2.0 + 1e-9,
            "{value} -> {decoded}"
        );
    }

    assert_eq!(encoding.off_grid()[2], 0);
    assert_eq!(encode(encoding, [-1000.0, 0.0])[..2], [0, 0]);
    assert_eq!(encode(encoding, [1000.0, 0.0])[..2], [255, 255]);
}

#[test]
fn every_tile_is_opaque_so_that_alpha_cannot_be_premultiplied_away() {
    for encoding in [wind(50.0), scalar24(0.0, 1.0), scalar16(0.0, 1.0)] {
        assert_eq!(encoding.off_grid()[3], 255);
        assert_eq!(encode(encoding, [1.0, 1.0])[3], 255);
    }
}

#[test]
fn masked_encodings_distinguish_off_grid_pixels_from_values() {
    // Blue carries the on-grid flag for a vector field...
    let encoding = wind(100.0);
    assert_eq!(encoding.off_grid()[2], 0);
    assert_eq!(encode(encoding, [0.0, 0.0])[2], 255);

    // ...and for a masked scalar.
    let scalar = scalar16(0.0, 1.0);
    assert_eq!(scalar.off_grid()[2], 0);
    assert_eq!(encode(scalar, [0.0, 0.0])[2], 255);
}

/// Every code can be read back from its pixel.
#[test]
fn codes_survive_in_their_pixels() {
    let values = [0f64.to_bits(); 2];
    for code in [0, 1, 255, 256, 65535, 65536, 16777215] {
        let pixel = scalar24(0.0, 1.0).encode(values, [code, 0]);
        assert_eq!(
            (u32::from(pixel[0]) << 16) + (u32::from(pixel[1]) << 8) + u32::from(pixel[2]),
            code
        );
    }
    for code in [0, 1, 255, 256, 65535] {
        let pixel = scalar16(0.0, 1.0).encode(values, [code, 0]);
        assert_eq!((u32::from(pixel[0]) << 8) + u32::from(pixel[1]), code);
    }
    assert_eq!(wind(1.0).encode(values, [3, 250]), [3, 250, 255, 255]);
}

/// Applies the published mask rule to a pixel, in the space a shader works in.
fn on_grid(descriptor: &Json, pixel: [u8; 4]) -> bool {
    let mask = member(descriptor, "mask");
    if matches!(mask, Json::Null) {
        return true;
    }
    let texel = f64::from(pixel[channel(text(member(mask, "channel")))]) / 255.0;
    match text(member(mask, "kind")) {
        "channel-gte" => texel >= number(member(mask, "threshold")),
        kind => panic!("unknown mask kind {kind:?}"),
    }
}

#[test]
fn the_published_mask_is_in_texel_space() {
    for encoding in [wind(50.0), scalar16(0.0, 10.0)] {
        let descriptor = descriptor(encoding);
        assert!(
            on_grid(&descriptor, encode(encoding, [1.0, 1.0])),
            "{encoding:?} marked a value as off-grid"
        );
        assert!(
            !on_grid(&descriptor, encoding.off_grid()),
            "{encoding:?} marked its own gap as on-grid"
        );

        // Halfway across the edge of the grid a sampler returns the middle of
        // the two, and the threshold has to land somewhere definite.
        let mut blended = encode(encoding, [1.0, 1.0]);
        blended[2] = 128;
        assert!(on_grid(&descriptor, blended));
        blended[2] = 127;
        assert!(!on_grid(&descriptor, blended));
    }

    // A scalar-24 has no channel to spare and says so.
    assert!(matches!(
        member(&descriptor(scalar24(0.0, 1.0)), "mask"),
        Json::Null
    ));
}

/// Decodes the way a fragment shader does, in single precision. `fused` picks
/// whether the compiler contracted the multiply and add.
fn decode_f32(descriptor: &Json, pixel: [u8; 4], fused: bool) -> Vec<f32> {
    let decode = member(descriptor, "decode");
    assert_eq!(text(member(descriptor, "sample_space")), "normalized-texel");
    let channels = items(member(decode, "channels"))
        .iter()
        .map(|name| f32::from(pixel[channel(text(name))]) / 255.0)
        .collect::<Vec<_>>();
    let offset = number(member(decode, "offset")) as f32;
    let step = |value: f32, coefficient: f32, accumulator: f32| {
        if fused {
            value.mul_add(coefficient, accumulator)
        } else {
            value * coefficient + accumulator
        }
    };
    match text(member(decode, "kind")) {
        "linear-packed" => {
            let mut total = offset;
            for (value, weight) in channels.iter().zip(items(member(decode, "weights"))) {
                total = step(*value, number(weight) as f32, total);
            }
            vec![total]
        }
        "linear-channels" => {
            let scale = number(member(decode, "scale")) as f32;
            channels
                .iter()
                .map(|value| step(*value, scale, offset))
                .collect()
        }
        kind => panic!("unknown decode kind {kind:?}"),
    }
}

#[test]
fn calm_air_stays_still_in_shader_precision() {
    for component_limit in [10.0, 50.0, 100.0] {
        let encoding = wind(component_limit);
        let descriptor = descriptor(encoding);
        let pixel = encode(encoding, [0.0, 0.0]);
        let step = component_limit / SIGNED_CODES;

        for fused in [true, false] {
            for component in decode_f32(&descriptor, pixel, fused) {
                assert!(
                    f64::from(component.abs()) < 1e-4,
                    "calm air drifts {component} m/s (fused: {fused}), \
                     against a step of {step}"
                );
            }
        }
    }
}

/// The sampler filters before the shader ever runs, so decoding has to commute
/// with it, also across a carry in a packed scalar.
#[test]
fn decoding_commutes_with_the_filtering_that_precedes_it() {
    let cases: [(ColorEncoding, [f64; 2], [f64; 2]); 4] = [
        (
            scalar16(0.0, SCALAR16_CODES),
            // Either side of a carry: [0, 255] and [1, 0].
            [255.0, 0.0],
            [256.0, 0.0],
        ),
        (scalar16(-50.0, 50.0), [-12.5, 0.0], [31.25, 0.0]),
        (scalar24(-10000.0, 0.1), [100.0, 0.0], [8848.0, 0.0]),
        (wind(50.0), [-30.0, 12.0], [7.0, -21.0]),
    ];

    for (encoding, low, high) in cases {
        let descriptor = descriptor(encoding);
        let (a, b) = (encode(encoding, low), encode(encoding, high));
        let texel = |pixel: [u8; 4]| pixel.map(|code| f64::from(code) / 255.0);

        for step in 0..=8 {
            let t = f64::from(step) / 8.0;
            let mixed: [f64; 4] =
                std::array::from_fn(|index| texel(a)[index] * (1.0 - t) + texel(b)[index] * t);

            let filtered_then_decoded = decode_texel(&descriptor, mixed);
            let decoded_then_mixed = decode(&descriptor, a)
                .into_iter()
                .zip(decode(&descriptor, b))
                .map(|(low, high)| low * (1.0 - t) + high * t)
                .collect::<Vec<_>>();

            for (filtered, mixed) in filtered_then_decoded.iter().zip(&decoded_then_mixed) {
                assert!(
                    (filtered - mixed).abs() < 1e-9 * mixed.abs().max(1.0),
                    "{encoding:?} at t={t}: filtering first gives {filtered}, \
                     decoding first gives {mixed}"
                );
            }
        }
    }
}

/// Packing a scalar into all 24 bits asks for more precision than a shader can
/// return. The encoding is exact to `interval`; the reconstruction is not.
#[test]
fn a_packed_scalar_loses_precision_in_a_shader_at_the_top_of_its_range() {
    let interval = 0.1;
    let encoding = scalar24(-10000.0, interval);
    let descriptor = descriptor(encoding);

    let error = |value: f64| {
        let pixel = encode(encoding, [value, 0.0]);
        [true, false]
            .into_iter()
            .map(|fused| {
                let decoded = f64::from(decode_f32(&descriptor, pixel, fused)[0]);
                (decoded - value).abs()
            })
            .fold(0.0, f64::max)
    };

    // Over the span terrain-RGB was drawn for, well inside one interval.
    for value in [-10000.0, -500.0, 0.0, 3776.0, 8848.0] {
        assert!(
            error(value) < interval,
            "{value} m reconstructed with an error of {}",
            error(value)
        );
    }

    // Once the codes run high the mantissa runs out, and the worst case is
    // somewhere among the codes that are not representable.
    let worst = (1..(1u32 << 24))
        .step_by(1021)
        .map(|code| error(-10000.0 + f64::from(code) * interval))
        .fold(0.0, f64::max);
    assert!(
        worst > interval,
        "the loss over the full range has gone away ({worst} at worst)"
    );
}

/// A shader gets its channels in `0..1`; a descriptor written in byte space
/// would be out by 255 and the tiles would look like noise.
#[test]
fn the_published_coefficients_are_in_texel_space() {
    for (encoding, expected) in [
        (wind(100.0), 100.0 * BYTE_CODES / SIGNED_CODES),
        (scalar16(-50.0, 50.0), 50.0 - -50.0),
        (scalar24(-10000.0, 0.1), SCALAR24_CODES * 0.1),
    ] {
        let descriptor = descriptor(encoding);
        assert!(
            matches!(member(member(&descriptor, "decode"), "offset"), Json::Double(_)),
            "every kind decodes with one offset"
        );

        // The largest channel value a shader can see is 1.0, so the
        // coefficients alone have to span the whole range.
        let full = decode(&descriptor, [255, 255, 255, 255])[0];
        let empty = decode(&descriptor, [0, 0, 0, 255])[0];
        let span = (full - empty).abs();
        assert!(
            (span - expected).abs() < expected * 1e-9,
            "{encoding:?} spans {span} but should span {expected}"
        );
    }
}

#[test]
fn the_descriptor_names_the_encoding_and_its_parameters() {
    let descriptor_of_wind = descriptor(wind(80.0));
    assert_eq!(text(member(&descriptor_of_wind, "encoding")), "vector-field");
    assert_eq!(number(member(&descriptor_of_wind, "component_limit")), 80.0);
    assert_eq!(
        text(member(member(&descriptor_of_wind, "decode"), "kind")),
        "linear-channels"
    );
    assert_eq!(
        text(member(member(&descriptor_of_wind, "mask"), "channel")),
        "b"
    );

    let descriptor_of_scalar = descriptor(scalar24(-10000.0, 0.1));
    assert_eq!(text(member(&descriptor_of_scalar, "encoding")), "scalar-24");
    assert_eq!(number(member(&descriptor_of_scalar, "base")), -10000.0);
    assert_eq!(number(member(&descriptor_of_scalar, "interval")), 0.1);
    assert_eq!(
        text(member(&descriptor_of_scalar, "compatible_decoder")),
        "mapbox-terrain-rgb"
    );

    let descriptor_of_masked = descriptor(scalar16(-1.0, 2.0));
    assert_eq!(text(member(&descriptor_of_masked, "encoding")), "scalar-16");
    assert_eq!(number(member(&descriptor_of_masked, "min")), -1.0);
    assert_eq!(number(member(&descriptor_of_masked, "max")), 2.0);
}

/// Enough bands is not the same as the right ones.
#[test]
fn an_encoding_rejects_bands_that_are_not_the_ones_it_means() {
    let names = |names: &[&str]| {
        names
            .iter()
            .map(|name| name.to_string())
            .collect::<Vec<_>>()
    };

    let vector = wind(50.0);
    assert!(vector.check_bands(&names(&["u", "v"])).is_ok());
    // Order carries meaning: east-west first.
    assert!(vector.check_bands(&names(&["v", "u"])).is_err());
    // A wave product, which has enough bands and none of the right ones.
    assert!(vector
        .check_bands(&names(&["height", "direction", "period"]))
        .is_err());
    assert!(vector.check_bands(&names(&["value", "error"])).is_err());
    assert!(vector.check_bands(&names(&["u"])).is_err());

    let scalar = scalar16(0.0, 1.0);
    // Any name will do for a scalar, but only one of them.
    assert!(scalar.check_bands(&names(&["value"])).is_ok());
    assert!(scalar.check_bands(&names(&["temperature"])).is_ok());
    assert!(scalar.check_bands(&names(&["value", "error"])).is_err());
    assert!(scalar.check_bands(&names(&[])).is_err());
}

#[test]
fn each_encoding_declares_the_bands_it_reads() {
    assert_eq!(wind(1.0).bands(), 2);
    assert_eq!(scalar24(0.0, 1.0).bands(), 1);
}

fn blank(encoding: ColorEncoding) -> Vec<u8> {
    encoding
        .off_grid()
        .repeat((IMAGE_EXTENT * IMAGE_EXTENT) as usize)
}

/// A tile is mostly one value, and the row filters flatten that to almost
/// nothing.
#[test]
fn a_nearly_uniform_tile_stays_small() {
    let mut pixels = blank(wind(50.0));
    for row in 100..200 {
        for column in 100..200 {
            let index = (row * IMAGE_EXTENT as usize + column) * 4;
            pixels[index..index + 4].copy_from_slice(&[12, 200, 255, 255]);
        }
    }

    let png = encode_png(&pixels).unwrap();
    assert!(
        png.len() < pixels.len() / 100,
        "expected the filters to flatten the tile, but {} bytes came out of {}",
        png.len(),
        pixels.len()
    );
}

/// What a specification asks for, with its numerals read.
fn parse(spec: &str) -> Result<ColorEncoding, RequestError> {
    let request = encoding_request(spec);
    let numbers = request
        .numerals
        .iter()
        .map(|numeral| numeral.parse::<f64>().ok().map(f64::to_bits))
        .collect();
    ColorEncoding::from_request(&request, &numbers)
}

#[test]
fn a_specification_parses_into_the_encoding_it_names() {
    assert_eq!(parse("vector-field:100").unwrap(), wind(100.0));
    assert_eq!(parse("scalar16:-50,50").unwrap(), scalar16(-50.0, 50.0));
    assert_eq!(parse("scalar24:-10000,0.1").unwrap(), scalar24(-10000.0, 0.1));
    // Blanks around a number, and empty parameters, are passed over.
    assert_eq!(parse("scalar16: -50 ,,50,").unwrap(), scalar16(-50.0, 50.0));
}

#[test]
fn a_specification_that_cannot_be_served_is_rejected() {
    for spec in [
        "vector-field",         // no speed limit
        "vector-field:0",       // every value saturates
        "vector-field:-10",     // flips the field
        "vector-field:100,200", // too many
        "scalar16:50,-50",      // decreasing
        "scalar16:1",           // too few
        "scalar24:0,0",         // zero interval
        "scalar16:0,nan",       // not finite
        "hue:1",                // not an encoding
        "",
    ] {
        assert!(parse(spec).is_err(), "{spec:?} should have been rejected");
    }

    assert!(matches!(parse("vector-field:x"), Err(RequestError::NotANumber { .. })));
    assert!(matches!(
        parse("vector-field:1,2"),
        Err(RequestError::ParameterCount { expected: 1, given: 2, .. })
    ));
    assert!(matches!(parse("scalar16:0,inf"), Err(RequestError::NotFinite { .. })));
    assert!(matches!(parse("vector-field:0"), Err(RequestError::Limit { .. })));
    assert!(matches!(parse("vector-field:-0"), Err(RequestError::Limit { .. })));
    assert!(matches!(parse("scalar16:1,1"), Err(RequestError::Range { .. })));
    assert!(matches!(parse("scalar24:0,-1"), Err(RequestError::Interval { .. })));
    assert!(matches!(parse("hue:1"), Err(RequestError::Unknown { .. })));
}

#[test]
fn the_encoded_png_is_readable_and_keeps_every_byte() {
    let mut pixels = blank(wind(1.0));
    pixels[..4].copy_from_slice(&[10, 200, 255, 255]);

    let png = encode_png(&pixels).unwrap();
    let decoder = png::Decoder::new(std::io::Cursor::new(&png));
    let mut reader = decoder.read_info().unwrap();
    let mut decoded = vec![0; reader.output_buffer_size().unwrap()];
    let info = reader.next_frame(&mut decoded).unwrap();

    assert_eq!((info.width, info.height), (IMAGE_EXTENT, IMAGE_EXTENT));
    assert_eq!(info.color_type, png::ColorType::Rgba);
    assert_eq!(&decoded[..info.buffer_size()], &pixels[..]);
}

#[test]
fn an_image_of_the_wrong_size_is_refused() {
    assert!(encode_png(&vec![0; 4]).is_err());
    assert_eq!(IMAGE_EXTENT, TILE_EXTENT + 2 * TILE_BUFFER);
}

fn sample(encoding: ColorEncoding, values: [f64; 2], on_grid: bool) -> Option<Sample> {
    Some(Sample {
        values: values.map(f64::to_bits),
        codes: codes(encoding, values),
        on_grid,
    })
}

/// A value past the edge of the grid stays, and only the flag says so.
#[test]
fn pixels_keep_values_past_the_edge() {
    let encoding = wind(127.0);
    let pixels = assemble_pixels(
        encoding,
        &vec![
            None,
            sample(encoding, [1.0, -1.0], true),
            sample(encoding, [2.0, 3.0], false),
        ],
    )
    .unwrap();
    assert_eq!(
        pixels,
        [128, 128, 0, 255, 129, 127, 255, 255, 130, 131, 0, 255]
    );

    // Without a mask every channel belongs to the value.
    let plain = ColorEncoding::Scalar24 {
        base: 0.0f64.to_bits(),
        interval: 1.0f64.to_bits(),
    };
    assert!(!plain.has_mask() && encoding.has_mask());
    let pixels = assemble_pixels(
        plain,
        &vec![sample(plain, [66051.0, 0.0], true), sample(plain, [66051.0, 0.0], false)],
    )
    .unwrap();
    assert_eq!(pixels, [1, 2, 3, 255, 1, 2, 3, 255]);

    // Nothing on the grid, nothing to store.
    assert!(assemble_pixels(encoding, &vec![None, sample(encoding, [2.0, 3.0], false)]).is_none());
}

#[test]
fn a_tile_without_a_covered_pixel_is_left_out() {
    let encoding = scalar16(0.0, 10.0);
    let size = (IMAGE_EXTENT * IMAGE_EXTENT) as usize;
    let mut samples = vec![None; size];
    assert!(render_raster_tile(encoding, &samples).unwrap().is_none());

    samples[0] = sample(encoding, [10.0, 0.0], true);
    let png = render_raster_tile(encoding, &samples).unwrap().unwrap();
    let mut expected = blank(encoding);
    expected[..4].copy_from_slice(&[255, 255, 255, 255]);
    assert_eq!(png, encode_png(&expected).unwrap());
    assert_eq!(png[1..4], *b"PNG");
}

fn reading(encoding: ColorEncoding, values: [f64; 2]) -> Reading {
    let code = match encoding {
        ColorEncoding::Scalar24 { base, interval } => {
            (values[0] - f64::from_bits(base)) / f64::from_bits(interval)
        }
        _ => 0.0,
    };
    Reading { values: values.map(f64::to_bits), code: code.to_bits() }
}

#[test]
fn the_range_report_counts_what_saturates() {
    let encoding = wind(50.0);
    let readings = [[1.0, 2.0], [60.0, -3.0], [-50.0, 50.0], [f64::NAN, 0.0]]
        .map(|values| reading(encoding, values))
        .to_vec();
    let report = inspect_range(&readings, encoding);
    assert_eq!((report.clipped, report.total), (2, 4));
    assert!(report.is_clipping());
    let extremes = report.extremes[0].unwrap();
    assert_eq!(
        (f64::from_bits(extremes.low), f64::from_bits(extremes.high)),
        (-50.0, 60.0)
    );
    let extremes = report.extremes[1].unwrap();
    assert_eq!(
        (f64::from_bits(extremes.low), f64::from_bits(extremes.high)),
        (-3.0, 50.0)
    );

    // The bottom of the range is a value of its own.
    let encoding = scalar24(0.0, 1.0);
    let readings = [[0.0, 0.0], [-1.0, 0.0], [16777215.0, 0.0], [16777216.0, 0.0]]
        .map(|values| reading(encoding, values))
        .to_vec();
    let report = inspect_range(&readings, encoding);
    assert_eq!((report.clipped, report.total), (2, 4));
    assert!(report.extremes[1].is_none());

    let encoding = scalar16(-1.0, 1.0);
    assert!(!encoding.clips([1f64.to_bits(), 0], 0));
    assert!(encoding.clips([1.5f64.to_bits(), 0], 0));
    let report = RangeReport::new();
    assert!(!report.is_clipping());
}

#[test]
fn raw_readings_are_the_complete_ones() {
    let band = |values: [Option<i32>; 3]| Band {
        values: values.map(CompactOptI32::new).to_vec(),
    };
    let tile = BaseTile {
        point_positions: vec![(0, 0), (1, 0), (2, 0)],
        point_powers: vec![0; 3],
        bands: vec![
            band([Some(1), Some(2), None]),
            band([Some(-1), None, Some(3)]),
        ],
    };
    let tiles = vec![(9, tile)];
    assert_eq!(
        raw_readings(&tiles, wind(1.0)),
        [RawPair { first: 1, second: -1 }]
    );
    assert_eq!(
        raw_readings(&tiles, scalar16(0.0, 1.0))
            .iter()
            .map(|pair| pair.first)
            .collect::<Vec<_>>(),
        [1, 2]
    );
}

/// A point with copies in two tiles is one grid point.
#[test]
fn a_grid_point_is_read_once() {
    let tile = |positions: Vec<(u16, u16)>, values: Vec<i32>| BaseTile {
        point_powers: vec![0; positions.len()],
        point_positions: positions,
        bands: vec![Band {
            values: values.into_iter().map(|v| CompactOptI32::new(Some(v))).collect(),
        }],
    };
    let encoding = scalar16(0.0, 1.0);
    let tiles = vec![(1, tile(vec![(7, 3)], vec![5])), (2, tile(vec![(7, 3)], vec![5]))];
    assert_eq!(raw_readings(&tiles, encoding).len(), 1);

    let tiles = vec![
        (1, tile(vec![(7, 3), (3, 7)], vec![5, 6])),
        (2, tile(vec![(8, 3), (7, 3)], vec![4, 5])),
    ];
    let readings = raw_readings(&tiles, encoding);
    assert_eq!(readings.iter().map(|pair| pair.first).collect::<Vec<_>>(), [5, 6, 4]);
    let measured = readings
        .iter()
        .map(|pair| reading(encoding, [f64::from(pair.first), 0.0]))
        .collect::<Vec<_>>();
    let report = inspect_range(&measured, encoding);
    assert_eq!((report.total, report.clipped), (3, 3));
}

fn point(x: u32, y: u32, power: u8, first: Option<i32>, second: Option<i32>) -> Point {
    Point {
        x,
        y,
        power,
        values: [
            CompactOptI32::new(first),
            CompactOptI32::new(second),
            CompactOptI32::none(),
            CompactOptI32::none(),
        ],
    }
}

/// A coarse point owns every node it covers; half a vector is none.
#[test]
fn points_are_laid_on_the_finest_lattice() {
    let points = vec![
        point(4, 6, 1, Some(1), Some(2)),
        point(6, 6, 0, Some(3), None),
        point(6, 7, 0, Some(5), Some(6)),
    ];
    let grid = SampleGrid::build(&points, 2).unwrap();
    assert_eq!((grid.first, grid.step), ((4, 6), 1));
    assert_eq!((grid.columns, grid.rows), (4, 3));
    let one = Some(RawPair { first: 1, second: 2 });
    let two = Some(RawPair { first: 5, second: 6 });
    assert_eq!(
        grid.nodes,
        [one, one, None, None, one, one, two, None, None, None, None, None]
    );

    // Looked up by place, with nothing outside.
    assert_eq!(grid.node(1, 1), one);
    assert_eq!(grid.node(-1, 0), None);
    assert_eq!(grid.node(0, 3), None);
    assert_eq!(grid.corners(1, 0), [one, None, one, two]);
    assert_eq!(grid.corners(-1, -1), [None, None, None, one]);

    let grid = SampleGrid::build(&points[..1].to_vec(), 1).unwrap();
    assert_eq!((grid.first, grid.step, grid.columns, grid.rows), ((2, 3), 2, 2, 2));
    assert!(SampleGrid::build(&vec![], 1).is_none());
}

/// Two tiles that share a point have the same values at its nodes, whatever else
/// each of them holds.
#[test]
fn neighbouring_lattices_agree() {
    let shared = point(8, 4, 1, Some(7), Some(8));
    let west = vec![point(4, 6, 0, Some(1), Some(1)), shared];
    let east = vec![shared, point(12, 4, 0, Some(2), Some(2)), point(10, 0, 1, Some(3), Some(3))];
    let west = SampleGrid::build(&west, 2).unwrap();
    let east = SampleGrid::build(&east, 2).unwrap();
    assert_eq!((west.step, east.step), (1, 1));
    assert_ne!(west.first, east.first);
    let at = |grid: &SampleGrid, x: i64, y: i64| {
        grid.node(x - i64::from(grid.first.0), y - i64::from(grid.first.1))
    };
    for (x, y) in [(8, 4), (9, 4), (8, 5), (9, 5)] {
        assert_eq!(at(&west, x, y), Some(RawPair { first: 7, second: 8 }));
        assert_eq!(at(&east, x, y), at(&west, x, y));
    }
}

#[test]
fn a_member_of_an_object_is_replaced_where_it_stands() {
    let mut members = Members::new();
    members.insert("a", Json::Bool(true));
    members.insert("b", Json::text("x"));
    members.insert("a", Json::Null);
    let json = Json::object(members);
    assert!(matches!(member(&json, "a"), Json::Null));
    assert!(matches!(&json, Json::Object(members) if members.len() == 2));
}
