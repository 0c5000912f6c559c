//! What an archive and a manifest say of their tiles.

use grib2pmtiles::conversion::TileOutput;
use grib2pmtiles::descriptor::Coefficients;
use grib2pmtiles::json::Json;
use grib2pmtiles::metadata::{
    generate_manifest, generate_metadata, interpolates, level_descriptor, range_report,
    raster_encoding, sampling_contract, Figures, MeasuredRange, MetadataOptions,
};
use grib2pmtiles::model::{
    Aggregation, BandSpec, FixedSurface, GeneratingProcessType, GpvProductIdentifier, LngLatGrid,
    PreparedProduct, Quantization, TilesetSpec,
};
use grib2pmtiles::paths::Step;
use grib2pmtiles::range::{Extremes, RangeReport};
use grib2pmtiles::raster::ColorEncoding;

/// The JSON text, with members in their order.
fn show(json: &Json) -> String {
    match json {
        Json::Null => "null".to_string(),
        Json::Bool(value) => format!("{value}"),
        Json::Int(value) => format!("{value}"),
        Json::Double(bits) => format!("{:?}", f64::from_bits(*bits)),
        Json::Text(text) => format!("{text:?}"),
        Json::List(items) => format!(
            "[{}]",
            items.iter().map(show).collect::<Vec<_>>().join(",")
        ),
        Json::Object(members) => format!(
            "{{{}}}",
            members
                .iter()
                .map(|(name, value)| format!("{name:?}:{}", show(value)))
                .collect::<Vec<_>>()
                .join(",")
        ),
    }
}

fn member<'a>(json: &'a Json, name: &str) -> Option<&'a Json> {
    match json {
        Json::Object(members) => members
            .iter()
            .find(|(key, _)| key == name)
            .map(|(_, value)| value),
        _ => panic!("no object: {json:?}"),
    }
}

fn shown(json: &Json, name: &str) -> String {
    show(member(json, name).unwrap_or_else(|| panic!("no member {name:?}")))
}

fn band(name: &str) -> BandSpec {
    BandSpec {
        name: name.to_string(),
        reference_value: 0,
        binary_scale: 0,
        decimal_scale: 0,
        min: None,
        max: None,
    }
}

fn product(minutes: i64, bands: &[&str]) -> PreparedProduct {
    let reference: i64 = 1_570_871_100;
    PreparedProduct {
        product_id: GpvProductIdentifier {
            kind: 1,
            data_kind: "msm".to_string(),
            value_kind: "wind".to_string(),
            path: "msm/wind".to_string(),
            kind_path: "msm/wind".to_string(),
            bands: bands.iter().map(|name| name.to_string()).collect(),
            aggregation: Aggregation { number: 0 },
            datetime: reference + 60 * minutes,
            reference_datetime: reference,
            generating_process: GeneratingProcessType::Forecast,
            surface: FixedSurface::Altitude(10, 0),
            ensemble: None,
            variant: None,
        },
        spec: TilesetSpec {
            name: "msm/wind".to_string(),
            base_z: 4,
            grid_spec: LngLatGrid { lng_0: 0, lat_0: 0, lng_denom: 0, lat_denom: 0 },
            aggregation: Aggregation { number: 0 },
            band_specs: bands.iter().map(|name| band(name)).collect(),
            quantize: bands.iter().map(|_| None).collect(),
            omit_zero: bands.iter().map(|_| None).collect(),
            omit_class: bands.iter().map(|_| None).collect(),
            bounds: [0; 4],
        },
        chunks: Vec::new(),
    }
}

fn wind(limit: f64) -> ColorEncoding {
    ColorEncoding::VectorField { component_limit: limit.to_bits() }
}

fn figures() -> Figures {
    Figures {
        coefficients: Coefficients {
            weights: [0; 3],
            scale: 2f64.to_bits(),
            offset: (-1f64).to_bits(),
        },
        level: 10f64.to_bits(),
    }
}

fn measured(low: f64, high: f64) -> MeasuredRange {
    let extremes = Some(Extremes { low: low.to_bits(), high: high.to_bits() });
    MeasuredRange {
        report: RangeReport { extremes: [extremes, None], clipped: 1, total: 4 },
        clipped_share: 25f64.to_bits(),
    }
}

#[test]
fn every_level_says_what_it_is() {
    let value = 1.5f64.to_bits();
    for (surface, expected) in [
        (FixedSurface::Unspecified, "null"),
        (FixedSurface::Surface, r#"{"type":"surface"}"#),
        (FixedSurface::Msl, r#"{"type":"mean-sea-level"}"#),
        (FixedSurface::Altitude(15, 1), r#"{"type":"height","value":1.5,"unit":"m"}"#),
        (
            FixedSurface::IsobaricSurface(15, 1),
            r#"{"type":"isobaric","value":1.5,"unit":"Pa"}"#,
        ),
        (
            FixedSurface::DepthBelowSeaLevel(15, 1),
            r#"{"type":"depth-below-sea-level","value":1.5,"unit":"m"}"#,
        ),
        (FixedSurface::CloudTops, r#"{"type":"cloud-tops"}"#),
        (FixedSurface::TankTotal, r#"{"type":"tank-total"}"#),
        (FixedSurface::Tank(3), r#"{"type":"tank","value":3}"#),
    ] {
        assert_eq!(show(&level_descriptor(surface, value)), expected);
    }
}

#[test]
fn a_quantized_field_asks_for_its_nearest_class() {
    let mut classes = product(0, &["value"]);
    assert!(shown(&sampling_contract(&classes), "filter").contains("linear"));
    assert!(interpolates(&classes));

    classes.spec.quantize = vec![Some(Quantization { bounds: vec![], outputs: vec![] })];
    assert!(!interpolates(&classes));
    assert_eq!(
        show(&sampling_contract(&classes)),
        r#"{"sample_space":"normalized-texel","texture_format":"rgba8unorm","filter":"nearest","color_space_conversion":"none","premultiply_alpha":false,"mipmaps":false}"#
    );
}

#[test]
fn a_raster_says_how_it_is_stored() {
    let wind_product = product(0, &["u", "v"]);
    let raster = Json::object(raster_encoding(Some(&wind_product), wind(50.0), figures()));
    for (name, expected) in [
        ("encoding", r#""vector-field""#),
        ("component_limit", "50.0"),
        (
            "decode",
            r#"{"kind":"linear-channels","channels":["r","g"],"scale":2.0,"offset":-1.0}"#,
        ),
        ("mask", r#"{"kind":"channel-gte","channel":"b","threshold":0.5}"#),
        ("schema_version", "1"),
        ("container", r#""png""#),
        ("tile_size", "512"),
        ("buffer", "1"),
        ("image_size", "514"),
        ("bands", r#"["u","v"]"#),
        ("level", r#"{"type":"height","value":10.0,"unit":"m"}"#),
        ("components", r#"["eastward","northward"]"#),
        ("units", r#""m/s""#),
    ] {
        assert_eq!(shown(&raster, name), expected);
    }

    let bare = Json::object(raster_encoding(None, wind(50.0), figures()));
    assert!(member(&bare, "bands").is_none() && member(&bare, "level").is_none());
}

#[test]
fn a_range_is_reported_per_band() {
    assert_eq!(
        show(&range_report(&measured(-2.0, 3.5), wind(1.0))),
        r#"{"bands":[{"min":-2.0,"max":3.5},null],"values":4,"clipped_count":1,"clipped_share_percent":25.0}"#
    );
    let scalar = ColorEncoding::Scalar16 { min: 0, max: 0 };
    assert_eq!(
        shown(&range_report(&measured(-2.0, 3.5), scalar), "bands"),
        r#"[{"min":-2.0,"max":3.5}]"#
    );
}

fn bounds() -> [u64; 4] {
    [120f64, 22.0, 150.0, 48.0].map(f64::to_bits)
}

#[test]
fn a_raster_archive_describes_its_field() {
    let options = MetadataOptions {
        min_zoom: 1,
        max_zoom: 6,
        output: TileOutput::Raster(wind(50.0)),
        sequence: Some(3),
        range: Some(measured(0.0, 1.0)),
    };
    let metadata = generate_metadata(
        "out.pmtiles",
        &vec![product(30, &["u", "v"])],
        &vec![],
        bounds(),
        &options,
        figures(),
    );
    for (name, expected) in [
        ("name", r#""out.pmtiles""#),
        ("description", r#""""#),
        ("format", r#""png""#),
        ("type", r#""overlay""#),
        ("generator", r#""grib2pmtiles""#),
        ("version", r#""1.0.0""#),
        ("minzoom", "1"),
        ("maxzoom", "6"),
        ("bounds", "[120.0,22.0,150.0,48.0]"),
        ("product", r#""msm/wind""#),
        ("reference_time", r#""2019-10-12T09:05:00+00:00""#),
        ("valid_time", r#""2019-10-12T09:35:00+00:00""#),
        ("sequence", "3"),
    ] {
        assert_eq!(shown(&metadata, name), expected);
    }
    let raster = member(&metadata, "raster_encoding").unwrap();
    assert_eq!(shown(member(raster, "source_range").unwrap(), "values"), "4");
    assert!(member(&metadata, "vector_layers").is_none());
}

#[test]
fn a_vector_archive_lists_its_layers() {
    let mut classes = product(0, &["value", "error"]);
    classes.spec.quantize[0] = Some(Quantization {
        bounds: vec![1f64.to_bits()],
        outputs: vec![0f64.to_bits(), 5f64.to_bits()],
    });
    classes.spec.omit_class[0] = Some(vec![5f64.to_bits()]);
    classes.spec.omit_zero[1] = Some(vec![0f64.to_bits()]);
    let options = MetadataOptions {
        min_zoom: 0,
        max_zoom: 4,
        output: TileOutput::Mvt,
        sequence: None,
        range: None,
    };
    let metadata = generate_metadata(
        "out",
        &vec![classes],
        &vec!["rain_0".to_string()],
        bounds(),
        &options,
        figures(),
    );
    assert_eq!(shown(&metadata, "format"), r#""pbf""#);
    assert_eq!(
        shown(&metadata, "vector_layers"),
        r#"[{"id":"rain_0","minzoom":0,"maxzoom":4,"fields":{"value":"Number","error":"Number"}}]"#
    );
    assert_eq!(
        shown(&metadata, "quantization"),
        r#"{"value":{"bounds":[1.0],"outputs":[0.0,5.0],"omitted_classes":[5.0]}}"#
    );
    assert_eq!(shown(&metadata, "omitted_input_values"), r#"{"error":[0.0]}"#);
    assert!(member(&metadata, "raster_encoding").is_none());
}

/// The manifest carries the encoding of its archives, and one entry per time.
#[test]
fn a_manifest_agrees_with_its_archives() {
    let place = |parts: &[&str]| {
        let mut steps = vec![Step::Root];
        for part in parts {
            steps.push(Step::Name(part.to_string()));
        }
        steps
    };
    let products = vec![product(0, &["u", "v"]), product(60, &["u", "v"])];
    let output = TileOutput::Raster(wind(50.0));
    let manifest = generate_manifest(
        &place(&["out", "manifests"]),
        &products,
        &vec![place(&["out", "w0.pmtiles"]), place(&["out", "w1.pmtiles"])],
        output,
        (1, 6),
        bounds(),
        &vec![measured(0.0, 1.0), measured(2.0, 3.0)],
        figures(),
    );

    let options = MetadataOptions { min_zoom: 1, max_zoom: 6, output, sequence: None, range: None };
    let metadata =
        generate_metadata("w0", &products, &vec![], bounds(), &options, figures());
    assert_eq!(
        shown(&manifest, "encoding"),
        shown(&metadata, "raster_encoding")
    );
    assert_eq!(shown(&manifest, "minzoom"), "1");
    assert_eq!(shown(&manifest, "maxzoom"), "6");
    let times = match member(&manifest, "times").unwrap() {
        Json::List(times) => times,
        other => panic!("no list: {other:?}"),
    };
    assert_eq!(times.len(), 2);
    assert_eq!(shown(&times[1], "url"), r#""../w1.pmtiles""#);
    assert_eq!(shown(&times[1], "valid_time"), r#""2019-10-12T10:05:00+00:00""#);
}
