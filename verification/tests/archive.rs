//! Options, selection and paths of a conversion.

use grib2pmtiles::grouping::group_points;
use grib2pmtiles::header::{normalize_empty_leaf_offset, HeaderError};
use grib2pmtiles::model::{
    Aggregation, FixedSurface, GeneratingProcessType, GpvProductIdentifier, LngLatGrid, PointValue,
    PreparedProduct, ProductData, RawProduct, TilesetSpec,
};
use grib2pmtiles::options::{
    apply_renames, build_layer_names, parse_rename, resolve_renames, validate_options,
    ConvertOptions, OptionsError, RenameError,
};
use grib2pmtiles::paths::{
    absolute_lexical, ensure_distinct_paths, raster_output_paths, relative_url, OutputPathError,
    PathClash, Step, Target,
};
use grib2pmtiles::prepare::{prepare_product, product_grid, Footprint};
use grib2pmtiles::raster::RequestError;
use grib2pmtiles::selection::{
    available_products, resolve_product_selector, select_products, sort_by_time, SelectionError,
};

/// The steps of a path that starts in a working directory of its own.
fn steps(path: &str) -> Vec<Step> {
    let mut steps = vec![
        Step::Root,
        Step::Name("work".to_string()),
        Step::Name("dir".to_string()),
    ];
    if path.starts_with('/') {
        steps.clear();
        steps.push(Step::Root);
    }
    for part in path.split('/').filter(|part| !part.is_empty()) {
        steps.push(match part {
            "." => Step::Current,
            ".." => Step::Parent,
            name => Step::Name(name.to_string()),
        });
    }
    steps
}

/// The bytes of what a path resolves to.
fn resolved(path: &str) -> Vec<u8> {
    format!("/{}", absolute_lexical(&steps(path)).join("/")).into_bytes()
}

#[test]
fn a_manifest_may_not_land_on_an_archive() {
    let archive = resolved("wind.pmtiles");
    assert!(
        ensure_distinct_paths(&resolved("in.bin"), &vec![archive.clone()], &None).is_ok()
    );
    assert!(
        ensure_distinct_paths(&resolved("in.bin"), &vec![archive.clone()], &Some(archive.clone()))
            .is_err()
    );
    assert_eq!(
        ensure_distinct_paths(&resolved("in.bin"), &vec![archive.clone()], &Some(archive)),
        Err(PathClash::WrittenTwice(Target::Manifest))
    );
}

#[test]
fn two_forecast_times_may_not_share_a_path() {
    let outputs = vec![resolved("wind.pmtiles"), resolved("./wind.pmtiles")];
    assert!(ensure_distinct_paths(&resolved("in.bin"), &outputs, &None).is_err());
    assert_eq!(
        ensure_distinct_paths(&resolved("in.bin"), &outputs, &None),
        Err(PathClash::WrittenTwice(Target::Output(1)))
    );
}

#[test]
fn nothing_may_be_written_over_the_input() {
    let input = resolved("in.bin");
    assert_eq!(
        ensure_distinct_paths(&input, &vec![resolved("in.bin")], &None),
        Err(PathClash::OverwritesInput(Target::Output(0)))
    );
    assert_eq!(
        ensure_distinct_paths(&input, &vec![resolved("out.pmtiles")], &Some(input.clone())),
        Err(PathClash::OverwritesInput(Target::Manifest))
    );
}

#[test]
fn a_url_is_relative_to_the_manifest_wherever_the_archive_sits() {
    assert_eq!(
        relative_url(&steps("out"), &steps("out/wind_0.pmtiles")),
        "wind_0.pmtiles"
    );
    assert_eq!(
        relative_url(&steps("out/manifests"), &steps("out/wind_0.pmtiles")),
        "../wind_0.pmtiles"
    );
    assert_eq!(
        relative_url(&steps("manifests"), &steps("wind_0.pmtiles")),
        "../wind_0.pmtiles"
    );
    assert_eq!(
        relative_url(&steps("a/b"), &steps("c/wind.pmtiles")),
        "../../c/wind.pmtiles"
    );
}

#[test]
fn relative_manifest_urls_do_not_depend_on_how_paths_were_spelled() {
    let manifest_dir = steps("/work/dir/out/manifests");
    let archive = steps("/work/dir/out/wind.pmtiles");

    assert_eq!(
        relative_url(&manifest_dir, &steps("out/wind.pmtiles")),
        "../wind.pmtiles"
    );
    assert_eq!(
        relative_url(&steps("out/manifests"), &archive),
        "../wind.pmtiles"
    );
}

/// Following a url from the directory it was made for leads to the archive.
#[test]
fn a_relative_url_leads_back() {
    for (directory, output) in [
        ("out", "out/wind_0.pmtiles"),
        ("a/b/c", "a/x.pmtiles"),
        ("a/../b", "./c/../d.pmtiles"),
        ("/", "/x/y"),
        ("/x/y", "/x"),
    ] {
        let url = relative_url(&steps(directory), &steps(output));
        let mut followed = steps(directory);
        for part in url.split('/').filter(|part| !part.is_empty()) {
            followed.push(match part {
                ".." => Step::Parent,
                name => Step::Name(name.to_string()),
            });
        }
        assert_eq!(
            absolute_lexical(&followed),
            absolute_lexical(&steps(output)),
            "{directory} {output} {url}"
        );
    }
    assert!(absolute_lexical(&steps("/../..")).is_empty());
}

#[test]
fn layer_pattern_is_zero_based() {
    let options = ConvertOptions {
        layer_name_pattern: "rain250m_{seq}".into(),
        layer_count: Some(12),
        ..Default::default()
    };
    validate_options(&options, &vec![]).unwrap();
    let names = build_layer_names(&options, 12);

    assert_eq!(names.first().unwrap(), "rain250m_0");
    assert_eq!(names.last().unwrap(), "rain250m_11");
}

#[test]
fn layer_seq_start_shifts_the_numbering() {
    // FH01-06 delivers six products whose forecast hours are 1 through 6.
    let options = ConvertOptions {
        layer_name_pattern: "rain1km6h_{seq}".into(),
        layer_seq_start: 1,
        ..Default::default()
    };
    validate_options(&options, &vec![]).unwrap();

    let names = build_layer_names(&options, 6);

    assert_eq!(names.first().unwrap(), "rain1km6h_1");
    assert_eq!(names.last().unwrap(), "rain1km6h_6");
    assert_eq!(names.len(), 6);
}

#[test]
fn every_placeholder_of_a_layer_pattern_is_replaced() {
    let options = ConvertOptions {
        layer_name_pattern: "{seq}a{seq}".into(),
        ..Default::default()
    };
    assert_eq!(build_layer_names(&options, 2), ["0a0", "1a1"]);
}

#[test]
fn one_raster_time_accepts_a_plain_output_path() {
    let products = vec![product(0, GeneratingProcessType::Forecast)];
    assert_eq!(
        raster_output_paths(Some("wind.pmtiles"), &products, 0)
            .unwrap()
            .unwrap(),
        ["wind.pmtiles"]
    );
    // A path that is no text stands as it was given.
    assert!(raster_output_paths(None, &products, 0).unwrap().is_none());
}

#[test]
fn one_raster_time_expands_its_reference_time() {
    let products = vec![product(0, GeneratingProcessType::Forecast)];
    assert_eq!(
        raster_output_paths(Some("wind_{reference_time}.pmtiles"), &products, 0)
            .unwrap()
            .unwrap(),
        ["wind_20191012090500.pmtiles"]
    );
}

#[test]
fn a_raster_output_pattern_expands_the_sequence() {
    let products = vec![
        product(0, GeneratingProcessType::Forecast),
        product(5, GeneratingProcessType::Forecast),
        product(10, GeneratingProcessType::Forecast),
    ];
    assert_eq!(
        raster_output_paths(Some("wind_{seq}.pmtiles"), &products, 4)
            .unwrap()
            .unwrap(),
        ["wind_4.pmtiles", "wind_5.pmtiles", "wind_6.pmtiles"]
    );
}

#[test]
fn a_raster_output_pattern_expands_the_valid_time() {
    let products = vec![
        product(0, GeneratingProcessType::Forecast),
        product(5, GeneratingProcessType::Forecast),
    ];

    assert_eq!(
        raster_output_paths(
            Some("wind_{reference_time}_{valid_time}_{seq}.pmtiles"),
            &products,
            7,
        )
        .unwrap()
        .unwrap(),
        [
            "wind_20191012090500_20191012090500_7.pmtiles",
            "wind_20191012090500_20191012091000_8.pmtiles",
        ]
    );
}

#[test]
fn several_raster_times_require_an_output_pattern() {
    let products = vec![
        product(0, GeneratingProcessType::Forecast),
        product(5, GeneratingProcessType::Forecast),
    ];
    let error = raster_output_paths(Some("wind.pmtiles"), &products, 0).unwrap_err();

    assert!(error.message().contains("{valid_time}"));
    assert!(matches!(error, OutputPathError::NoPlaceholder { count: 2 }));
    let error = raster_output_paths(None, &products, 0).unwrap_err();
    assert!(matches!(error, OutputPathError::NotText));
}

#[test]
fn raster_output_paths_must_be_unique_after_expansion() {
    let products = vec![
        product(0, GeneratingProcessType::Analysis),
        product(0, GeneratingProcessType::Forecast),
    ];
    let error =
        raster_output_paths(Some("wind_{valid_time}.pmtiles"), &products, 0).unwrap_err();

    assert!(error.message().contains("duplicate"));
}

#[test]
fn a_sequence_may_not_run_past_its_last_number() {
    let products = vec![
        product(0, GeneratingProcessType::Forecast),
        product(5, GeneratingProcessType::Forecast),
    ];
    let error = raster_output_paths(Some("{seq}"), &products, usize::MAX).unwrap_err();

    assert!(matches!(error, OutputPathError::SequenceOverflow));
}

fn names(values: &[&str]) -> Vec<String> {
    values.iter().map(|value| value.to_string()).collect()
}

fn args(values: &[&str]) -> Vec<String> {
    names(values)
}

#[test]
fn rename_rewrites_the_band_name() {
    let mut bands = names(&["value"]);

    resolve_renames(&mut bands, &args(&["value=DN"])).unwrap();

    assert_eq!(bands, names(&["DN"]));
}

#[test]
fn rename_touches_only_the_named_band() {
    let mut bands = names(&["u", "v"]);

    resolve_renames(&mut bands, &args(&["v=northward"])).unwrap();

    assert_eq!(bands, names(&["u", "northward"]));
}

#[test]
fn renames_can_be_chained() {
    let mut bands = names(&["u", "v"]);

    resolve_renames(&mut bands, &args(&["u=eastward", "v=northward"])).unwrap();

    assert_eq!(bands, names(&["eastward", "northward"]));
}

#[test]
fn a_rename_sees_the_names_before_it() {
    let mut bands = names(&["u", "v"]);

    resolve_renames(&mut bands, &args(&["u=w", "v=u", "w=v"])).unwrap();

    assert_eq!(bands, names(&["v", "u"]));
}

#[test]
fn rename_requires_both_sides() {
    for arg in ["value", "value=", "=DN", ""] {
        let error = parse_rename(arg).unwrap_err();
        assert!(
            error.message().contains("<from>=<to>"),
            "unexpected error for {arg:?}: {error:?}"
        );
    }
    assert_eq!(
        parse_rename("a=b=c").unwrap(),
        ("a".to_string(), "b=c".to_string())
    );
}

#[test]
fn rename_reports_a_band_that_is_not_there() {
    let mut bands = names(&["value"]);

    let error = resolve_renames(&mut bands, &args(&["nope=DN"])).unwrap_err();

    let message = error.message();
    assert!(message.contains("unknown band"), "unexpected: {message}");
    assert!(message.contains("\"value\""), "unexpected: {message}");
}

#[test]
fn rename_rejects_a_name_already_in_use() {
    // Renaming `u` onto `v` would leave two bands sharing one attribute key.
    let mut bands = names(&["u", "v"]);

    let error = resolve_renames(&mut bands, &args(&["u=v"])).unwrap_err();

    assert!(
        error.message().contains("collides"),
        "unexpected error: {error:?}"
    );
    assert_eq!(bands, names(&["u", "v"]), "the names must be left alone");
}

#[test]
fn renames_reach_every_product() {
    let band = |name: &str| grib2pmtiles::model::BandSpec {
        name: name.to_string(),
        reference_value: 0,
        binary_scale: 0,
        decimal_scale: 0,
        min: None,
        max: None,
    };
    let mut products = vec![
        product(0, GeneratingProcessType::Forecast),
        product(5, GeneratingProcessType::Forecast),
    ];
    for product in &mut products {
        product.spec.band_specs = vec![band("u"), band("v")];
    }

    apply_renames(&mut products, &args(&["u=east"])).unwrap();
    for product in &products {
        assert_eq!(product.spec.band_specs[0].name, "east");
        assert_eq!(product.spec.band_specs[1].name, "v");
    }

    let error = apply_renames(&mut products, &args(&["u=x"])).unwrap_err();
    assert!(matches!(error, RenameError::UnknownBand { .. }));
}

#[test]
fn layer_pattern_requires_placeholder() {
    let options = ConvertOptions {
        layer_name_pattern: "rain250m".into(),
        ..Default::default()
    };
    assert!(matches!(
        validate_options(&options, &vec![]),
        Err(OptionsError::LayerPattern)
    ));
}

/// Each of the other options that cannot be served.
#[test]
fn options_that_cannot_be_served_are_refused() {
    let options = ConvertOptions { layer_count: Some(0), ..Default::default() };
    assert!(matches!(validate_options(&options, &vec![]), Err(OptionsError::LayerCount)));

    let options = ConvertOptions { rename: args(&["a=b", "a"]), ..Default::default() };
    assert!(matches!(
        validate_options(&options, &vec![]),
        Err(OptionsError::Rename(RenameError::Malformed { .. }))
    ));

    let options = ConvertOptions { raster: Some("hue:1".to_string()), ..Default::default() };
    assert!(matches!(
        validate_options(&options, &vec![Some(1f64.to_bits())]),
        Err(OptionsError::Raster(RequestError::Unknown { .. }))
    ));

    let options = ConvertOptions { manifest: Some("m.json".to_string()), ..Default::default() };
    assert!(matches!(validate_options(&options, &vec![]), Err(OptionsError::Manifest)));

    let options = ConvertOptions {
        manifest: Some("m.json".to_string()),
        raster: Some("vector-field:100".to_string()),
        ..Default::default()
    };
    assert!(validate_options(&options, &vec![Some(100f64.to_bits())]).is_ok());
}

fn product_id(minutes: i64, process: GeneratingProcessType) -> GpvProductIdentifier {
    let reference: i64 = 1_570_871_100;
    GpvProductIdentifier {
        kind: 1,
        data_kind: "hrnowc".to_string(),
        value_kind: "intensity".to_string(),
        path: format!("hrnowc/intensity/{minutes}"),
        kind_path: "hrnowc/intensity".to_string(),
        bands: names(&["value"]),
        aggregation: Aggregation { number: 0 },
        datetime: reference + 60 * minutes,
        reference_datetime: reference,
        generating_process: process,
        surface: FixedSurface::Unspecified,
        ensemble: None,
        variant: None,
    }
}

fn product(minutes: i64, process: GeneratingProcessType) -> PreparedProduct {
    let product_id = product_id(minutes, process);
    PreparedProduct {
        spec: TilesetSpec {
            name: product_id.path.clone(),
            base_z: 0,
            grid_spec: LngLatGrid {
                lng_0: 0,
                lat_0: 0,
                lng_denom: 1f32.to_bits(),
                lat_denom: 1f32.to_bits(),
            },
            aggregation: Aggregation { number: 0 },
            band_specs: Vec::new(),
            quantize: Vec::new(),
            omit_zero: Vec::new(),
            omit_class: Vec::new(),
            bounds: [0; 4],
        },
        product_id,
        chunks: Vec::new(),
    }
}

fn offsets(products: &[PreparedProduct]) -> Vec<i64> {
    products
        .iter()
        .map(|product| {
            (product.product_id.datetime - product.product_id.reference_datetime) / 60
        })
        .collect()
}

/// The footprint of a point without a place on the map.
fn nowhere() -> Footprint {
    Footprint { west: 0, east: 0, south: 0, north: 0, tiles: None }
}

#[test]
fn products_are_selected_before_expensive_preparation() {
    // The point of the rejected product holds the value that stands for a
    // missing one, which cannot be prepared.
    let mut rejected_id = product_id(0, GeneratingProcessType::Forecast);
    rejected_id.kind = 2;
    rejected_id.value_kind = "intensity-error".to_string();
    let rejected = RawProduct {
        product_id: rejected_id,
        data: ProductData {
            points: vec![PointValue {
                x: 0,
                y: 0,
                point_id: 0,
                point_power: 0,
                band_idx: 0,
                value: i32::MIN,
            }],
            band_specs: Vec::new(),
            grid: None,
        },
    };
    let selected = RawProduct {
        product_id: product_id(0, GeneratingProcessType::Forecast),
        data: ProductData { points: Vec::new(), band_specs: Vec::new(), grid: None },
    };

    let selected = select_products(
        vec![rejected, selected],
        Some("hrnowc/intensity"),
        None,
        false,
        None,
    )
    .unwrap();
    let catalogue = LngLatGrid { lng_0: 0, lat_0: 0, lng_denom: 0, lat_denom: 0 };
    let prepared = selected
        .into_iter()
        .map(|product| {
            let grid = product_grid(&product.data, catalogue);
            assert!(product.data.points.iter().all(|point| point.value != i32::MIN));
            let points = group_points(&product.data.points);
            let footprints = points.iter().map(|_| nowhere()).collect();
            prepare_product(
                product.product_id,
                product.data.band_specs,
                grid,
                0,
                &points,
                &footprints,
            )
        })
        .collect::<Vec<_>>();

    assert_eq!(prepared.len(), 1);
    assert_eq!(
        prepared[0].product_id.product_selector(),
        "hrnowc/intensity".to_string()
    );
}

#[test]
fn the_analysis_leads_the_layers_by_default() {
    // A nowcast input starts with the observed field, five minutes back.
    let input = vec![
        product(-5, GeneratingProcessType::Analysis),
        product(0, GeneratingProcessType::Forecast),
        product(5, GeneratingProcessType::Forecast),
    ];

    let selected = select_products(input, None, None, false, None).unwrap();

    assert_eq!(offsets(&selected), [-5, 0, 5]);
}

#[test]
fn skip_analysis_drops_the_observed_field() {
    let input = vec![
        product(-5, GeneratingProcessType::Analysis),
        product(0, GeneratingProcessType::Forecast),
        product(5, GeneratingProcessType::Forecast),
    ];

    let selected = select_products(input, None, None, true, None).unwrap();

    assert_eq!(offsets(&selected), [0, 5]);
}

#[test]
fn skip_analysis_runs_before_the_layer_count() {
    // The count must apply to the forecasts, not include the analysis.
    let input = vec![
        product(-5, GeneratingProcessType::Analysis),
        product(0, GeneratingProcessType::Forecast),
        product(5, GeneratingProcessType::Forecast),
    ];

    let selected = select_products(input, None, Some(2), true, None).unwrap();

    assert_eq!(offsets(&selected), [0, 5]);
}

#[test]
fn min_lead_time_also_drops_the_step_valid_at_the_reference_time() {
    // The first nowcast forecast is valid at the reference time itself.
    let input = vec![
        product(-5, GeneratingProcessType::Analysis),
        product(0, GeneratingProcessType::Forecast),
        product(5, GeneratingProcessType::Forecast),
        product(10, GeneratingProcessType::Forecast),
    ];

    let selected = select_products(input, None, None, false, Some(5)).unwrap();

    assert_eq!(offsets(&selected), [5, 10]);
}

#[test]
fn min_lead_time_reports_an_input_with_nothing_far_enough_ahead() {
    let input = vec![product(0, GeneratingProcessType::Forecast)];

    let error = select_products(input, None, None, false, Some(5)).unwrap_err();

    assert!(
        error.message().contains("removed every product"),
        "unexpected error: {error:?}"
    );
}

#[test]
fn skip_analysis_reports_an_input_with_no_forecast() {
    let input = vec![product(-5, GeneratingProcessType::Analysis)];

    let error = select_products(input, None, None, true, None).unwrap_err();

    assert!(
        error.message().contains("removed every product"),
        "unexpected error: {error:?}"
    );
}

/// The layer count is an upper limit: fewer products are all kept.
#[test]
fn a_layer_count_limits_the_products() {
    let input = || {
        vec![
            product(5, GeneratingProcessType::Forecast),
            product(0, GeneratingProcessType::Forecast),
        ]
    };

    let selected = select_products(input(), None, Some(3), false, None).unwrap();
    assert_eq!(offsets(&selected), [0, 5]);
    let selected = select_products(input(), None, Some(2), false, None).unwrap();
    assert_eq!(offsets(&selected), [0, 5]);
    let selected = select_products(input(), None, Some(1), false, None).unwrap();
    assert_eq!(offsets(&selected), [0]);

    let error = select_products::<RawProduct>(vec![], None, None, false, None).unwrap_err();
    assert!(matches!(error, SelectionError::NoProducts));
}

/// Times ascend, and products of one time keep the order they came in.
#[test]
fn products_are_ordered_by_time() {
    let sorted = sort_by_time(vec![
        product(10, GeneratingProcessType::Forecast),
        product(0, GeneratingProcessType::Forecast),
        product(10, GeneratingProcessType::Analysis),
        product(-5, GeneratingProcessType::Forecast),
    ]);
    assert_eq!(offsets(&sorted), [-5, 0, 10, 10]);
    assert_eq!(sorted[2].product_id.generating_process, GeneratingProcessType::Forecast);
    assert_eq!(sorted[3].product_id.generating_process, GeneratingProcessType::Analysis);
}

#[test]
fn each_selector_is_available_once() {
    let mut other = product(0, GeneratingProcessType::Forecast);
    other.product_id.value_kind = "error".to_string();
    let products = vec![
        product(0, GeneratingProcessType::Forecast),
        other,
        product(5, GeneratingProcessType::Forecast),
    ];
    assert_eq!(available_products(&products), ["hrnowc/error", "hrnowc/intensity"]);
}

#[test]
fn single_product_is_selected_implicitly() {
    let available = names(&["hrnowc/intensity"]);

    assert_eq!(
        resolve_product_selector(&available, None).unwrap(),
        "hrnowc/intensity"
    );
}

#[test]
fn multiple_products_require_an_explicit_selection() {
    let available = names(&["hrnowc/intensity", "hrnowc/precip"]);

    let error = resolve_product_selector(&available, None).unwrap_err();
    assert_eq!(
        error.message(),
        "input contains multiple products; select one explicitly:\n  --product hrnowc/intensity\n  --product hrnowc/precip"
    );
}

#[test]
fn requested_product_must_be_available() {
    let available = names(&["hrnowc/intensity", "hrnowc/precip"]);

    assert_eq!(
        resolve_product_selector(&available, Some("hrnowc/precip")).unwrap(),
        "hrnowc/precip"
    );
    let error = resolve_product_selector(&available, Some("hrnowc/echotops")).unwrap_err();
    assert!(error.message().contains("available choices:"));
    assert!(error.message().contains("--product hrnowc/intensity"));
    assert!(error.message().contains("--product hrnowc/precip"));
}

#[test]
fn empty_leaf_offset_points_after_tile_data() {
    let mut bytes = vec![0; 80];
    bytes[56..64].copy_from_slice(&100u64.to_le_bytes());
    bytes[64..72].copy_from_slice(&23u64.to_le_bytes());

    normalize_empty_leaf_offset(&mut bytes).unwrap();

    assert_eq!(u64::from_le_bytes(bytes[40..48].try_into().unwrap()), 123);

    // Once is enough.
    let once = bytes.clone();
    normalize_empty_leaf_offset(&mut bytes).unwrap();
    assert_eq!(bytes, once);
}

#[test]
fn a_header_with_leaves_is_left_alone() {
    let mut bytes = vec![0; 80];
    bytes[40..48].copy_from_slice(&7u64.to_le_bytes());
    bytes[48..56].copy_from_slice(&1u64.to_le_bytes());
    bytes[56..64].copy_from_slice(&100u64.to_le_bytes());
    let before = bytes.clone();

    normalize_empty_leaf_offset(&mut bytes).unwrap();

    assert_eq!(bytes, before);
}

#[test]
fn a_header_that_cannot_be_normalized_is_reported() {
    let mut short = vec![0; 40];
    assert_eq!(normalize_empty_leaf_offset(&mut short), Err(HeaderError::TooShort));

    let mut bytes = vec![0; 80];
    bytes[56..64].copy_from_slice(&u64::MAX.to_le_bytes());
    bytes[64..72].copy_from_slice(&1u64.to_le_bytes());
    let before = bytes.clone();
    assert_eq!(normalize_empty_leaf_offset(&mut bytes), Err(HeaderError::DataRange));
    assert_eq!(bytes, before);
}
