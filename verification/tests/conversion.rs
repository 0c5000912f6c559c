//! Planning a conversion, walking the pyramid, and the bytes of tiles.

use std::io::Read;

use grib2pmtiles::conversion::{
    ensure_compatible_products, join_layers, opening_zoom, outer_bounds, plan_conversion,
    tile_bytes, PlanError, TileOutput, TileStorage,
};
use grib2pmtiles::double;
use grib2pmtiles::geo::{LngLat, LngLatBox};
use grib2pmtiles::model::{
    Aggregation, FixedSurface, GeneratingProcessType, GpvProductIdentifier, LngLatGrid, PreparedProduct,
    Quantization, TilesetSpec,
};
use grib2pmtiles::options::ConvertOptions;
use grib2pmtiles::pyramid::{order_tiles, EncodedTile, Pyramid, Zxy};
use grib2pmtiles::quantization::{apply_quantization, wants_quantization, BandRules};
use grib2pmtiles::raster::{ColorEncoding, RequestError};

fn product(minutes: i64, bands: &[&str]) -> PreparedProduct {
    let reference: i64 = 1_570_871_100;
    PreparedProduct {
        product_id: GpvProductIdentifier {
            kind: 1,
            data_kind: "msm".to_string(),
            value_kind: "wind".to_string(),
            path: format!("msm/wind/{minutes}"),
            kind_path: "msm/wind".to_string(),
            bands: bands.iter().map(|name| name.to_string()).collect(),
            aggregation: Aggregation { number: 0 },
            datetime: reference + 60 * minutes,
            reference_datetime: reference,
            generating_process: GeneratingProcessType::Forecast,
            surface: FixedSurface::Surface,
            ensemble: None,
            variant: None,
        },
        spec: TilesetSpec {
            name: format!("msm/wind/{minutes}"),
            base_z: 4,
            grid_spec: LngLatGrid {
                lng_0: 120f64.to_bits(),
                lat_0: 20f64.to_bits(),
                lng_denom: 16f32.to_bits(),
                lat_denom: 20f32.to_bits(),
            },
            aggregation: Aggregation { number: 0 },
            band_specs: bands
                .iter()
                .map(|name| grib2pmtiles::model::BandSpec {
                    name: name.to_string(),
                    reference_value: 0,
                    binary_scale: 0,
                    decimal_scale: 0,
                    min: None,
                    max: None,
                })
                .collect(),
            quantize: Vec::new(),
            omit_zero: Vec::new(),
            omit_class: Vec::new(),
            bounds: [120f64, 22.0, 150.0, 48.0].map(f64::to_bits),
        },
        chunks: Vec::new(),
    }
}

#[test]
fn vector_layers_share_an_archive() {
    let products = vec![product(0, &["u", "v"]), product(60, &["u", "v"])];
    let plan = plan_conversion(
        &ConvertOptions::default(),
        &products,
        &vec![4, 6],
        &vec![],
        Some("out.pmtiles"),
    )
    .unwrap();
    assert_eq!(plan.output, TileOutput::Mvt);
    assert_eq!(plan.output.storage(), TileStorage::GzippedMvt);
    assert_eq!(plan.max_zoom, 6);
    assert_eq!(plan.archives.len(), 1);
    let archive = &plan.archives[0];
    assert_eq!((archive.first, archive.count, archive.sequence), (0, 2, None));
    assert!(archive.path.is_none());
}

#[test]
fn raster_times_get_archives_of_their_own() {
    let products = vec![product(0, &["u", "v"]), product(60, &["u", "v"])];
    let options = ConvertOptions {
        raster: Some("vector-field:50".to_string()),
        layer_seq_start: 2,
        max_zoom: Some(3),
        ..Default::default()
    };
    let plan = plan_conversion(
        &options,
        &products,
        &vec![4, 6],
        &vec![Some(50f64.to_bits())],
        Some("w_{seq}"),
    )
    .unwrap();
    assert_eq!(
        plan.output,
        TileOutput::Raster(ColorEncoding::VectorField { component_limit: 50f64.to_bits() })
    );
    assert_eq!(plan.output.storage(), TileStorage::PlainPng);
    assert_eq!(plan.max_zoom, 3);
    let archives = plan
        .archives
        .iter()
        .map(|a| (a.path.as_deref(), a.first, a.count, a.sequence))
        .collect::<Vec<_>>();
    assert_eq!(
        archives,
        [(Some("w_2"), 0, 1, Some(2)), (Some("w_3"), 1, 1, Some(3))]
    );
}

#[test]
fn a_conversion_that_cannot_be_planned_is_refused() {
    let products = vec![product(0, &["u", "v"])];
    let options = ConvertOptions { min_zoom: 7, max_zoom: Some(3), ..Default::default() };
    let error =
        plan_conversion(&options, &products, &vec![4], &vec![], Some("o")).unwrap_err();
    assert!(matches!(error, PlanError::Zooms { min_zoom: 7, max_zoom: 3 }));

    let options = ConvertOptions { raster: Some("scalar16:0,1".to_string()), ..Default::default() };
    let numbers = vec![Some(0f64.to_bits()), Some(1f64.to_bits())];
    let error =
        plan_conversion(&options, &products, &vec![4], &numbers, Some("o")).unwrap_err();
    assert!(matches!(error, PlanError::Request(RequestError::Bands { .. })));

    let products = vec![product(0, &["value"]), product(60, &["value"])];
    let error =
        plan_conversion(&options, &products, &vec![4], &numbers, Some("o")).unwrap_err();
    assert!(matches!(error, PlanError::Paths(_)));
}

#[test]
fn products_of_one_archive_share_a_grid() {
    let mut products = vec![product(0, &["value"]), product(60, &["value"])];
    assert!(ensure_compatible_products(&products).is_ok());

    products[1].spec.grid_spec.lng_denom = 17f32.to_bits();
    let error = ensure_compatible_products(&products).unwrap_err();
    assert_eq!(
        (error.first.as_str(), error.other.as_str()),
        ("msm/wind/0", "msm/wind/60")
    );
}

#[test]
fn bounds_hold_every_product() {
    let mut products = vec![product(0, &["value"]), product(60, &["value"])];
    products[1].spec.bounds = [100f64, 30.0, 140.0, 95.0].map(f64::to_bits);
    assert_eq!(
        outer_bounds(&products).map(f64::from_bits),
        [100.0, 22.0, 150.0, 90.0]
    );
}

#[test]
fn an_archive_opens_within_its_zooms() {
    assert_eq!(opening_zoom(3, 4, 8), 4);
    assert_eq!(opening_zoom(5, 4, 8), 5);
    assert_eq!(opening_zoom(9, 4, 8), 8);
}

/// Tiles below an empty one are never asked for, and those above the lowest
/// zoom are walked through.
#[test]
fn the_pyramid_walks_where_there_is_data() {
    let holds = |tile: Zxy| tile.x == 0 || (tile.z == 1 && tile.y == 0);
    let mut pyramid = Pyramid::new(1, 2);
    let mut asked = Vec::new();
    let mut emitted = Vec::new();
    while let Some(tile) = pyramid.next() {
        asked.push((tile.z, tile.x, tile.y));
        if pyramid.answer(holds(tile)) {
            emitted.push((tile.z, tile.x, tile.y));
        }
    }
    emitted.sort();
    assert_eq!(
        emitted,
        [(1, 0, 0), (1, 0, 1), (1, 1, 0), (2, 0, 0), (2, 0, 1), (2, 0, 2), (2, 0, 3)]
    );
    assert!(asked.contains(&(1, 1, 1)) && !asked.contains(&(2, 2, 2)));
    asked.sort();
    asked.dedup();
    assert_eq!(asked.len(), 1 + 4 + 12);
}

fn zxy(z: u8, x: u32, y: u32) -> Zxy {
    Zxy { z, x, y }
}

#[test]
fn tiles_are_written_in_one_order() {
    let tile = |place: Zxy| EncodedTile { zxy: place, bytes: vec![place.z] };
    let places = [zxy(2, 1, 3), zxy(0, 0, 0), zxy(2, 1, 0), zxy(1, 1, 1), zxy(1, 0, 1)];
    let forwards = order_tiles(places.iter().map(|p| tile(*p)).collect());
    let backwards = order_tiles(places.iter().rev().map(|p| tile(*p)).collect());
    let written = |tiles: &[EncodedTile]| {
        tiles.iter().map(|t| (t.zxy, t.bytes.clone())).collect::<Vec<_>>()
    };
    assert_eq!(written(&forwards), written(&backwards));
    assert_eq!(forwards[0].zxy, zxy(0, 0, 0));
    assert!(forwards.windows(2).all(|pair| pair[0].zxy.z <= pair[1].zxy.z));
    assert!(forwards.iter().all(|tile| tile.bytes == [tile.zxy.z]));
}

#[test]
fn vector_tiles_are_stored_gzipped() {
    let layers = vec![b"first ".to_vec(), b"second".to_vec()];
    assert_eq!(join_layers(&layers), b"first second");
    let stored = tile_bytes(TileOutput::Mvt, &layers).unwrap().unwrap();
    let mut read = Vec::new();
    flate2::read::GzDecoder::new(&stored[..])
        .read_to_end(&mut read)
        .unwrap();
    assert_eq!(read, b"first second");
    assert!(tile_bytes(TileOutput::Mvt, &vec![]).unwrap().is_none());

    let raster = TileOutput::Raster(ColorEncoding::Scalar16 { min: 0, max: 0 });
    assert_eq!(
        tile_bytes(raster, &layers).unwrap().unwrap(),
        b"first ".to_vec()
    );
}

#[test]
fn doubles_compare_by_their_bits_as_by_their_values() {
    let values = [
        f64::NEG_INFINITY,
        f64::MIN,
        -1.5,
        -f64::MIN_POSITIVE,
        -0.0,
        0.0,
        5e-324,
        1.0,
        f64::MAX,
        f64::INFINITY,
        f64::NAN,
    ];
    for a in values {
        assert_eq!(double::nan(a.to_bits()), a.is_nan());
        assert_eq!(double::finite(a.to_bits()), a.is_finite());
        assert_eq!(double::absolute(a.to_bits()), a.abs().to_bits());
        for b in values {
            assert_eq!(double::less(a.to_bits(), b.to_bits()), a < b, "{a} {b}");
            assert_eq!(double::equal(a.to_bits(), b.to_bits()), a == b, "{a} {b}");
        }
    }
    assert_eq!(f64::from_bits(double::min(1f64.to_bits(), f64::NAN.to_bits())), 1.0);
    assert_eq!(f64::from_bits(double::max((-1f64).to_bits(), 2f64.to_bits())), 2.0);
}

#[test]
fn boxes_meet_where_they_share_a_point() {
    let place = |lng: f64, lat: f64| LngLat::new(lng.to_bits(), lat.to_bits());
    let area = LngLatBox::new(place(10.0, -5.0), place(-20.0, 5.0));
    assert_eq!(area.min, place(-20.0, -5.0));
    assert_eq!(area.max, place(10.0, 5.0));

    let touching = LngLatBox::new(place(10.0, 5.0), place(11.0, 6.0));
    assert!(area.intersects_box(&touching) && touching.intersects_box(&area));
    let apart = LngLatBox::new(place(10.5, 0.0), place(11.0, 1.0));
    assert!(!area.intersects_box(&apart) && !apart.intersects_box(&area));
}

#[test]
fn rules_reach_the_product_they_belong_to() {
    let rules = |bound: f64| BandRules {
        quantize: vec![Some(Quantization {
            bounds: vec![bound.to_bits()],
            outputs: vec![bound.to_bits()],
        })],
        omit_zero: vec![None],
        omit_class: vec![Some(vec![bound.to_bits()])],
    };
    let mut products = vec![product(0, &["value"]), product(60, &["value"])];
    let plain = ConvertOptions::default();
    assert!(!wants_quantization(&plain));
    apply_quantization(&mut products, &plain, vec![]);
    assert!(products[0].spec.quantize.is_empty());

    let options = ConvertOptions { omit_zero: true, ..Default::default() };
    assert!(wants_quantization(&options));
    apply_quantization(&mut products, &options, vec![rules(1.0), rules(2.0)]);
    for (product, bound) in products.iter().zip([1.0, 2.0f64]) {
        let quantize = product.spec.quantize[0].as_ref().unwrap();
        assert_eq!(quantize.bounds, [bound.to_bits()]);
        assert_eq!(product.spec.omit_class[0], Some(vec![bound.to_bits()]));
        assert!(product.spec.omit_zero[0].is_none());
    }
    assert_eq!(products[1].spec.name, "msm/wind/60");

    // Converted alone, a product gets the same.
    let mut alone = vec![product(60, &["value"])];
    apply_quantization(&mut alone, &options, vec![rules(2.0)]);
    let classes = |product: &PreparedProduct| {
        let quantize = product.spec.quantize[0].as_ref().unwrap();
        (quantize.bounds.clone(), quantize.outputs.clone())
    };
    assert_eq!(classes(&alone[0]), classes(&products[1]));
    assert_eq!(alone[0].spec.omit_zero, products[1].spec.omit_zero);
    assert_eq!(alone[0].spec.omit_class, products[1].spec.omit_class);
}
