//! Grouping values into points and points into tiles.

use grib2pmtiles::grouping::{group_points, TilePoint};
use grib2pmtiles::model::{
    Aggregation, BandSpec, CompactOptI32, FixedSurface, GeneratingProcessType, GpvProductIdentifier,
    LngLatGrid, PointValue, PreparedProduct, ProductData,
};
use grib2pmtiles::prepare::{
    assign_tiles, prepare_product, product_grid, Footprint, TileSpan,
};

fn lat_to_web_mercator_y(lat: f64) -> f64 {
    let radians = lat.to_radians();
    0.5 - (radians.tan() + 1.0 / radians.cos()).ln() / std::f64::consts::TAU
}

fn base_z(grid: LngLatGrid) -> u8 {
    (f32::from_bits(grid.lat_denom) * 360.0 * 2.0 / 512.0).log2().ceil() as u8
}

/// The floating-point part of preparation: what a point covers.
fn footprint(point: &TilePoint, grid: LngLatGrid, base_z: u8) -> Footprint {
    let (lng_0, lat_0) = (f64::from_bits(grid.lng_0), f64::from_bits(grid.lat_0));
    let lng_denom = f64::from(f32::from_bits(grid.lng_denom));
    let lat_denom = f64::from(f32::from_bits(grid.lat_denom));
    let width = f64::from(1u32 << point.point_power);
    let (x, y) = (f64::from(point.x), f64::from(point.y));
    let west = lng_0 + (x - 0.5) / lng_denom;
    let east = lng_0 + (x + width - 0.5) / lng_denom;
    let north = lat_0 + (y + width - 0.5) / lat_denom;
    let south = lat_0 + (y - 0.5) / lat_denom;
    let (my1, my2) = (lat_to_web_mercator_y(north), lat_to_web_mercator_y(south));
    let tiles = f64::from(1u32 << base_z);
    let buffer = (2.0 / 256.0) / tiles;
    let (mx1, mx2) = ((west + 180.0) / 360.0, (east + 180.0) / 360.0);
    let span = TileSpan {
        x1: ((mx1 - buffer) * tiles).floor() as i32,
        x2: ((mx2 + buffer) * tiles).ceil() as i32 - 1,
        y1: ((my1 - buffer) * tiles).floor() as i32,
        y2: ((my2 + buffer) * tiles).ceil() as i32 - 1,
    };
    Footprint {
        west: west.to_bits(),
        east: east.to_bits(),
        south: south.to_bits(),
        north: north.to_bits(),
        tiles: (!my1.is_nan() && !my2.is_nan()).then_some(span),
    }
}

fn prepare(
    product_id: GpvProductIdentifier,
    data: ProductData,
    catalogue: LngLatGrid,
) -> PreparedProduct {
    let grid = product_grid(&data, catalogue);
    let base_z = base_z(grid);
    let points = group_points(&data.points);
    let footprints = points
        .iter()
        .map(|point| footprint(point, grid, base_z))
        .collect();
    prepare_product(product_id, data.band_specs, grid, base_z, &points, &footprints)
}

fn product_id(bands: &[&str], surface: FixedSurface) -> GpvProductIdentifier {
    GpvProductIdentifier {
        kind: 1,
        data_kind: "hrnowc".to_string(),
        value_kind: "intensity".to_string(),
        path: "hrnowc/intensity".to_string(),
        kind_path: "hrnowc/intensity".to_string(),
        bands: bands.iter().map(|band| band.to_string()).collect(),
        aggregation: Aggregation { number: 3 },
        datetime: 1_570_871_100,
        reference_datetime: 1_570_871_100,
        generating_process: GeneratingProcessType::Forecast,
        surface,
        ensemble: None,
        variant: None,
    }
}

fn band(name: &str) -> BandSpec {
    BandSpec {
        name: name.to_string(),
        reference_value: 0,
        binary_scale: 0,
        decimal_scale: 0,
        min: None,
        max: None,
    }
}

fn value(x: u16, y: u16, band_idx: u8, value: i32) -> PointValue {
    PointValue { x, y, point_id: 0, point_power: 0, band_idx, value }
}

fn grid(lng_0: f64, lat_0: f64, lng_denom: f32, lat_denom: f32) -> LngLatGrid {
    LngLatGrid {
        lng_0: lng_0.to_bits(),
        lat_0: lat_0.to_bits(),
        lng_denom: lng_denom.to_bits(),
        lat_denom: lat_denom.to_bits(),
    }
}

#[test]
fn prepared_tiles_keep_original_grid_coordinates() {
    let product_data = ProductData {
        points: vec![value(100, 200, 0, 42)],
        band_specs: vec![band("value")],
        grid: None,
    };

    let prepared = prepare(
        product_id(&["value"], FixedSurface::Unspecified),
        product_data,
        grid(118.0, 20.0, 320.0, 480.0),
    );
    let mut position_count = 0;
    for (_, tile) in &prepared.chunks {
        assert_eq!(tile.point_positions.len(), tile.point_powers.len());
        for position in &tile.point_positions {
            assert_eq!(*position, (100, 200));
            position_count += 1;
        }
    }

    assert!(position_count > 0);
}

#[test]
fn preparation_uses_the_grid_derived_from_the_message() {
    let derived = grid(120.0, 20.0, 40.0, 50.0);
    let product_data = ProductData {
        points: vec![value(0, 0, 0, 42)],
        band_specs: vec![band(""), band("")],
        grid: Some(derived),
    };

    let prepared = prepare(
        product_id(&["u", "v"], FixedSurface::IsobaricSurface(1000, 0)),
        product_data,
        grid(120.0, 20.0, 20.0, 25.0),
    );

    assert_eq!(prepared.spec.grid_spec, derived);
    assert_eq!(prepared.spec.aggregation, Aggregation { number: 3 });
    assert_eq!(prepared.spec.base_z, 7);
    assert_eq!(prepared.spec.quantize.len(), 2);
    let bounds = prepared.spec.bounds.map(f64::from_bits);
    assert_eq!(bounds[0], 120.0 - 0.5 / 40.0);
    assert_eq!(bounds[3], 20.0 + 0.5 / 50.0);
}

/// The values of one place become one point, whatever order they came in.
#[test]
fn values_of_one_place_share_a_point() {
    let groups = group_points(&vec![
        value(3, 1, 1, -7),
        value(0, 0, 0, 5),
        value(3, 1, 0, 6),
        value(0, 1, 0, 8),
    ]);
    let mut seen = groups
        .iter()
        .map(|point| (point.x, point.y, point.values[0].get(), point.values[1].get()))
        .collect::<Vec<_>>();
    assert_eq!(seen[0], (0, 0, Some(5), None));
    seen.sort();
    assert_eq!(
        seen,
        [
            (0, 0, Some(5), None),
            (0, 1, Some(8), None),
            (3, 1, Some(6), Some(-7)),
        ]
    );
}

/// Points come out along the curve: nearby places stay together.
#[test]
fn points_follow_the_curve() {
    let groups = group_points(&vec![
        value(1, 1, 0, 1),
        value(0, 1, 0, 2),
        value(1, 0, 0, 3),
        value(0, 0, 0, 4),
    ]);
    let numbers = groups
        .iter()
        .map(|point| fast_hilbert::xy2h(u32::from(point.x), u32::from(point.y), 16))
        .collect::<Vec<_>>();
    assert_eq!(numbers, [0, 1, 2, 3]);
}

fn tile_point(x: u16, y: u16) -> TilePoint {
    let mut values = [CompactOptI32::none(); 4];
    values[0] = CompactOptI32::new(Some(i32::from(x)));
    TilePoint { x, y, point_power: 0, values }
}

fn covering(x1: i32, x2: i32, y1: i32, y2: i32) -> Footprint {
    Footprint {
        west: 0,
        east: 0,
        south: 0,
        north: 0,
        tiles: Some(TileSpan { x1, x2, y1, y2 }),
    }
}

/// Tiles wrap around in longitude and stop at the poles.
#[test]
fn tiles_wrap_around_and_stop_at_the_poles() {
    let points = vec![tile_point(7, 0), tile_point(9, 0)];
    let footprints = vec![covering(-1, 0, -1, 0), covering(0, 0, 0, 0)];
    let chunks = assign_tiles(&points, &footprints, 1, 1);

    let ids = chunks.iter().map(|(id, _)| *id).collect::<Vec<_>>();
    let mut expected = vec![fast_hilbert::xy2h(0u32, 0, 1), fast_hilbert::xy2h(1u32, 0, 1)];
    expected.sort();
    assert_eq!(ids, expected);
    let positions = chunks
        .iter()
        .map(|(_, tile)| tile.point_positions.clone())
        .collect::<Vec<_>>();
    assert_eq!(positions, [vec![(7, 0), (9, 0)], vec![(7, 0)]]);
    assert_eq!(chunks[0].1.bands.len(), 1);
    assert_eq!(chunks[0].1.bands[0].values[1].get(), Some(9));
    assert_eq!(chunks[0].1.point_powers, [0, 0]);
}

#[test]
fn a_point_without_a_place_on_the_map_is_in_no_tile() {
    let mut lost = covering(0, 0, 0, 0);
    lost.tiles = None;
    assert!(assign_tiles(&vec![tile_point(1, 1)], &vec![lost], 2, 1).is_empty());
}
