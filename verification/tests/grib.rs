//! Reading the sections of messages.

use grib2pmtiles::bitmap::{bitmap_bytes, bitmap_flags, read_bitmap};
use grib2pmtiles::calendar::{instant, Civil};
use grib2pmtiles::grib::{
    cell_power, corner_shift, extremes, first_statistical_process, grid_corner, plan_grid,
    resolve_product_grid, valid_datetime, validate_grid_extent, ForecastOffset, GribError,
    GridCorner, GridDefinition, GridFault, GridPlan, LowerLeft, TimeInterval, TimeRange,
};
use grib2pmtiles::model::{
    Aggregation, Ensemble, FixedSurface, GeneratingProcessType, GpvProductIdentifier, LngLatGrid,
};
use grib2pmtiles::reader::{
    product_template, product_time, typhoon_product, typhoon_variant, GridSquareMessageReader,
    Packing, ProductTemplate,
};

const MICRODEGREES: f64 = 1_000_000.0;

fn grid_template(d_i: u32, d_j: u32) -> GridDefinition {
    GridDefinition {
        n_i: 0,
        n_j: 0,
        la1: 0,
        lo1: 0,
        resolution_and_component_flags: 0x30,
        la2: 0,
        lo2: 0,
        d_i,
        d_j,
        scanning_mode: 0,
    }
}

fn grid(lng_0: f64, lat_0: f64, lng_denom: f32, lat_denom: f32) -> LngLatGrid {
    LngLatGrid {
        lng_0: lng_0.to_bits(),
        lat_0: lat_0.to_bits(),
        lng_denom: lng_denom.to_bits(),
        lat_denom: lat_denom.to_bits(),
    }
}

/// The floating-point part of placing a grid on the base grid of its product.
fn grid_plan(template: &GridDefinition, base: LngLatGrid) -> GridPlan {
    let finer = |increment: u32, denominator: u32| {
        let cell = MICRODEGREES / f64::from(f32::from_bits(denominator));
        let denser = ((MICRODEGREES / f64::from(increment)) as f32).to_bits();
        (f64::from(increment) + 1.0 < cell).then_some(denser)
    };
    let finer_longitude = finer(template.d_i, base.lng_denom);
    let finer_latitude = finer(template.d_j, base.lat_denom);
    let lng_denom = f64::from(f32::from_bits(finer_longitude.unwrap_or(base.lng_denom)));
    let lat_denom = f64::from(f32::from_bits(finer_latitude.unwrap_or(base.lat_denom)));
    let lng_0 = f64::from_bits(base.lng_0);
    let lat_0 = f64::from_bits(base.lat_0);
    let longitude_width = f64::from(template.d_i) * lng_denom / MICRODEGREES;
    let latitude_width = f64::from(template.d_j) * lat_denom / MICRODEGREES;
    let rounded = longitude_width.round();
    let valid = rounded >= 1.0
        && rounded <= f64::from(i32::MAX)
        && (longitude_width - rounded).abs() < 0.01
        && (latitude_width - latitude_width.round()).abs() < 0.01
        && rounded == latitude_width.round();
    let longitude = (f64::from(template.lo1) + 1.0 - MICRODEGREES * lng_0) * lng_denom / MICRODEGREES;
    let latitude = (f64::from(template.la1) + 1.0 - MICRODEGREES * lat_0) * lat_denom / MICRODEGREES;
    GridPlan {
        configured: base,
        finer_longitude,
        finer_latitude,
        origin_lng: (lng_0 * MICRODEGREES) as i32,
        origin_lat: (lat_0 * MICRODEGREES) as i32,
        width: valid.then_some(rounded as u32),
        corner: (longitude >= 0.0 && latitude >= 0.0).then_some(LowerLeft {
            x: longitude as i64,
            y: latitude as i64,
        }),
    }
}

/// The base grid of the local forecast model.
fn lfm_grid() -> LngLatGrid {
    grid(120.0, 20.0, 20.0, 25.0)
}

fn product(data_kind: &str, value_kind: &str, kind: u32) -> GpvProductIdentifier {
    GpvProductIdentifier {
        kind,
        data_kind: data_kind.to_string(),
        value_kind: value_kind.to_string(),
        path: format!("{data_kind}/{value_kind}"),
        kind_path: format!("{data_kind}/{value_kind}"),
        bands: vec!["value".to_string()],
        aggregation: Aggregation { number: 0 },
        datetime: 0,
        reference_datetime: 0,
        generating_process: GeneratingProcessType::Forecast,
        surface: FixedSurface::Unspecified,
        ensemble: None,
        variant: None,
    }
}

fn message(fault: GridFault, template: &GridDefinition) -> String {
    GribError::Grid(fault).message("lfm/wind", template, "")
}

#[test]
fn read_bitmap_is_msb_first_and_truncates_partial_byte() {
    let bytes = [0b1010_0110, 0b1100_0000, 0xff];
    let needed = bitmap_bytes(10);

    let bitmap = read_bitmap(&bytes[..needed].to_vec(), 10);

    assert_eq!(needed, 2);
    assert_eq!(
        bitmap.iter().collect::<Vec<_>>(),
        vec![true, false, true, false, false, true, true, false, true, true]
    );
    assert_eq!(bitmap_flags(&bitmap), bitmap.iter().collect::<Vec<_>>());
}

#[test]
fn a_finer_lfm_grid_is_derived_from_its_grib_increments() {
    let template = grid_template(25_000, 20_000);
    let plan = grid_plan(&template, lfm_grid());

    let grid = resolve_product_grid(
        &template,
        None,
        lfm_grid(),
        plan.finer_longitude,
        plan.finer_latitude,
        false,
    )
    .unwrap();
    assert_eq!(f32::from_bits(grid.lng_denom), 40.0);
    assert_eq!(f32::from_bits(grid.lat_denom), 50.0);
    assert_eq!(plan.width, Some(1));
    assert_eq!(cell_power(1), Ok(0));
}

#[test]
fn a_corner_off_the_cell_boundary_is_snapped_and_reported() {
    // A 0.05 degree base grid, so a 0.1 degree product has width 2 and needs an
    // even corner.
    let base = grid(120.0, 20.0, 20.0, 20.0);
    let corner = |lo1, la1| {
        let mut template = grid_template(100_000, 100_000);
        template.lo1 = lo1;
        template.la1 = la1;
        grid_plan(&template, base).corner
    };
    let snapped = |place: Option<LowerLeft>, width| {
        let place = place.unwrap();
        grid_corner(place.x, place.y, width)
    };

    let even = corner(120_000_000 - 1, 20_000_000 - 1);
    assert_eq!(snapped(even, 2), GridCorner { x: 0, y: 0, snap: None });
    let further = corner(120_100_000 - 1, 20_100_000 - 1);
    assert_eq!(snapped(further, 2), GridCorner { x: 2, y: 2, snap: None });

    // 120.05 is one base cell in, which a width-2 grid cannot start on.
    let odd = corner(120_050_000 - 1, 20_000_000 - 1);
    assert_eq!(snapped(odd, 2), GridCorner { x: 0, y: 0, snap: Some((1, 0)) });
    // At width 1 the same corner is exactly where it says it is.
    assert_eq!(snapped(odd, 1), GridCorner { x: 1, y: 0, snap: None });

    // A corner before the origin is still refused outright.
    let mut template = grid_template(100_000, 100_000);
    template.lo1 = 119_000_000 - 1;
    template.la1 = 20_000_000 - 1;
    let plan = grid_plan(&template, base);
    let unbounded = GridPlan { origin_lng: i32::MIN, origin_lat: i32::MIN, ..plan };
    assert_eq!(
        plan_grid(&template, &unbounded, None, false, 0).unwrap_err(),
        GridFault::CornerPrecedesOrigin
    );
    assert_eq!(
        plan_grid(&template, &plan, None, false, 0).unwrap_err(),
        GridFault::ExtentPrecedesOrigin
    );
}

#[test]
fn a_non_dyadic_grid_reports_an_error_instead_of_reaching_ilog2() {
    let template = grid_template(150_000, 120_000);
    let plan = grid_plan(&template, lfm_grid());

    let error = cell_power(plan.width.unwrap()).unwrap_err();

    assert!(message(error, &template).contains("cell width 3 is not a power of two"));
}

fn interval(year: u16, month: u8, day: u8, hour: u8, minute: u8) -> TimeInterval {
    TimeInterval {
        end: Civil { year, month, day, hour, minute, second: 0 },
        time_ranges: vec![TimeRange { statistical_process: 1 }],
    }
}

fn forecast_template(forecast_time: i32, unit: u8) -> ForecastOffset {
    ForecastOffset { indicator_of_unit_of_time_range: unit, forecast_time }
}

fn utc(year: u16, month: u8, day: u8, hour: u8, minute: u8) -> i64 {
    instant(Civil { year, month, day, hour, minute, second: 0 }).unwrap()
}

#[test]
fn a_period_ends_the_field_but_an_instant_is_offset_from_the_reference() {
    let reference = utc(2019, 10, 12, 9, 0);

    let accumulation = interval(2019, 10, 12, 10, 0);
    assert_eq!(
        valid_datetime(reference, &forecast_template(0, 0), Some(&accumulation)).unwrap(),
        utc(2019, 10, 12, 10, 0)
    );
    assert_eq!(
        valid_datetime(
            reference,
            &forecast_template(300, 0),
            Some(&interval(2019, 10, 12, 15, 0))
        )
        .unwrap(),
        utc(2019, 10, 12, 15, 0)
    );

    assert_eq!(
        valid_datetime(reference, &forecast_template(30, 0), None).unwrap(),
        utc(2019, 10, 12, 9, 30)
    );
    assert_eq!(
        valid_datetime(reference, &forecast_template(6, 1), None).unwrap(),
        utc(2019, 10, 12, 15, 0)
    );
    assert_eq!(
        valid_datetime(reference, &forecast_template(2, 2), None).unwrap(),
        utc(2019, 10, 14, 9, 0)
    );
}

#[test]
fn an_unreadable_period_is_reported_rather_than_replaced() {
    let reference = utc(2019, 10, 12, 9, 0);
    let broken = interval(2019, 13, 40, 25, 0);

    let error = valid_datetime(reference, &forecast_template(0, 0), Some(&broken)).unwrap_err();
    assert!(error.is_invalid_data(), "expected invalid data, got {error:?}");
    assert_eq!(
        error.message("", &grid_template(1, 1), ""),
        "the statistical period ends at 2019-13-40 25:00:00, which is not a valid time"
    );
}

#[test]
fn an_unsupported_time_unit_is_reported_rather_than_panicking() {
    let reference = utc(2019, 10, 12, 9, 0);
    let error = valid_datetime(reference, &forecast_template(1, 13), None).unwrap_err();
    assert!(!error.is_invalid_data());
    assert_eq!(
        error.message("", &grid_template(1, 1), ""),
        "time range unit 13 is not supported"
    );
}

#[test]
fn a_statistical_product_without_a_time_range_is_reported() {
    let mut empty = interval(2019, 10, 12, 10, 0);
    empty.time_ranges.clear();
    assert!(first_statistical_process(&empty).is_err());
    assert_eq!(
        first_statistical_process(&interval(2019, 10, 12, 10, 0)).unwrap(),
        1
    );
}

#[test]
fn zero_grid_increments_report_an_explicit_error() {
    let template = grid_template(0, 20_000);

    let error = resolve_product_grid(&template, None, lfm_grid(), None, None, false).unwrap_err();

    assert!(message(error, &template).contains("grid increments must be positive"));
}

#[test]
fn zero_point_counts_report_an_explicit_error() {
    let mut template = grid_template(20_000, 20_000);
    template.n_j = 1;

    let error = validate_grid_extent(&template, 0, 0, 1).unwrap_err();

    assert!(message(error, &template).contains("longitude point count is zero"));
}

#[test]
fn an_extent_outside_the_point_coordinate_range_is_refused() {
    let mut template = grid_template(20_000, 20_000);
    template.n_i = 2;
    template.n_j = 1;

    let error = validate_grid_extent(&template, u32::from(u16::MAX), 0, 1).unwrap_err();

    assert_eq!(
        message(error, &template),
        "unsupported grid for lfm/wind (d_i=20000, d_j=20000 microdegrees): its base-grid extent \
         (65535, 0)..(65536, 0) exceeds the u16 coordinate range"
    );
}

#[test]
fn a_southward_extent_cannot_underflow_the_grid_origin() {
    let mut template = grid_template(20_000, 20_000);
    template.n_i = 1;
    template.n_j = 2;

    let error = validate_grid_extent(&template, 0, 0, 1).unwrap_err();

    assert!(message(error, &template).contains("latitude extent precedes the configured origin"));
}

#[test]
fn retained_product_matches_exact_selector_parts() {
    let reader = GridSquareMessageReader::retaining_product(Some("hrnowc/intensity"));

    assert!(reader.retains_values_for(&product("hrnowc", "intensity", 1)));
    assert!(!reader.retains_values_for(&product("hrnowc", "intensity-error", 2)));
}

#[test]
fn no_retained_product_filter_keeps_every_product() {
    let reader = GridSquareMessageReader::retaining_product(None);

    assert!(reader.retains_values_for(&product("hrnowc", "intensity-error", 2)));
}

/// Every way in which the extent of a grid can be wrong.
#[test]
fn the_faults_of_an_extent_are_told_apart() {
    let extent = |n_i, n_j, scanning_mode, x_first, y_first, width| {
        let mut template = grid_template(1, 1);
        template.n_i = n_i;
        template.n_j = n_j;
        template.scanning_mode = scanning_mode;
        validate_grid_extent(&template, x_first, y_first, width)
    };
    assert_eq!(extent(2, 2, 64, 0, 0, 2), Ok(()));
    assert_eq!(extent(2, 0, 64, 0, 0, 2), Err(GridFault::LatitudeCountZero));
    assert_eq!(extent(u32::MAX, 1, 64, 0, 0, 2), Err(GridFault::LongitudeOverflow));
    assert_eq!(extent(1, u32::MAX, 64, 0, 0, 2), Err(GridFault::LatitudeOverflow));
    assert_eq!(extent(2, 1, 64, u32::MAX, 0, 1), Err(GridFault::LongitudeOverflow));
    assert_eq!(extent(1, 2, 64, 0, u32::MAX, 1), Err(GridFault::LatitudeOverflow));
    assert_eq!(extent(1, 1, 32, 0, 0, 1), Err(GridFault::ScanningMode(32)));
    assert_eq!(extent(1, 3, 0, 0, 4, 2), Ok(()));
}

#[test]
fn a_finer_grid_after_values_is_refused() {
    let template = grid_template(25_000, 20_000);
    let own = grid(100.0, 10.0, 20.0, 25.0);
    let denser = 40.0f32.to_bits();
    let resolve = |lng: Option<u32>, lat: Option<u32>, has_points: bool| {
        resolve_product_grid(&template, Some(own), lfm_grid(), lng, lat, has_points)
    };
    assert_eq!(resolve(Some(denser), None, true), Err(GridFault::FinerAfterValues));
    assert_eq!(resolve(None, Some(denser), true), Err(GridFault::FinerAfterValues));
    // What the product has comes before what is configured for it.
    assert_eq!(resolve(None, None, true), Ok(own));
    assert_eq!(resolve(None, Some(denser), false), Ok(grid(100.0, 10.0, 20.0, 40.0)));
}

#[test]
fn a_plan_is_refused_in_the_order_of_its_faults() {
    let mut template = grid_template(100_000, 100_000);
    template.n_i = 2;
    template.n_j = 2;
    template.lo1 = 120_000_000;
    template.lo2 = 120_100_000;
    template.la1 = 20_200_000;
    template.la2 = 20_100_000;
    let base = grid(120.0, 20.0, 20.0, 20.0);
    let plan = grid_plan(&template, base);

    let (laid, placement, snap) = plan_grid(&template, &plan, None, false, 1).unwrap();
    assert_eq!(laid, base);
    assert_eq!((placement.x_first, placement.y_first), (0, 4));
    assert_eq!((placement.width, placement.power, placement.band), (2, 1, 1));
    assert_eq!(snap, None);

    let mut south = template;
    south.la2 = 19_000_000;
    let outside = grid_plan(&south, base);
    assert_eq!(
        plan_grid(&south, &outside, None, false, 0).unwrap_err(),
        GridFault::ExtentPrecedesOrigin
    );
    let mut uneven = plan;
    uneven.width = None;
    assert_eq!(
        plan_grid(&template, &uneven, None, false, 0).unwrap_err(),
        GridFault::UnequalWidths
    );
    let mut before = plan;
    before.corner = None;
    assert_eq!(
        plan_grid(&template, &before, None, false, 0).unwrap_err(),
        GridFault::CornerPrecedesOrigin
    );
}

/// A message is read section by section, and its values become points.
#[test]
fn a_message_becomes_points() {
    let mut reader = GridSquareMessageReader::retaining_product(None);
    let reference = Civil { year: 2019, month: 10, day: 12, hour: 9, minute: 0, second: 0 };
    reader.handle_identification(0, reference);
    assert_eq!(reader.reference_datetime(), utc(2019, 10, 12, 9, 0));

    let mut template = grid_template(100_000, 100_000);
    template.n_i = 2;
    template.n_j = 2;
    template.lo1 = 120_000_000;
    template.lo2 = 120_100_000;
    template.la1 = 20_200_000;
    template.la2 = 20_100_000;
    assert!(GridSquareMessageReader::check_grid_template(0).is_ok());
    assert_eq!(
        GridSquareMessageReader::check_grid_template(30),
        Err(GribError::GridTemplate(30))
    );
    let mut flagged = template;
    flagged.resolution_and_component_flags = 0x08;
    let error = reader.handle_grid_definition(flagged).unwrap_err();
    assert_eq!(
        error.message("", &flagged, ""),
        "grid resolution/component flags 0x08 are not supported"
    );
    reader.handle_grid_definition(template).unwrap();

    reader.handle_product_definition(product("hrnowc", "intensity", 1), 0);
    reader.handle_data_representation(Packing::Scaled {
        reference_value: 1.5f32.to_bits(),
        binary_scale_factor: 1,
        decimal_scale_factor: 2,
    });
    assert_eq!(reader.bitmap_points(0), Some(4));
    reader.handle_bitmap(0, &vec![0b1011_0000]);

    let plan = grid_plan(&template, grid(120.0, 20.0, 20.0, 20.0));
    reader.handle_data(vec![7, i32::MIN, 9], &plan).unwrap();

    let data = &reader.products[0].data;
    let points = data
        .points
        .iter()
        .map(|p| (p.x, p.y, p.point_power, p.band_idx, p.value))
        .collect::<Vec<_>>();
    // The second cell has no bit and the third no value; rows run southwards.
    assert_eq!(points, vec![(0, 4, 1, 0, 7), (2, 2, 1, 0, 9)]);
    assert_eq!(data.band_specs[0].reference_value, 1.5f32.to_bits());
    assert_eq!((data.band_specs[0].min, data.band_specs[0].max), (Some(7), Some(9)));
    let laid = grid(120.0, 20.0, 20.0, 20.0);
    assert_eq!(data.grid, Some(laid));
    assert_eq!(reader.latest_reference_times.len(), 1);

    // Fewer values than the bitmap asks for.
    let error = reader.handle_data(vec![7], &plan).unwrap_err();
    assert_eq!(error, GribError::FewerValuesThanBitmap);
    // No bitmap, and fewer values than the grid has points.
    reader.handle_bitmap(255, &vec![]);
    let error = reader.handle_data(vec![7], &plan).unwrap_err();
    assert_eq!(error, GribError::FewerValuesThanGrid);
    assert_eq!(
        error.message("hrnowc/intensity", &template, ""),
        "data for hrnowc/intensity has fewer values than its 2x2 grid"
    );
    // Neither another configuration nor a finer message changes the grid.
    let elsewhere = GridPlan { configured: lfm_grid(), ..plan };
    reader.handle_data(vec![1, 2, 3, 4], &elsewhere).unwrap();
    assert_eq!(reader.products[0].data.grid, Some(laid));
    let finer = GridPlan { finer_longitude: Some(40.0f32.to_bits()), ..plan };
    assert_eq!(
        reader.handle_data(vec![1, 2, 3, 4], &finer),
        Err(GribError::Grid(GridFault::FinerAfterValues))
    );
    assert_eq!(reader.products[0].data.grid, Some(laid));
}

#[test]
fn an_excluded_product_keeps_its_entry_and_no_points() {
    let mut reader = GridSquareMessageReader::retaining_product(Some("hrnowc/precip"));
    let mut template = grid_template(100_000, 100_000);
    template.n_i = 1;
    template.n_j = 1;
    reader.handle_grid_definition(template).unwrap();
    reader.handle_product_definition(product("hrnowc", "intensity", 1), 0);
    let plan = grid_plan(&template, grid(0.0, 0.0, 10.0, 10.0));

    assert_eq!(reader.handle_data(vec![7], &plan), Ok(None));

    assert_eq!(reader.products.len(), 1);
    assert!(reader.products[0].data.points.is_empty());
}

#[test]
fn the_latest_reference_time_of_a_kind_is_kept() {
    let mut reader = GridSquareMessageReader::retaining_product(None);
    for reference_datetime in [100, 300, 200] {
        let mut id = product("msm", "wind", 5);
        id.reference_datetime = reference_datetime;
        reader.handle_product_definition(id, 0);
    }
    assert_eq!(reader.products.len(), 3);
    assert_eq!(reader.latest_reference_times, vec![("msm/wind".to_string(), 300)]);
}

#[test]
fn templates_are_told_apart_by_their_numbers() {
    assert!(matches!(product_template(0), Some(ProductTemplate::Instant)));
    assert!(matches!(product_template(11), Some(ProductTemplate::EnsembleStatistical)));
    assert!(matches!(product_template(50012), Some(ProductTemplate::Statistical)));
    assert!(matches!(product_template(50031), Some(ProductTemplate::TyphoonStorm)));
    assert!(product_template(2).is_none());
    let statistical = [8, 11, 50008, 50009, 50011, 50012];
    for number in [0, 1, 8, 11, 50000, 50008, 50009, 50011, 50012, 50031] {
        let template = product_template(number).unwrap();
        assert_eq!(template.is_statistical(), statistical.contains(&number));
        assert_eq!(template.is_ensemble(), number == 1 || number == 11);
    }
    assert_eq!(typhoon_variant(19), "TC19");
    assert_eq!(
        product_time(0, &forecast_template(1, 1), Some(&interval(1970, 1, 1, 3, 0))),
        Ok((3 * 3600, Some(1)))
    );
    assert_eq!(product_time(0, &forecast_template(1, 1), None), Ok((3600, None)));
}

/// A cyclone is told by its number; what its template does not say is fixed.
#[test]
fn a_typhoon_is_a_forecast_of_its_own() {
    let mut id = product("typhoon", "storm", 9);
    id.generating_process = GeneratingProcessType::Analysis;
    id.surface = FixedSurface::IsobaricSurface(500, 0);
    id.ensemble = Some(Ensemble { perturbation_number: 1, ensemble_type: 2 });
    id.reference_datetime = 100;
    id.datetime = 3700;
    let (typhoon, band) = typhoon_product(id, 19);

    assert_eq!(band, 0);
    assert_eq!(typhoon.generating_process, GeneratingProcessType::Forecast);
    assert_eq!(typhoon.surface, FixedSurface::Unspecified);
    assert!(typhoon.ensemble.is_none());
    assert_eq!(typhoon.variant.as_deref(), Some("TC19"));
    assert_eq!((typhoon.kind, typhoon.reference_datetime, typhoon.datetime), (9, 100, 3700));
    assert_eq!(typhoon.path, "typhoon/storm");
}

/// A corner is moved, and that is told, before the extent of the grid is looked at.
#[test]
fn a_corner_is_moved_before_the_extent_is_looked_at() {
    let base = grid(120.0, 20.0, 20.0, 20.0);
    let mut template = grid_template(100_000, 100_000);
    template.lo1 = 120_050_000;
    template.la1 = 20_000_000;
    template.lo2 = 120_150_000;
    template.la2 = 20_100_000;
    let plan = grid_plan(&template, base);
    assert_eq!(
        plan_grid(&template, &plan, None, false, 0).unwrap_err(),
        GridFault::LongitudeCountZero
    );
    assert_eq!(corner_shift(&template, &plan, None, false), Some((1, 0)));

    let mut reader = GridSquareMessageReader::retaining_product(None);
    reader.handle_grid_definition(template).unwrap();
    reader.handle_product_definition(product("msm", "wind", 5), 0);
    assert_eq!(reader.corner_shift(&plan), Some((1, 0)));
    assert!(reader.handle_data(vec![1], &plan).is_err());

    template.lo1 = 119_000_000 - 1;
    let before = grid_plan(&template, base);
    assert_eq!(corner_shift(&template, &before, None, false), None);
}

#[test]
fn extremes_skip_missing_values() {
    assert_eq!(extremes(None, None, &vec![i32::MIN]), (None, None));
    assert_eq!(extremes(None, None, &vec![3, i32::MIN, -2]), (Some(-2), Some(3)));
    assert_eq!(extremes(Some(-5), Some(1), &vec![3, -2]), (Some(-5), Some(3)));
}
