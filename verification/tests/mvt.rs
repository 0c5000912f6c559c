//! Vector layers: grouping cells, feature ids and what is encoded.

use fast_mvt::{MvtGeometry, MvtReaderRef, MvtValue};
use grib2pmtiles::cells::{
    layer_features, make_rectangles_grouped_by_value, unique_feature_id, Feature, ProjectedCell,
};
use grib2pmtiles::geometry::{signed_area, Coord};
use grib2pmtiles::model::CompactOptI32;
use grib2pmtiles::mvt::{
    render_measured_layer, render_mvt_layer, LayerError, TaggedFeature,
};
use grib2pmtiles::rect_union::IntRect;

fn value(value: i32) -> CompactOptI32 {
    CompactOptI32::new(Some(value))
}

#[test]
fn a_negative_band_does_not_swallow_the_one_beside_it() {
    let left = unique_feature_id(&[value(-1), value(7)]);
    let right = unique_feature_id(&[value(-1), value(9)]);

    assert_ne!(left, right, "the second band has to reach the id");
    assert_eq!(left, Some(0xFFFF_FFFF_0000_0007));
}

#[test]
fn distinct_value_pairs_get_distinct_ids() {
    let pairs = [
        [value(0), value(0)],
        [value(0), value(1)],
        [value(1), value(0)],
        [value(-1), value(0)],
        [value(0), value(-1)],
        // i32::MIN is reserved for "missing", so the extremes a band can
        // actually carry are one in from it.
        [value(i32::MIN + 1), value(i32::MAX)],
        [value(i32::MAX), value(i32::MIN + 1)],
    ];
    let ids = pairs
        .iter()
        .map(|pair| unique_feature_id(pair))
        .collect::<Vec<_>>();

    for (index, id) in ids.iter().enumerate() {
        assert!(id.is_some());
        assert!(
            !ids[index + 1..].contains(id),
            "{:?} shares an id with a later pair",
            pairs[index]
        );
    }
}

#[test]
fn more_bands_than_fit_get_no_id() {
    assert_eq!(unique_feature_id(&[value(1), value(2), value(3)]), None);
    assert_eq!(
        unique_feature_id(&[value(1), value(2), value(3), value(4)]),
        None
    );
}

#[test]
fn a_missing_band_leaves_the_feature_without_an_id() {
    assert_eq!(unique_feature_id(&[CompactOptI32::none()]), None);
    assert_eq!(unique_feature_id(&[value(1), CompactOptI32::none()]), None);
}

fn cell(first: i32, x1: i32, y1: i32, x2: i32, y2: i32) -> ProjectedCell {
    let mut values = [CompactOptI32::none(); 4];
    values[0] = value(first);
    ProjectedCell { values, x1, x2, y1, y2, wrapped: None }
}

/// Cells are cut at the margin, and those without an area are left out.
#[test]
fn cells_are_grouped_by_their_values() {
    let mut wrapped = cell(5, 0, 0, 4, 4);
    wrapped.wrapped = Some((4090, 9999));
    let cells = vec![
        cell(5, -999, 8, 4, 9),
        wrapped,
        cell(3, 10, 10, 12, 12),
        cell(9, 10, 10, 10, 12),
        cell(9, 10, 12, 12, 10),
    ];
    let mut groups = make_rectangles_grouped_by_value(&cells, 4096);
    groups.sort_by_key(|group| group.values[0].get());

    let seen = groups
        .into_iter()
        .map(|mut group| {
            group.rectangles.sort_by_key(|r| (r.y1, r.x1));
            (group.values[0].get(), group.rectangles)
        })
        .collect::<Vec<_>>();
    assert_eq!(
        seen,
        [
            (Some(3), vec![IntRect::new(10, 10, 12, 12)]),
            (
                Some(5),
                vec![
                    IntRect::new(0, 0, 4, 4),
                    IntRect::new(4090, 0, 4128, 4),
                    IntRect::new(-32, 8, 4, 9),
                ]
            ),
        ]
    );
}

/// Features come in the order of their values, whatever order the cells had.
#[test]
fn features_are_ordered_by_their_values() {
    let cells = vec![
        cell(7, 0, 0, 2, 2),
        cell(-4, 4, 4, 6, 6),
        cell(7, 2, 0, 4, 2),
    ];
    let features = layer_features(&cells, 4096, 1).unwrap();
    let mut turned = cells.clone();
    turned.reverse();
    let again = layer_features(&turned, 4096, 1).unwrap();

    for features in [&features, &again] {
        assert_eq!(
            features.iter().map(|f| f.values[0].get()).collect::<Vec<_>>(),
            [Some(-4), Some(7)]
        );
        assert_eq!(
            features.iter().map(|f| f.id).collect::<Vec<_>>(),
            [Some(0xFFFF_FFFC), Some(7)]
        );
        assert_eq!(features[1].polygons.len(), 1);
        assert_eq!(signed_area(features[1].polygons[0].exterior()), 2 * 4 * 2);
    }
    assert!(layer_features(&vec![], 4096, 1).unwrap().is_empty());
}

/// Cells in another order, and cut up otherwise, give the same bytes.
#[test]
fn a_layer_is_a_function_of_what_its_cells_fill() {
    let layer = |cells: &Vec<ProjectedCell>| {
        let features = layer_features(cells, 4096, 1)
            .unwrap()
            .into_iter()
            .map(|feature| {
                let raw = feature.values[0].get().unwrap();
                tagged(feature, MvtValue::auto_int(raw))
            })
            .collect::<Vec<_>>();
        render_mvt_layer("wind_0", 4096, &features, &bands()).unwrap().unwrap()
    };
    let whole = vec![cell(7, 0, 0, 4, 4), cell(-4, 4, 4, 6, 6), cell(7, 4, 0, 6, 2)];
    let cut = vec![
        cell(7, 2, 0, 6, 2),
        cell(-4, 4, 4, 6, 6),
        cell(7, 0, 2, 4, 4),
        cell(7, 0, 0, 2, 2),
    ];
    assert_eq!(layer(&whole), layer(&cut));
}

fn tagged(feature: Feature, tag: MvtValue) -> TaggedFeature {
    TaggedFeature { feature, tags: vec![Some(tag), None] }
}

fn bands() -> Vec<String> {
    vec!["speed".to_string(), "error".to_string()]
}

#[test]
fn a_layer_can_be_read_back() {
    let cells = vec![cell(7, 0, 0, 2, 2), cell(-4, 4, 4, 6, 8)];
    let features = layer_features(&cells, 4096, 1)
        .unwrap()
        .into_iter()
        .map(|feature| {
            let raw = feature.values[0].get().unwrap();
            tagged(feature, MvtValue::auto_int(raw))
        })
        .collect::<Vec<_>>();

    let bytes = render_mvt_layer("wind_0", 4096, &features, &bands()).unwrap().unwrap();

    let reader = MvtReaderRef::new(&bytes).unwrap();
    assert_eq!(reader.layer_count(), 1);
    let layer = reader.layers().next().unwrap();
    assert_eq!((layer.name(), layer.extent()), ("wind_0", 4096));
    let read = layer.features().map(|f| f.to_feature().unwrap()).collect::<Vec<_>>();
    assert_eq!(read.len(), 2);
    assert_eq!(read[0].id, Some(0xFFFF_FFFC));
    assert_eq!(read[1].id, Some(7));
    let first = layer.features().next().unwrap().properties_vec().unwrap();
    assert_eq!(first.len(), 1);
    assert_eq!(first[0].0, "speed");
    assert_eq!(first[0].1.into_owned(), MvtValue::SInt(-4));
    assert!(matches!(
        layer.features().next().unwrap().geometry().unwrap(),
        MvtGeometry::Polygon(_) | MvtGeometry::MultiPolygon(_)
    ));
}

#[test]
fn a_layer_that_cannot_be_encoded_is_reported() {
    let feature = |tag| {
        vec![tagged(
            layer_features(&vec![cell(7, 0, 0, 2, 2)], 4096, 1).unwrap().remove(0),
            tag,
        )]
    };
    assert_eq!(render_mvt_layer("x", 4096, &vec![], &bands()), Ok(None));
    assert_eq!(
        render_mvt_layer("", 4096, &feature(MvtValue::Int(1)), &bands()),
        Err(LayerError::MissingName)
    );
    assert_eq!(
        render_measured_layer("", 4096, &feature(MvtValue::Int(1)), &bands()),
        Some(Err(LayerError::MissingName))
    );
    assert_eq!(render_measured_layer("x", 4096, &vec![], &bands()), Some(Ok(None)));

    // Far coordinates are drawn, as long as the area can be summed up.
    let far = |scale: i32| {
        let mut features = feature(MvtValue::Int(1));
        for c in &mut features[0].feature.polygons[0].exterior.0 {
            c.x *= scale;
            c.y *= scale;
        }
        features
    };
    assert!(matches!(render_mvt_layer("x", 4096, &far(1 << 20), &bands()), Ok(Some(_))));
    let mut beyond = far(1);
    beyond[0].feature.polygons[0].exterior.0 = [(-1, -1), (1, -1), (1, 1), (-1, 1)]
        .into_iter()
        .cycle()
        .take(8)
        .map(|(x, y)| Coord { x: x * i32::MAX, y: y * i32::MAX })
        .collect();
    assert_eq!(render_mvt_layer("x", 4096, &beyond, &bands()), Err(LayerError::Unfit));
    assert_eq!(
        render_measured_layer("x", 4096, &beyond, &bands()),
        Some(Err(LayerError::Unfit))
    );
}

/// A text is an attribute like a number is, and a null one is left out. A layer that is
/// measured first has the same bytes.
#[test]
fn attributes_of_all_kinds_are_written() {
    let layer = |tag: MvtValue| {
        let feature = layer_features(&vec![cell(7, 0, 0, 2, 2)], 4096, 1).unwrap().remove(0);
        let features = vec![tagged(feature, tag)];
        let bytes = render_mvt_layer("x", 4096, &features, &bands()).unwrap().unwrap();
        assert_eq!(
            render_measured_layer("x", 4096, &features, &bands()),
            Some(Ok(Some(bytes.clone())))
        );
        let reader = MvtReaderRef::new(&bytes).unwrap();
        let layer = reader.layers().next().unwrap();
        let feature = layer.features().next().unwrap();
        feature
            .properties_vec()
            .unwrap()
            .into_iter()
            .map(|(key, value)| (key.to_string(), value.into_owned()))
            .collect::<Vec<_>>()
    };
    let text = MvtValue::String("heavy \u{96e8}".to_string());
    assert_eq!(layer(text.clone()), [("speed".to_string(), text)]);
    assert_eq!(layer(MvtValue::UInt(9)), [("speed".to_string(), MvtValue::UInt(9))]);
    assert!(layer(MvtValue::Null).is_empty());
}
