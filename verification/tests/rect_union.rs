//! The union of rectangles of cells.

use grib2pmtiles::boundary::Edge;
use grib2pmtiles::contour::{trace_contours, UnionError};
use grib2pmtiles::geometry::{signed_area, Coord, LineString, Polygon};
use grib2pmtiles::rect_union::{merge_horizontal_runs, union_rectangles, IntRect};

fn area(polygons: &[Polygon]) -> i128 {
    polygons
        .iter()
        .map(|polygon| {
            signed_area(polygon.exterior())
                + polygon.interiors().iter().map(signed_area).sum::<i128>()
        })
        .sum::<i128>()
        / 2
}

#[test]
fn merges_adjacent_and_overlapping_rectangles() {
    let polygons = union_rectangles(vec![
        IntRect::new(0, 0, 2, 2),
        IntRect::new(2, 0, 4, 1),
        IntRect::new(1, 1, 3, 3),
    ])
    .unwrap();

    assert_eq!(polygons.len(), 1);
    assert!(polygons[0].interiors().is_empty());
    assert_eq!(area(&polygons), 9);
}

#[test]
fn removes_duplicates_and_contained_rectangles() {
    let polygons = union_rectangles(vec![
        IntRect::new(0, 0, 4, 4),
        IntRect::new(0, 0, 4, 4),
        IntRect::new(1, 1, 3, 3),
    ])
    .unwrap();

    assert_eq!(polygons.len(), 1);
    assert_eq!(polygons[0].exterior().0.len(), 5);
    assert_eq!(area(&polygons), 16);
}

#[test]
fn assigns_a_hole_to_its_exterior() {
    let polygons = union_rectangles(vec![
        IntRect::new(0, 0, 4, 1),
        IntRect::new(0, 3, 4, 4),
        IntRect::new(0, 1, 1, 3),
        IntRect::new(3, 1, 4, 3),
    ])
    .unwrap();

    assert_eq!(polygons.len(), 1);
    assert_eq!(polygons[0].interiors().len(), 1);
    assert_eq!(area(&polygons), 12);
}

#[test]
fn keeps_corner_touching_rectangles_as_separate_polygons() {
    let polygons =
        union_rectangles(vec![IntRect::new(0, 0, 1, 1), IntRect::new(1, 1, 2, 2)]).unwrap();

    assert_eq!(polygons.len(), 2);
    assert_eq!(area(&polygons), 2);
}

#[test]
fn keeps_an_island_inside_a_hole() {
    let polygons = union_rectangles(vec![
        IntRect::new(0, 0, 5, 1),
        IntRect::new(0, 4, 5, 5),
        IntRect::new(0, 1, 1, 4),
        IntRect::new(4, 1, 5, 4),
        IntRect::new(2, 2, 3, 3),
    ])
    .unwrap();

    assert_eq!(polygons.len(), 2);
    assert_eq!(area(&polygons), 17);
}

/// Rasterizing both the input and the output compares the sweep against an
/// oracle that shares none of its machinery. The larger grids matter as
/// much as the dense ones: they are what produce the long runs of
/// unchanged rows and the multi-ring boundaries that the sweep takes its
/// shortcuts on.
#[test]
fn randomized_rectangles_preserve_every_covered_cell() {
    let mut state = 0x6a09_e667_f3bc_c909_u64;
    for size in [4, 8, 16, 24] {
        for case in 0..400 {
            let count = (next_random(&mut state) % 40 + 1) as usize;
            let rectangles = (0..count)
                .map(|_| {
                    let x1 = (next_random(&mut state) % size as u64) as i32;
                    let y1 = (next_random(&mut state) % size as u64) as i32;
                    let x2 = x1 + 1 + (next_random(&mut state) % (size - x1) as u64) as i32;
                    let y2 = y1 + 1 + (next_random(&mut state) % (size - y1) as u64) as i32;
                    IntRect::new(x1, y1, x2, y2)
                })
                .collect::<Vec<_>>();
            let polygons = union_rectangles(rectangles.clone()).unwrap();

            let mut covered = 0;
            for y in 0..size {
                for x in 0..size {
                    let expected = rectangles.iter().any(|rectangle| {
                        rectangle.x1 <= x
                            && x < rectangle.x2
                            && rectangle.y1 <= y
                            && y < rectangle.y2
                    });
                    let actual = polygons.iter().any(|polygon| {
                        contains_point(polygon.exterior(), x as f64 + 0.5, y as f64 + 0.5)
                            && !polygon.interiors().iter().any(|hole| {
                                contains_point(hole, x as f64 + 0.5, y as f64 + 0.5)
                            })
                    });
                    assert_eq!(
                        actual, expected,
                        "size {size}, case {case}, cell ({x}, {y})"
                    );
                    covered += i128::from(expected);
                }
            }

            // The rings also have to enclose that area exactly, which
            // catches a hole that was attached to the wrong exterior.
            assert_eq!(area(&polygons), covered, "size {size}, case {case}");
        }
    }
}

fn next_random(state: &mut u64) -> u64 {
    *state = state
        .wrapping_mul(6_364_136_223_846_793_005)
        .wrapping_add(1_442_695_040_888_963_407);
    *state
}

fn contains_point(ring: &LineString, x: f64, y: f64) -> bool {
    let mut inside = false;
    for (left, right) in ring
        .0
        .iter()
        .zip(ring.0.iter().cycle().skip(1))
        .take(ring.0.len())
    {
        if (f64::from(left.y) > y) != (f64::from(right.y) > y) {
            let intersection_x = f64::from(right.x - left.x) * (y - f64::from(left.y))
                / f64::from(right.y - left.y)
                + f64::from(left.x);
            if x < intersection_x {
                inside = !inside;
            }
        }
    }
    inside
}

#[test]
fn an_empty_input_produces_no_polygons() {
    assert!(union_rectangles(Vec::new()).unwrap().is_empty());
}

#[test]
fn runs_of_equal_rows_are_joined() {
    let mut rectangles = vec![
        IntRect::new(4, 0, 6, 2),
        IntRect::new(0, 0, 2, 2),
        IntRect::new(2, 0, 4, 2),
        IntRect::new(9, 0, 10, 2),
    ];
    merge_horizontal_runs(&mut rectangles);

    assert_eq!(
        rectangles,
        vec![IntRect::new(0, 0, 6, 2), IntRect::new(9, 0, 10, 2)]
    );
}

#[test]
fn a_rectangle_is_its_own_outline() {
    let polygons = union_rectangles(vec![IntRect::new(-3, 5, 4, 9)]).unwrap();

    assert_eq!(polygons.len(), 1);
    assert_eq!(signed_area(polygons[0].exterior()), 2 * 7 * 4);
    let corners = &polygons[0].exterior().0;
    assert_eq!(corners.first(), corners.last());
    assert!(corners.iter().all(|c| (c.x == -3 || c.x == 4) && (c.y == 5 || c.y == 9)));
}

/// The polygons are the pieces of the union: as many as a flood through the sides
/// of cells finds, and each cell of a piece in the same polygon.
#[test]
fn each_piece_is_a_polygon_of_its_own() {
    let inside = |ring: &LineString, x: i32, y: i32| {
        ring.0
            .windows(2)
            .filter(|side| {
                let (a, b) = (side[0], side[1]);
                a.x == b.x && a.x > x && (a.y > y) != (b.y > y)
            })
            .count()
            % 2
            == 1
    };
    let mut state = 7u64;
    let mut random = |bound: u64| {
        state = state.wrapping_mul(6364136223846793005).wrapping_add(1442695040888963407);
        ((state >> 33) % bound) as i32
    };
    let size = 9i32;
    for case in 0..300 {
        let count = 1 + random(30);
        let rectangles = (0..count)
            .map(|_| {
                let (x, y) = (random(8), random(8));
                IntRect::new(x, y, x + 1, y + 1 + random(2))
            })
            .collect::<Vec<_>>();
        let covered = |x: i32, y: i32| {
            rectangles
                .iter()
                .any(|r| r.x1 <= x && x < r.x2 && r.y1 <= y && y < r.y2)
        };
        let polygons = union_rectangles(rectangles.clone()).unwrap();
        let owner = |x: i32, y: i32| {
            let owners = polygons
                .iter()
                .enumerate()
                .filter(|(_, p)| {
                    inside(p.exterior(), x, y) && !p.interiors().iter().any(|h| inside(h, x, y))
                })
                .map(|(index, _)| index)
                .collect::<Vec<_>>();
            assert!(owners.len() <= 1, "case {case}, cell ({x}, {y})");
            owners.first().copied()
        };

        let mut seen = vec![false; (size * 10) as usize];
        let mut pieces = Vec::new();
        for y in 0..10 {
            for x in 0..size {
                if seen[(y * size + x) as usize] || !covered(x, y) {
                    continue;
                }
                let polygon = owner(x, y);
                assert!(polygon.is_some() && !pieces.contains(&polygon), "case {case}");
                pieces.push(polygon);
                let mut stack = vec![(x, y)];
                while let Some((x, y)) = stack.pop() {
                    if !(0..size).contains(&x) || !(0..10).contains(&y) || !covered(x, y) {
                        continue;
                    }
                    let place = (y * size + x) as usize;
                    if seen[place] {
                        continue;
                    }
                    seen[place] = true;
                    assert_eq!(owner(x, y), polygon, "case {case}, cell ({x}, {y})");
                    stack.extend([(x + 1, y), (x - 1, y), (x, y + 1), (x, y - 1)]);
                }
            }
        }
        assert_eq!(pieces.len(), polygons.len(), "case {case}");
    }
}

/// However a region is cut up, it has one outline: the same corners in the same order.
#[test]
fn one_region_has_one_outline() {
    let frame = vec![
        IntRect::new(0, 0, 5, 1),
        IntRect::new(0, 4, 5, 5),
        IntRect::new(0, 1, 1, 4),
        IntRect::new(4, 1, 5, 4),
        IntRect::new(2, 2, 3, 3),
    ];
    let mut cells = Vec::new();
    for y in (0..5).rev() {
        for x in 0..5 {
            if frame.iter().any(|r| r.x1 <= x && x < r.x2 && r.y1 <= y && y < r.y2) {
                cells.push(IntRect::new(x, y, x + 1, y + 1));
                cells.push(IntRect::new(x, y, x + 1, y + 1));
            }
        }
    }
    let expected = union_rectangles(frame).unwrap();
    assert_eq!(union_rectangles(cells).unwrap(), expected);
    let corners = |ring: &LineString| ring.0.iter().map(|c| (c.x, c.y)).collect::<Vec<_>>();
    // From the left of the topmost side, clockwise; a hole the other way round.
    assert_eq!(
        corners(expected[0].exterior()),
        [(0, 0), (5, 0), (5, 5), (0, 5), (0, 0)]
    );
    assert_eq!(
        corners(&expected[0].interiors()[0]),
        [(4, 1), (1, 1), (1, 4), (4, 4), (4, 1)]
    );
    assert_eq!(
        corners(expected[1].exterior()),
        [(2, 2), (3, 2), (3, 3), (2, 3), (2, 2)]
    );
    assert_eq!(expected.len(), 2);
}

/// Where cells of one piece meet in a corner, the ring turns right, into what would
/// else be a hole, and passes the corner twice.
#[test]
fn a_ring_keeps_right_in_a_corner_of_four() {
    let cells = [(0, 0), (1, 0), (2, 0), (0, 1), (2, 1), (0, 2), (1, 2)]
        .into_iter()
        .map(|(x, y)| IntRect::new(x, y, x + 1, y + 1))
        .collect();
    let polygons = union_rectangles(cells).unwrap();
    assert_eq!(polygons.len(), 1);
    assert!(polygons[0].interiors().is_empty());
    assert_eq!(
        polygons[0].exterior().0.iter().map(|c| (c.x, c.y)).collect::<Vec<_>>(),
        [
            (0, 0),
            (3, 0),
            (3, 2),
            (2, 2),
            (2, 1),
            (1, 1),
            (1, 2),
            (2, 2),
            (2, 3),
            (0, 3),
            (0, 0),
        ]
    );
}

/// Reversed, a ring has the negative of its area; the point it starts from and a
/// repeated first point do not matter.
#[test]
fn areas_follow_the_way_round() {
    let ring = |points: &[(i32, i32)]| {
        LineString(points.iter().map(|&(x, y)| Coord { x, y }).collect())
    };
    let corners = [(1, 2), (5, 2), (5, 4), (3, 4), (3, 7), (1, 7)];
    let area = signed_area(&ring(&corners));
    assert_eq!(area, 2 * (4 * 2 + 2 * 3));
    let mut reversed = corners;
    reversed.reverse();
    assert_eq!(signed_area(&ring(&reversed)), -area);
    let mut turned = corners;
    turned.rotate_left(2);
    assert_eq!(signed_area(&ring(&turned)), area);
    let mut closed = corners.to_vec();
    closed.push(corners[0]);
    assert_eq!(signed_area(&ring(&closed)), area);
    assert_eq!(signed_area(&ring(&[(1, 2), (4, 2), (4, 4), (1, 4)])), 12);
}

/// Edges that are no whole boundary are told apart.
#[test]
fn edges_that_make_no_rings_are_refused() {
    let edge = |a: (i32, i32), b: (i32, i32)| Edge {
        start: Coord { x: a.0, y: a.1 },
        end: Coord { x: b.0, y: b.1 },
        direction: match (b.0 - a.0, b.1 - a.1) {
            (1, 0) => 0,
            (0, 1) => 1,
            (-1, 0) => 2,
            _ => 3,
        },
    };
    assert_eq!(
        trace_contours(&vec![edge((0, 0), (1, 0)), edge((1, 0), (1, 1))]),
        Err(UnionError::OpenBoundary)
    );
    assert_eq!(
        trace_contours(&vec![edge((0, 0), (1, 0)), edge((1, 0), (0, 0))]),
        Err(UnionError::DegenerateRing)
    );
    // Of several such chains the first one is reported.
    let open = edge((0, 0), (1, 0));
    let forth = edge((5, 5), (6, 5));
    let back = edge((6, 5), (5, 5));
    assert_eq!(
        trace_contours(&vec![open, forth, back]),
        Err(UnionError::OpenBoundary)
    );
    assert_eq!(
        trace_contours(&vec![forth, open, back]),
        Err(UnionError::DegenerateRing)
    );
    let square = vec![
        edge((0, 0), (1, 0)),
        edge((1, 0), (1, 1)),
        edge((1, 1), (0, 1)),
        edge((0, 1), (0, 0)),
    ];
    assert_eq!(trace_contours(&square).unwrap()[0].0.len(), 4);
}
