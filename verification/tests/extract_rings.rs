use geolite::extract::admin_levels::rings::{
  assemble_rings, end_ref, relation_rings_of, ring_points_of, way_ends,
};

type pt = (f64, f64);

fn approx_eq(a: pt, b: pt) -> bool {
  (a.0 - b.0).abs() < 1e-9 && (a.1 - b.1).abs() < 1e-9
}

fn end_point(ways: &[Vec<pt>], e: end_ref) -> pt {
  let w = &ways[e.way];
  if e.at_last {
    w[w.len() - 1]
  } else {
    w[0]
  }
}

// the table the library reads: for each end of each way, the ends lying at the same place
fn ends_of(ways: &[Vec<pt>]) -> Vec<way_ends> {
  let touches = |p: Option<pt>| -> Vec<end_ref> {
    let mut out = Vec::new();
    if let Some(p) = p {
      for (j, w) in ways.iter().enumerate() {
        if w.is_empty() {
          continue;
        }
        for at_last in [false, true] {
          let e = end_ref { way: j, at_last };
          if approx_eq(end_point(ways, e), p) {
            out.push(e);
          }
        }
      }
    }
    out
  };
  ways
    .iter()
    .map(|w| way_ends {
      points: w.len(),
      first_touches: touches(w.first().copied()),
      last_touches: touches(w.last().copied()),
    })
    .collect()
}

fn rings_of(ways: &[Vec<pt>]) -> Vec<Vec<pt>> {
  let ends = ends_of(ways);
  let (pieces, starts) = assemble_rings(&ends);
  let owned: Vec<Vec<pt>> = ways.to_vec();
  (0..starts.len())
    .map(|r| {
      let hi = if r + 1 < starts.len() { starts[r + 1] } else { pieces.len() };
      ring_points_of(&owned, &pieces, starts[r], hi)
    })
    .collect()
}

fn ls(points: &[pt]) -> Vec<pt> {
  points.to_vec()
}

#[test]
fn _03_00_no_ways_produces_no_rings() {
  assert!(rings_of(&[]).is_empty());
}

#[test]
fn _03_01_single_way_becomes_a_single_ring() {
  let rings = rings_of(&[ls(&[(0.0, 0.0), (1.0, 0.0), (1.0, 1.0)])]);
  assert_eq!(rings.len(), 1);
  assert_eq!(rings[0].len(), 3);
}

#[test]
fn _03_02_joins_ways_head_to_tail() {
  let rings = rings_of(&[ls(&[(0.0, 0.0), (1.0, 0.0)]), ls(&[(1.0, 0.0), (1.0, 1.0)])]);
  assert_eq!(rings.len(), 1);
  assert_eq!(rings[0].len(), 3);
  assert!(approx_eq(rings[0][2], (1.0, 1.0)));
}

#[test]
fn _03_03_reverses_way_when_joining_tail_to_tail() {
  let rings = rings_of(&[ls(&[(0.0, 0.0), (1.0, 0.0)]), ls(&[(1.0, 1.0), (1.0, 0.0)])]);
  assert_eq!(rings.len(), 1);
  assert_eq!(rings[0].len(), 3);
  assert!(
    approx_eq(rings[0][2], (1.0, 1.0)),
    "o way invertido deve terminar no seu ponto inicial original"
  );
}

#[test]
fn _03_04_chained_segments_close_into_a_ring() {
  let rings = rings_of(&[
    ls(&[(0.0, 0.0), (1.0, 0.0)]),
    ls(&[(1.0, 0.0), (1.0, 1.0)]),
    ls(&[(1.0, 1.0), (0.0, 1.0)]),
    ls(&[(0.0, 1.0), (0.0, 0.0)]),
  ]);
  assert_eq!(rings.len(), 1);
  assert_eq!(rings[0].len(), 5);
  assert!(approx_eq(rings[0][0], *rings[0].last().unwrap()));
}

#[test]
fn _03_05_disjoint_ways_become_separate_rings() {
  let rings = rings_of(&[ls(&[(0.0, 0.0), (1.0, 0.0)]), ls(&[(10.0, 10.0), (11.0, 10.0)])]);
  assert_eq!(rings.len(), 2);
}

#[test]
fn ring_growth_takes_the_lowest_way_first_and_a_first_point_before_a_last() {
  // ways 1 and 2 both touch the tail of way 0; way 1 enters at its last point, way 2 at its
  // first: way 1 is taken because it comes first.
  let ways = [
    ls(&[(0.0, 0.0), (1.0, 0.0)]),
    ls(&[(5.0, 5.0), (1.0, 0.0)]),
    ls(&[(1.0, 0.0), (7.0, 7.0)]),
  ];
  let ends = ends_of(&ways);
  let (pieces, starts) = assemble_rings(&ends);
  assert_eq!(starts, vec![0, 2]);
  assert_eq!(
    pieces,
    vec![
      end_ref { way: 0, at_last: false },
      end_ref { way: 1, at_last: true },
      end_ref { way: 2, at_last: false }
    ]
  );
}

#[test]
fn a_one_point_way_joins_without_moving_the_tail() {
  let ways = [
    ls(&[(0.0, 0.0), (1.0, 0.0)]),
    ls(&[(1.0, 0.0)]),
    ls(&[(1.0, 0.0), (2.0, 0.0)]),
  ];
  let rings = rings_of(&ways);
  assert_eq!(rings, vec![vec![(0.0, 0.0), (1.0, 0.0), (2.0, 0.0)]]);
}

#[test]
fn a_relation_whose_ways_are_all_empty_is_skipped() {
  let ends = ends_of(&[ls(&[]), ls(&[])]);
  assert!(relation_rings_of(&ends).is_none());
  assert!(relation_rings_of(&Vec::new()).is_none());
}

#[test]
fn a_closed_ring_of_five_points_makes_a_polygon() {
  let ends = ends_of(&[ls(&[(0.0, 0.0), (1.0, 0.0), (1.0, 1.0), (0.0, 1.0), (0.0, 0.0)])]);
  let rings = relation_rings_of(&ends).expect("rings");
  assert_eq!(rings.polygons, vec![0]);
}

#[test]
fn an_open_ring_makes_no_polygon() {
  let ends = ends_of(&[ls(&[(0.0, 0.0), (1.0, 0.0), (1.0, 1.0)])]);
  let rings = relation_rings_of(&ends).expect("rings");
  assert!(rings.polygons.is_empty());
}

#[test]
fn a_closed_ring_of_three_points_makes_no_polygon() {
  let ends = ends_of(&[ls(&[(0.0, 0.0), (1.0, 0.0), (0.0, 0.0)])]);
  let rings = relation_rings_of(&ends).expect("rings");
  assert!(rings.polygons.is_empty());
}

#[test]
fn only_the_closed_rings_of_a_relation_make_polygons() {
  let ends = ends_of(&[
    ls(&[(0.0, 0.0), (1.0, 0.0), (1.0, 1.0)]),
    ls(&[(10.0, 10.0), (11.0, 10.0)]),
    ls(&[(1.0, 1.0), (0.0, 0.0)]),
  ]);
  let rings = relation_rings_of(&ends).expect("rings");
  assert_eq!(rings.starts, vec![0, 2]);
  assert_eq!(rings.polygons, vec![0]);
}
