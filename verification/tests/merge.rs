use topology_checker::coord::Coord;
use topology_checker::geometry::LineString;
use topology_checker::merge::merge_linestrings;

fn ls(coords: &[(i64, i64)]) -> LineString {
    let v: Vec<Coord> = coords.iter().map(|&(x, y)| Coord::new(x, y)).collect();
    LineString::from_coords(v).unwrap()
}

#[test]
fn merge_lines_test_one() {
    let input = vec![ls(&[(1, 1), (2, 2)])];
    let output = vec![ls(&[(1, 1), (2, 2)])];
    assert!(merge_linestrings(input) == output);
}

#[test]
fn merge_lines_touches_two() {
    let input = vec![ls(&[(1, 1), (2, 2)]), ls(&[(2, 2), (3, 3)])];
    let output = merge_linestrings(input);
    assert!(output.contains(&ls(&[(1, 1), (2, 2), (3, 3)])));
}

// Endpoint coordinates at a grid scale of 1000000.
#[test]
fn merge_lines_touches_three() {
    let input = vec![
        ls(&[(-21951560, 64144600), (-21951000, 64144790)]),
        ls(&[(-21951000, 64144790), (-21950440, 64145270)]),
        ls(&[(-21950440, 64145270), (-21951445, 64145508)]),
    ];
    let output = vec![ls(&[
        (-21951560, 64144600),
        (-21951000, 64144790),
        (-21950440, 64145270),
        (-21951445, 64145508),
    ])];
    assert!(merge_linestrings(input) == output);
}

#[test]
fn merge_lines_disjoint_two() {
    let input = vec![ls(&[(1, 1), (2, 2)]), ls(&[(3, 3), (4, 4)])];
    let output = vec![ls(&[(1, 1), (2, 2)]), ls(&[(3, 3), (4, 4)])];
    assert!(merge_linestrings(input) == output);
}

#[test]
fn merge_lines_disjoin_with_touch() {
    let input = vec![
        ls(&[(1, 1), (2, 2)]),
        ls(&[(2, 2), (3, 3)]),
        ls(&[(3, 3), (4, 4)]),
        ls(&[(7, 7), (8, 8)]),
    ];
    let output = merge_linestrings(input);
    assert!(output.contains(&ls(&[(1, 1), (2, 2), (3, 3), (4, 4)])));
    assert!(output.contains(&ls(&[(7, 7), (8, 8)])));
}

#[test]
fn merge_lines_intersect_three() {
    let input = vec![
        ls(&[(1, 1), (2, 2)]),
        ls(&[(2, 1), (2, 2)]),
        ls(&[(1, 2), (2, 2)]),
    ];
    let output = merge_linestrings(input.clone());
    assert!(output.contains(&input[0]));
    assert!(output.contains(&input[1]));
    assert!(output.contains(&input[2]));
}

#[test]
fn merge_lines_intersect_and_disjoint() {
    let input = vec![
        ls(&[(1, 1), (2, 2)]),
        ls(&[(1, 2), (2, 2)]),
        ls(&[(1, 3), (2, 2)]),
        ls(&[(3, 3), (4, 4)]),
    ];
    let output = merge_linestrings(input.clone());
    assert!(output.contains(&input[0]));
    assert!(output.contains(&input[1]));
    assert!(output.contains(&input[2]));
    assert!(output.contains(&input[3]));
}

// Merging an already merged set changes nothing further.
#[test]
fn merge_lines_idempotent() {
    let input = vec![
        ls(&[(1, 1), (2, 2)]),
        ls(&[(2, 2), (3, 3)]),
        ls(&[(3, 3), (4, 4)]),
        ls(&[(7, 7), (8, 8)]),
    ];
    let once = merge_linestrings(input);
    let twice = merge_linestrings(once.clone());
    assert!(once == twice);
}

#[test]
fn merge_lines_ring_closes() {
    let input = vec![
        ls(&[(0, 0), (10, 0)]),
        ls(&[(10, 0), (5, 8)]),
        ls(&[(5, 8), (0, 0)]),
    ];
    let output = merge_linestrings(input);
    assert_eq!(output.len(), 1);
    let ring = &output[0];
    assert_eq!(ring.coords.len(), 4);
    assert_eq!(ring.coords.first(), ring.coords.last());
}
