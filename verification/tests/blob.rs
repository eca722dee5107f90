use islefall::blob::shape;
use islefall::grid::Cell;

fn grid(pw: usize, ph: usize, land: &[(usize, usize)]) -> Vec<Vec<bool>> {
    let mut g = vec![vec![false; pw]; ph];
    for &(i, j) in land {
        g[j][i] = true;
    }
    g
}

#[test]
fn a_full_square_of_pieces_stays_whole() {
    let all: Vec<(usize, usize)> = (0..3).flat_map(|j| (0..3).map(move |i| (i, j))).collect();
    let m = shape(&grid(3, 3, &all), &[], 3, 3);
    assert_eq!(m.len(), 81);
    assert!(m.contains(Cell::new(0, 0)) && m.contains(Cell::new(8, 8)));
    assert!(!m.contains(Cell::new(9, 0)));
}

#[test]
fn a_kept_corner_is_joined_to_the_middle_by_a_strip() {
    let keep = [Cell::new(0, 0)];
    let m = shape(&grid(5, 5, &[]), &keep, 5, 5);
    // Pieces (0,0), (1,0), (2,0), (2,1) and the middle (2,2).
    assert_eq!(m.len(), 45);
    assert!(m.contains(Cell::new(0, 0)));
    assert!(m.contains(Cell::new(5, 2)));
    assert!(m.contains(Cell::new(7, 4)));
    assert!(m.contains(Cell::new(8, 8)));
    assert!(!m.contains(Cell::new(3, 3)), "piece (1, 1) is not on the strip");
    assert!(!m.contains(Cell::new(9, 0)), "the strip turns at the middle column");
}

#[test]
fn land_the_middle_does_not_reach_is_dropped() {
    let m = shape(&grid(5, 5, &[(3, 3), (4, 3), (3, 4), (4, 4)]), &[], 5, 5);
    assert_eq!(m.len(), 9, "only the middle piece is left");
    assert!(m.contains(Cell::new(6, 6)));
    assert!(!m.contains(Cell::new(9, 9)));
}

#[test]
fn smoothing_sinks_corners_and_fills_the_middle() {
    // A ring of eight pieces round an empty middle: the first pass sinks
    // the corners (two land neighbours each) and fills the middle (eight);
    // a plus of five pieces is left.
    let ring: Vec<(usize, usize)> = (1..4).flat_map(|j| (1..4).map(move |i| (i, j))).filter(|&p| p != (2, 2)).collect();
    let m = shape(&grid(5, 5, &ring), &[], 5, 5);
    assert_eq!(m.len(), 45);
    assert!(m.contains(Cell::new(6, 6)), "the middle is land");
    assert!(m.contains(Cell::new(6, 3)) && m.contains(Cell::new(3, 6)) && m.contains(Cell::new(9, 6)) && m.contains(Cell::new(6, 9)));
    assert!(!m.contains(Cell::new(3, 3)), "a corner sank");
}
