use islefall::generate::clear_spot;
use islefall::grid::Cell;

#[test]
fn a_spot_keeps_off_the_edge_and_clear_of_what_is_taken() {
    let world = Cell::new(100, 100);
    let taken = vec![(10, 10, 20, 20)];
    assert!(clear_spot(&taken, 30, 30, 5, 5, world, 4));
    assert!(!clear_spot(&taken, 22, 12, 5, 5, world, 4), "within the spacing east of the taken rectangle");
    assert!(clear_spot(&taken, 24, 12, 5, 5, world, 4), "just far enough east");
    assert!(!clear_spot(&taken, 0, 50, 5, 5, world, 4), "touches the west edge");
    assert!(!clear_spot(&taken, 50, 50, 49, 5, world, 4), "reaches the east edge");
    assert!(clear_spot(&Vec::new(), 1, 1, 5, 5, world, 4));
}
