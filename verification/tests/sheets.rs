use islefall::contact::{cell_size, fits, layout, sheet_columns};
use islefall::fort::{Item, CODE_BRIDGE_FIRST, CODE_GEYSER, CODE_GROUND};
use islefall::fortview::{cell_char, code_counts, world_picture};
use islefall::shp::{Frame, FrameHeader};

fn header(w: u16, h: u16) -> FrameHeader {
    FrameHeader { box_h: h - 1, box_w1: w - 1, hot_y: 0, hot_x: 0, dx: 0, dy: 0, n: 0, flag: 0 }
}

fn frame(canvas: (u16, u16), block: (i32, i32), size: (usize, usize)) -> Frame {
    Frame {
        header: header(canvas.0, canvas.1),
        width: size.0,
        height: size.1,
        block_x: block.0,
        block_y: block.1,
        indices: vec![0; size.0 * size.1],
        opaque: vec![true; size.0 * size.1],
    }
}

#[test]
fn a_block_inside_the_canvas_keeps_the_canvas() {
    assert_eq!(cell_size(&frame((20, 10), (2, 3), (5, 4))), (20, 10));
    assert_eq!(cell_size(&frame((20, 10), (0, 0), (0, 0))), (20, 10), "an empty frame is its canvas");
}

#[test]
fn a_block_past_the_canvas_grows_the_cell() {
    assert_eq!(cell_size(&frame((20, 10), (18, 8), (5, 4))), (23, 12));
    assert_eq!(cell_size(&frame((20, 10), (-4, -4), (25, 3))), (25, 10), "negative offsets count as zero");
}

#[test]
fn cells_are_laid_out_in_rows_with_gaps() {
    let cells = [(10, 5), (4, 8), (6, 2)];
    assert_eq!(layout(&cells, 2, 2), (18, 14));
    assert_eq!(layout(&cells, 3, 2), (26, 10));
    assert_eq!(layout(&cells, 1, 2), (12, 21));
    assert_eq!(layout(&[], 1, 2), (0, 0));
}

#[test]
fn the_raster_caps_bound_a_sheet() {
    assert!(fits(1000, 1000, 2));
    assert!(!fits(1001, 1000, 2), "over the pixel cap");
    assert!(!fits(2049, 1, 1), "over the side cap");
    assert!(fits(2048, 1, 1));
}

#[test]
fn a_wide_sheet_halves_its_columns() {
    let cells = [(1000, 10), (1000, 10), (1000, 10)];
    assert_eq!(sheet_columns(&cells, 2, 1), Some((2, 2004, 24)));
    assert_eq!(sheet_columns(&cells[..1], 2, 1), Some((1, 1002, 12)));
    assert_eq!(sheet_columns(&[(3000, 10)], 2, 1), None, "even one column is too wide");
    assert_eq!(sheet_columns(&[(600, 10), (600, 10)], 2, 4), None);
}

fn item(x: i32, y: i32, code: u8) -> Item {
    Item { x, y, code, payload: Vec::new() }
}

#[test]
fn the_world_picture_marks_ground_geysers_and_bridges() {
    let items = vec![
        item(0, 0, CODE_GROUND),
        item(1, 0, CODE_GROUND),
        item(1, 0, CODE_GEYSER),
        item(1, 0, CODE_GROUND),
        item(0, 1, CODE_BRIDGE_FIRST),
        item(0, 1, CODE_GROUND),
        item(2, 1, 0x11),
    ];
    assert_eq!(world_picture(&items, 0, 0, 2, 1), vec!["#G.".to_string(), "=.?".to_string()]);
    assert_eq!(cell_char(&items, 1, 0), 'G', "ground does not cover a geyser");
    assert_eq!(cell_char(&items, 0, 1), '=', "ground does not cover a bridge");
    assert_eq!(cell_char(&items, 5, 5), '.');
    assert_eq!(world_picture(&items, 1, 0, 1, 0), vec!["G".to_string()]);
}

#[test]
fn codes_are_counted_without_ground() {
    let items = vec![item(0, 0, CODE_GROUND), item(0, 0, 0xfb), item(1, 0, CODE_GEYSER), item(2, 0, 0xfb), item(3, 0, 0x11)];
    assert_eq!(code_counts(&items), vec![(0x11, 1), (CODE_GEYSER, 1), (0xfb, 2)]);
    assert_eq!(code_counts(&[item(0, 0, CODE_GROUND)]), vec![]);
}
