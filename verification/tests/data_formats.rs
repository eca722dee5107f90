use islefall::bridge::{label, EAST, NORTH, SOUTH, WEST};
use islefall::campaign::{parse_chapter, Difficulty, Entry as MenuEntry};
use islefall::col::{ColError, Palette, FILE_LEN, HEADER_LEN};
use islefall::fort::{encode as fort_encode, Fort, FortError, Item, CODE_ALTAR_FIRST, CODE_ALTAR_LAST, CODE_GEYSER, CODE_GROUND, CODE_PRIEST, CODE_TEMPLE};
use islefall::isle::{Piece as IslePiece, Theme};
use islefall::mission::{plain_text, Mission};
use islefall::shapes::{container_of, index as shape_index, ShapeIndexError, SHAPE_ORDER};
use islefall::shp::{ShapeFile, ShpError, HEADER_LEN as SHP_HEADER_LEN, MAGIC as SHP_MAGIC};
use islefall::tarc::{encode as tarc_encode, Archive, TarcError};

#[test]
fn labels_are_distinct() {
    let mut seen = std::collections::BTreeSet::new();
    for m in 1..16u8 {
        assert!(seen.insert(label(m)), "mask {m} reuses {}", label(m));
    }
    assert_eq!(label(0), "A");
    assert_eq!(label(NORTH | SOUTH), "J");
}

#[test]
fn bridge_labels_follow_the_rails() {
    assert_eq!(label(NORTH | EAST | SOUTH | WEST), "A");
    assert_eq!(label(EAST | WEST), "K");
    assert_eq!(label(EAST), "O");
    assert_eq!(label(0x10 | NORTH), "N", "high bits are ignored");
}

#[test]
fn a_chapter_menu_lists_its_missions_in_order() {
    let text = "title = \"Early Lessons\"\n\n[Overview]\n<h2>Early Lessons</h2>\n$Checked=1 First Steps,MissionBegin,Lesson1,{DoneLesson1},1\n$Checked=2 Next Steps,MissionBegin,Lesson2,{DoneLesson2},{DoneLesson1}\n$Button=Back,Tell,Menu\n";
    let c = parse_chapter("Offical1", text).unwrap();
    assert_eq!(c.file, "offical1");
    assert_eq!(c.title, "Early Lessons");
    assert_eq!(c.missions, vec![MenuEntry { label: "1 First Steps".into(), mission: "lesson1".into() }, MenuEntry { label: "2 Next Steps".into(), mission: "lesson2".into() }]);
    assert!(parse_chapter("x", "title = \"Nothing\"\n").is_none());
}

#[test]
fn difficulty_names_ignore_case_and_space() {
    assert_eq!(Difficulty::parse(" HARD "), Some(Difficulty::Hard));
    assert_eq!(Difficulty::parse("normal"), Some(Difficulty::Normal));
    assert_eq!(Difficulty::parse("Easy"), Some(Difficulty::Easy));
    assert_eq!(Difficulty::parse("medium"), None);
    assert_eq!(Difficulty::default(), Difficulty::Normal);
}

#[test]
fn chapters_take_the_difficulty_asked_for() {
    let plain = "title = \"Three\"\n$Checked=1 A,MissionBegin,ThreeEasy\n";
    let hard = "title = \"Three\"\n$Checked=1 A,MissionBegin,ThreeHard\n";
    let one = "title = \"One\"\n$Checked=1 A,MissionBegin,Lesson1\n";
    let bytes = tarc_encode(&[
        ("\\offical3.english", plain.as_bytes()),
        ("\\offical32.english", hard.as_bytes()),
        ("\\offical1.english", one.as_bytes()),
        ("\\readme.txt", b"not a menu"),
    ]);
    let a = Archive::parse(bytes).unwrap();
    let cs = islefall::campaign::chapters(&a, Difficulty::Hard);
    assert_eq!(cs.len(), 2);
    assert_eq!(cs[0].file, "offical1");
    assert_eq!(cs[1].file, "offical32");
    assert_eq!(cs[1].missions[0].mission, "threehard");
    let cs = islefall::campaign::chapters(&a, Difficulty::Easy);
    assert_eq!(cs[1].missions[0].mission, "threeeasy");
}

#[test]
fn parses_synthetic_palette() {
    let mut data = vec![0u8; FILE_LEN];
    data[HEADER_LEN + 3 * 7] = 10;
    data[HEADER_LEN + 3 * 7 + 1] = 20;
    data[HEADER_LEN + 3 * 7 + 2] = 30;
    let pal = Palette::parse(&data).unwrap();
    assert_eq!(pal.rgb(7), [10, 20, 30]);
    assert_eq!(pal.rgb(8), [0, 0, 0]);
}

#[test]
fn rejects_wrong_length() {
    assert!(matches!(Palette::parse(&[0; 100]), Err(ColError::BadLength(100))));
}

#[test]
fn grey_palette_is_a_ramp() {
    let p = Palette::grey();
    assert_eq!(p.rgb(0), [0, 0, 0]);
    assert_eq!(p.rgb(200), [200, 200, 200]);
}

#[test]
fn parses_a_world_table_and_fortresses() {
    // Block 17 (row 1, column 1): a 3 x 3 geyser island with the geyser at its bottom-right.
    let mut table = vec![Vec::new(); 18];
    for c in 0..3u8 {
        for r in 0..3u8 {
            table[17].push((c << 4 | r, CODE_GROUND, vec![0]));
        }
    }
    table[17].push((0x22, CODE_GEYSER, vec![0]));
    let fortress = vec![vec![(0x7d, 0x7b, vec![1, 1, 0x85, 0])], vec![(0x41, CODE_TEMPLE, vec![0x81, 1, 0]), (0x40, CODE_PRIEST, vec![1])]];
    let bytes = fort_encode(14, "Player", &table, &[fortress]);
    let f = Fort::parse(&bytes).unwrap();
    assert_eq!((f.version, f.name.as_str()), (14, "Player"));
    assert_eq!(f.ground().len(), 9);
    assert!(f.ground().iter().all(|&(x, y, _)| (16..19).contains(&x) && (16..19).contains(&y)));
    let geyser = f.items.iter().find(|i| i.code == CODE_GEYSER).unwrap();
    assert_eq!((geyser.x, geyser.y), (18, 18));
    assert_eq!(f.fortresses.len(), 1);
    let fo = &f.fortresses[0];
    assert_eq!(fo.blocks, 2);
    assert_eq!(fo.canvas_size(), (32, 16));
    let altar = fo.items.iter().find(|i| (CODE_ALTAR_FIRST..=CODE_ALTAR_LAST).contains(&i.code)).unwrap();
    assert_eq!(((altar.x, altar.y), altar.owner()), ((7, 13), Some(1)));
    let temple = fo.items.iter().find(|i| i.code == CODE_TEMPLE).unwrap();
    assert_eq!(((temple.x, temple.y), temple.owner(), temple.is_local_temple()), ((16 + 4, 1), Some(1), true));
    assert_eq!(f.skipped_chunks, 0);
}

#[test]
fn rejects_other_files() {
    assert!(matches!(Fort::parse(b"hello"), Err(FortError::Short)));
    assert!(matches!(Fort::parse(b"typename x\n{\n}\n"), Err(FortError::Magic)));
}

#[test]
fn a_fort_without_a_world_table_is_refused() {
    let mut bytes = vec![b'F', 0, 1, 0, 0, 0, 0, 0, 0, 0];
    bytes.extend_from_slice(&[4, 0, 9, 9]);
    assert!(matches!(Fort::parse(&bytes), Err(FortError::NoTable)));
}

#[test]
fn fort_bounds_span_the_items() {
    let mut table = vec![Vec::new(); 2];
    table[0].push((0x12, CODE_GROUND, vec![3]));
    table[1].push((0x00, CODE_GEYSER, vec![0]));
    let f = Fort::parse(&fort_encode(1, "", &table, &[])).unwrap();
    assert_eq!(f.bounds(), Some((1, 0, 16, 2)));
    assert_eq!(f.ground(), vec![(1, 2, 3)]);
    assert_eq!(Fort::parse(&fort_encode(1, "", &[], &[])).unwrap().bounds(), None);
}

#[test]
fn item_owners_follow_the_code() {
    let item = |code: u8, payload: Vec<u8>| Item { x: 0, y: 0, code, payload };
    assert_eq!(item(CODE_GROUND, vec![1]).owner(), None);
    assert_eq!(item(0xfc, vec![1]).owner(), None, "bridge cells have no owner");
    assert_eq!(item(CODE_TEMPLE, vec![0, 9, 0]).owner(), None, "nine is no player");
    assert_eq!(item(0x56, vec![0, 3, 0]).owner(), Some(3));
    assert_eq!(item(0x81, vec![0, 2]).owner(), Some(2));
    assert_eq!(item(0x81, vec![4, 0]).owner(), Some(4));
    assert_eq!(islefall::fort::payload_len(0x9e), 3);
    assert_eq!(islefall::fort::payload_len(0x7c), 4);
    assert_eq!(islefall::fort::payload_len(0x01), 1);
}

#[test]
fn themes_and_pieces() {
    assert_eq!(Theme::parse("Thunder"), Some(Theme::Thunder));
    assert_eq!(Theme::parse("snow"), None);
    assert_eq!(Theme::Rain.index(), 3);
    assert_eq!(IslePiece::InsideBottomLeft.label(), "AB");
    assert_eq!(IslePiece::ALL.len(), 13);
}

#[test]
fn reads_the_header_only() {
    let m = Mission::parse("[Header]\nmissionType = \"Tutorial\"\nloadFort = \"CaptureThePriest\"\nmyStartMoney = 2000\nai2Tech = \"rainCannon;rainBattery\"\ntitle = \"X\"\n[A.]\nnot = this\n");
    assert_eq!(m.get("LOADFORT"), Some("CaptureThePriest"));
    assert_eq!(m.integer("myStartMoney"), Some(2000));
    assert_eq!(m.ai_techs(2), vec!["raincannon", "rainbattery"]);
    assert!(m.ai_techs(1).is_empty());
    assert_eq!(m.get("not"), None);
}

#[test]
fn pages_buttons_and_results_are_read() {
    let text = "[Header]\nloadFort = \"Somewhere\"\ntitle=\"A Test\"\n\n[A.]\n<h2>Hello</h2>\n<p>\nFirst line\nof a paragraph.\n<p>\n<i>Second</i> one.<br>After a break.\n$Button=MORE,Tell,A1.\n$Button=Play Mission,DoNothing,0\n\n[A1.]\nMore.\n$Button=BACK,Tell,A.\n\n[Succeeded][BadTeamDead]\n<h2>Success!</h2>\n<$Config,Done=1>\nWell done.\n\n[Failed]\nAlas.\n[END]\n";
    let m = Mission::parse(text);
    assert_eq!(m.get("loadfort"), Some("Somewhere"));
    assert_eq!(m.pages(), vec!["a.".to_string(), "a1.".to_string()]);
    let a = m.page("A.").unwrap();
    assert_eq!(a.text, "Hello\n\nFirst line of a paragraph.\n\nSecond one. After a break.");
    assert_eq!(a.buttons.len(), 2);
    assert_eq!((a.buttons[0].label.as_str(), a.buttons[0].action.as_str(), a.buttons[0].arg.as_str()), ("MORE", "Tell", "A1."));
    assert_eq!(m.page("[a1.]").unwrap().buttons[0].arg, "A.");
    assert_eq!(m.result(true).unwrap().text, "Success!\n\nWell done.");
    assert_eq!(m.result(false).unwrap().text, "Alas.");
    assert!(m.page("Z.").is_none());
}

#[test]
fn plain_text_keeps_an_unclosed_tag() {
    assert_eq!(plain_text("a <b"), "a <b");
    assert_eq!(plain_text("one<br>two"), "one two", "a line break inside a paragraph runs together");
    assert_eq!(plain_text("one<p>two"), "one\n\ntwo");
    assert_eq!(plain_text("  \n\n  "), "");
}

#[test]
fn header_values_lose_semicolons_and_quotes() {
    let m = Mission::parse("[header]\nmyTech = \"sunCannon; ;Bulf\" ;\n// note = 1\nbad line\nmoney = -12\nmoney = 40\n[HEADER]\nx = 1\n");
    assert_eq!(m.techs("MYTECH"), vec!["suncannon", "bulf"]);
    assert_eq!(m.integer("money"), Some(40), "a later line replaces the value");
    assert_eq!(m.get("note"), None);
    assert_eq!(m.get("x"), None, "only the first header counts");
    assert_eq!(m.sections.len(), 1);
    assert_eq!(m.sections[0].0, "[header]");
}

#[test]
fn a_mission_finds_its_scenario_and_text() {
    let text = "[Header]\nloadFort = \"Island\"\n[A.]\nHi.\n";
    let bytes = tarc_encode(&[
        ("\\m\\firsteasy.english", text.as_bytes()),
        ("\\f\\island.fort", b"F"),
        ("\\f\\second.fort", b"F"),
        ("\\m\\second.english", b"[A.]\nYo.\n"),
    ]);
    let a = Archive::parse(bytes).unwrap();
    let m = Mission::load(&a, "FirstEasy").unwrap();
    assert_eq!(m.fort_name("FirstEasy", &a), Some("island".to_string()));
    assert!(Mission::load(&a, "nothing").is_none());
    let s = Mission::for_fort(&a, "SECOND").unwrap();
    assert_eq!(s.page("a.").unwrap().text, "Yo.");
    let f = Mission::for_fort(&a, "island").unwrap();
    assert_eq!(f.get("loadfort"), Some("Island"));
    let plain = Mission::parse("");
    assert_eq!(plain.fort_name("secondhard", &a), Some("second".to_string()));
    assert_eq!(plain.fort_name("third", &a), None);
}

#[test]
fn order_is_unique_and_lowercase() {
    let mut seen = std::collections::BTreeSet::new();
    for s in SHAPE_ORDER {
        assert!(seen.insert(s), "duplicate {s}");
        assert_eq!(s, s.to_ascii_lowercase());
    }
    assert_eq!(container_of("Priest"), Some(88));
    assert_eq!(container_of("isle"), Some(27));
    assert_eq!(container_of("nope"), None);
}

/// Build a file with one container and one record from raw row bytes.
fn synthetic(header: [u8; SHP_HEADER_LEN], rows: &[u8]) -> Vec<u8> {
    let mut f = Vec::new();
    f.extend_from_slice(&SHP_MAGIC);
    f.extend_from_slice(&1u32.to_le_bytes());
    f.extend_from_slice(&16u32.to_le_bytes());
    f.extend_from_slice(&0u32.to_le_bytes());
    f.extend_from_slice(&header);
    f.extend_from_slice(rows);
    while f.len() % 4 != 0 {
        f.push(0);
    }
    let shorts: [i16; 6] = [32, 22, 16, 11, 0, -11];
    for (i, s) in shorts.iter().enumerate() {
        let scale = if i % 2 == 0 { 16.0 } else { 11.0 };
        f.extend_from_slice(&(*s as f32 / scale).to_le_bytes());
    }
    for s in shorts {
        f.extend_from_slice(&s.to_le_bytes());
    }
    f
}

fn header(box_h: u16, box_w1: u16, hot_y: i16, hot_x: i16, dx: i32, dy: i32) -> [u8; SHP_HEADER_LEN] {
    let mut h = [0u8; SHP_HEADER_LEN];
    h[0..2].copy_from_slice(&box_h.to_le_bytes());
    h[2..4].copy_from_slice(&box_w1.to_le_bytes());
    h[4..6].copy_from_slice(&hot_y.to_le_bytes());
    h[6..8].copy_from_slice(&hot_x.to_le_bytes());
    h[8..12].copy_from_slice(&dx.to_le_bytes());
    h[12..16].copy_from_slice(&dy.to_le_bytes());
    h
}

#[test]
fn decodes_small_frame() {
    let rows = [1, 2, 4, 0x18, 0, 1, 1, 5, 0x10, 0xd3, 0];
    let shp = ShapeFile::parse(synthetic(header(15, 9, 14, 4, -3, -14), &rows)).unwrap();
    assert_eq!(shp.container_count(), 1);
    let fr = shp.decode(shp.container(0)[0]).unwrap();
    assert_eq!((fr.width, fr.height), (4, 2));
    assert_eq!((fr.block_x, fr.block_y), (1, 0));
    assert_eq!(fr.pixel(0, 0), None);
    assert_eq!(fr.pixel(2, 0), Some(0x18));
    assert_eq!(fr.pixel(3, 0), Some(0x18));
    assert_eq!(fr.pixel(1, 1), Some(0x10));
    assert_eq!(fr.pixel(2, 1), Some(0xd3));
    assert_eq!(fr.pixel(3, 1), None);
    assert!(fr.fits_canvas());
    assert_eq!(fr.header.canvas_size(), (10, 16));
}

#[test]
fn huge_header_dimensions_do_not_allocate() {
    let rows = [3, 7, 0, 3, 8, 0];
    let shp = ShapeFile::parse(synthetic(header(65535, 65534, 0, 0, 0, 0), &rows)).unwrap();
    let fr = shp.decode(shp.container(0)[0]).unwrap();
    assert_eq!((fr.width, fr.height), (1, 2));
    assert_eq!(fr.indices.len(), 2);
}

#[test]
fn placeholder_is_empty() {
    let shp = ShapeFile::parse(synthetic(header(0, 0, 0, 0, 0x7fff_ff45, 0x7fff_ff31), &[])).unwrap();
    let fr = shp.decode(shp.container(0)[0]).unwrap();
    assert!(fr.is_empty());
}

#[test]
fn missing_trailer_is_an_error() {
    let mut f = synthetic(header(2, 2, 0, 0, 0, 0), &[3, 7, 0]);
    let n = f.len();
    f[n - 36..n - 12].fill(0xff);
    let shp = ShapeFile::parse(f).unwrap();
    assert!(matches!(shp.decode(shp.container(0)[0]), Err(ShpError::NoTrailer { .. })));
}

#[test]
fn rejects_offsets_not_in_tables() {
    let shp = ShapeFile::parse(synthetic(header(2, 2, 0, 0, 0, 0), &[3, 7, 0])).unwrap();
    assert!(matches!(shp.decode(17), Err(ShpError::UnknownRecord { offset: 17 })));
}

#[test]
fn shp_rejects_entry_outside_file() {
    let mut f = synthetic(header(2, 2, 0, 0, 0, 0), &[3, 7, 0]);
    f[8..12].copy_from_slice(&0xffff_fff0u32.to_le_bytes());
    assert!(matches!(ShapeFile::parse(f), Err(ShpError::EntryOutOfFile { .. })));
}

#[test]
fn decode_container_decodes_every_record() {
    let shp = ShapeFile::parse(synthetic(header(2, 2, 0, 0, 0, 0), &[3, 7, 0])).unwrap();
    let all = shp.decode_container(0);
    assert_eq!(all.len(), 1);
    assert_eq!(all[0].as_ref().unwrap().pixel(0, 0), Some(7));
    assert_eq!(shp.records().len(), 1);
}

#[test]
fn round_trip() {
    let bytes = tarc_encode(&[("\\d\\bird.type", b"typename Bird\n"), ("\\d\\help.english", b"[A]\nhello")]);
    let a = Archive::parse(bytes).unwrap();
    assert_eq!(a.entries().len(), 2);
    assert_eq!(a.entries()[0].basename(), "bird.type");
    assert_eq!(a.entries()[0].extension(), "type");
    assert_eq!(a.read_text(0), "typename Bird\n");
    assert_eq!(a.find("HELP.ENGLISH"), Some(1));
    assert_eq!(a.read_text(1), "[A]\nhello");
    assert_eq!(a.find("missing"), None);
}

#[test]
fn rejects_bad_magic() {
    assert!(matches!(Archive::parse(b"nope".to_vec()), Err(TarcError::BadMagic)));
}

#[test]
fn tarc_rejects_entry_outside_file() {
    let mut bytes = tarc_encode(&[("a.type", b"x")]);
    let names_off = u32::from_le_bytes(bytes[0x20..0x24].try_into().unwrap()) as usize;
    bytes[names_off + 4..names_off + 8].copy_from_slice(&1000u32.to_le_bytes());
    assert!(matches!(Archive::parse(bytes), Err(TarcError::EntryOutOfFile { entry: 0 })));
}

#[test]
fn read_gives_back_what_encode_wrote() {
    let contents: Vec<u8> = (0..=255u8).collect();
    let bytes = tarc_encode(&[("x/y.bin", &contents), ("empty", b"")]);
    let a = Archive::parse(bytes).unwrap();
    assert_eq!(a.read(0), contents);
    assert_eq!(a.read(1), Vec::<u8>::new());
    assert_eq!(a.entries()[1].name, "empty");
    assert_eq!(a.entries()[0].offset, 0);
    assert_eq!(a.entries()[1].offset, 256);
}

#[test]
fn a_cache_without_every_container_is_refused() {
    let shp = ShapeFile::parse(synthetic(header(2, 2, 0, 0, 0, 0), &[3, 7, 0])).unwrap();
    assert_eq!(shape_index(&shp, &vec![]).unwrap_err(), ShapeIndexError::ContainerCount { expected: 119, found: 1 });
}
