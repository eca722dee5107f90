use islefall::shapes::{expected_entries, has_shadow_block};
use islefall::typefile::{self, parse, ImageRef};

const GOLEM: &str = r#"typename sunwalker constructor
typeflags walker shadow;
{
	description="Golem";   // trailing comment
	maxHitPoints = 50;
	speed = 1.8;
	turningSpeed = 99999.0;
//	activeSound = "moveBeetle.wav";
	hotfootratiox = 0.5;
}

// NORTH
A00 : : "golem.gif" #64 : "s_golem.gif" #64;
A05 : default gumpframe : "golem.gif" #69 : "s_golem.gif" #69;
AA01 : : "golem.gif" #70;
"#;

/// Values are kept as written: a quoted string keeps its quotes, and a
/// number is read by the caller.
#[test]
fn parses_golem() {
    let t = parse(GOLEM).unwrap();
    assert_eq!(t.name, "sunwalker");
    assert_eq!(t.modifiers, vec!["constructor"]);
    assert!(t.has_flag("shadow"));
    assert!(!t.has_flag("bomb"));
    assert_eq!(t.get("description"), Some("\"Golem\""));
    assert_eq!(t.get_i64("maxHitPoints"), Some(50));
    assert_eq!(t.get("speed").map(|v| v.parse::<f64>()), Some(Ok(1.8)));
    assert_eq!(t.get("maxHitPoints").map(|v| v.parse::<f64>()), Some(Ok(50.0)));
    assert_eq!(t.get("hotFootRatioX").map(|v| v.parse::<f64>()), Some(Ok(0.5)));
    assert_eq!(t.get("activeSound"), None);
    assert_eq!(t.frames.len(), 3);
    let f = &t.frames[1];
    assert_eq!((f.label.as_str(), f.animation.as_str(), f.number), ("A05", "A", 5));
    assert!(f.has_flag("default") && f.has_flag("GumpFrame"));
    assert_eq!(f.image().unwrap(), &ImageRef { file: "golem.gif".into(), index: 69 });
    assert_eq!(f.shadow().unwrap().file, "s_golem.gif");
    assert_eq!(t.frames[2].animation, "AA");
    assert!(t.frames[2].shadow().is_none());
    assert_eq!(t.animations(), vec!["A", "AA"]);
    assert_eq!(t.animation("a").len(), 2);
    assert_eq!(t.image_files(), vec!["golem.gif", "s_golem.gif"]);
}

#[test]
fn empty_typeflags_and_multiline_statement() {
    let t = parse("typename x\ntypeflags ;\n{\n a = 1\n ;\n}\nP01 : solid dirt :\n \"a.gif\" #2;\n").unwrap();
    assert!(t.flags.is_empty());
    assert_eq!(t.get_i64("a"), Some(1));
    assert_eq!(t.frames[0].flags, vec!["solid", "dirt"]);
}

#[test]
fn errors_carry_line_numbers() {
    let e = parse("typename x\n{\n oops;\n}\n").unwrap_err();
    assert_eq!(e.line, 3);
    let e = parse("typename x\nA0x : : \"a.gif\" #1;\n").unwrap_err();
    assert_eq!(e.line, 2);
    assert!(parse("typeflags a;\n").is_err());
    assert!(parse("typename x\n{\n").is_err());
}

#[test]
fn each_error_names_its_cause() {
    let msg = |text: &str| parse(text).unwrap_err();
    let e = msg("typename x\n{\n oops;\n}\n");
    assert_eq!(e.message, "expected 'key = value', got 'oops'");
    let e = msg("typename x\nA0x : : \"a.gif\" #1;\n");
    assert_eq!(e.message, "bad frame label 'A0x'");
    let e = msg("typename x\nA01 : \"a.gif\" #1;\n");
    assert_eq!(e.message, "expected a frame definition, got 'A01 : \"a.gif\" #1'");
    let e = msg("typename x\nA01 : : \"a.gif\" 1;\n");
    assert_eq!(e.message, "expected '\"file\" #n', got '\"a.gif\" 1'");
    let e = msg("typename x\nA01 : : \"a.gif\" #b;\n");
    assert_eq!(e.message, "bad frame index in '\"a.gif\" #b'");
    let e = msg("typenamex\n");
    assert_eq!((e.line, e.message.as_str()), (1, "expected whitespace after typename"));
    let e = msg("typename \n");
    assert_eq!((e.line, e.message.as_str()), (1, "expected whitespace after typename"));
    let e = msg("typename x\n{\n{\n");
    assert_eq!((e.line, e.message.as_str()), (3, "nested '{'"));
    let e = msg("typename x\n}\n");
    assert_eq!((e.line, e.message.as_str()), (2, "'}' without '{'"));
    let e = msg("typename x\n\nA01 : : \"a.gif\" #1\n\n");
    assert_eq!((e.line, e.message.as_str()), (3, "statement without ';'"));
    let e = msg("typename x\n{\n a = 1;\n\n");
    assert_eq!((e.line, e.message.as_str()), (4, "missing '}'"));
    let e = msg("// nothing\n");
    assert_eq!((e.line, e.message.as_str()), (1, "no typename"));
}

#[test]
fn quotes_hide_separators_and_comments() {
    let t = parse("typename x // the name\n{\n note = \"a;b // c\";\n}\nA1 : : \"x:y#.gif\" #3;\n").unwrap();
    assert_eq!(t.get("NOTE"), Some("\"a;b // c\""));
    assert_eq!(t.frames[0].images, vec![ImageRef { file: "x:y#.gif".into(), index: 3 }]);
    assert_eq!(t.frames[0].number, 1);
}

#[test]
fn image_files_ignore_case_and_keep_first_spelling() {
    let t = parse("typename x\nA1 : : \"Golem.gif\" #1 : \"s.gif\" #1;\nB1 : : \"golem.GIF\" #2;\nB2 : : \"b.gif\" #2;\n").unwrap();
    assert_eq!(t.image_files(), vec!["Golem.gif", "s.gif", "b.gif"]);
    assert_eq!(t.animations(), vec!["A", "B"]);
    assert_eq!(t.animation("b").iter().map(|f| f.number).collect::<Vec<_>>(), vec![1, 2]);
}

#[test]
fn the_first_matching_property_wins() {
    let t = parse("typename x\n{\n Speed = 2;\n speed = 3;\n name = golem;\n}\n").unwrap();
    assert_eq!(t.get_i64("SPEED"), Some(2));
    assert_eq!(t.get("name"), Some("golem"));
    assert_eq!(t.get_i64("name"), None);
    assert_eq!(t.properties.len(), 3);
}

#[test]
fn shadow_blocks_double_the_entries() {
    let t = parse(GOLEM).unwrap();
    assert!(has_shadow_block(&t));
    assert_eq!(expected_entries(&t), 6);
    let flyer = parse("typename f\ntypeflags FlyerShadow;\nA1 : : \"a.gif\" #1;\n").unwrap();
    assert!(has_shadow_block(&flyer));
    let plain = parse("typename x\nA1 : : \"a.gif\" #1;\n").unwrap();
    assert!(!has_shadow_block(&plain));
    assert_eq!(expected_entries(&plain), 1);
}

#[test]
fn string_properties_lose_their_quotes_and_numbers_are_no_strings() {
    let t = typefile::parse("typename x\ntypeflags a;\n{\n description = \"Stone Golem\";\n theme = sun;\n speed = 1.8;\n cost = 20;\n big = 1e5;\n odd = -inf;\n}\nA00 : : \"a.gif\" #0;\n").unwrap();
    assert_eq!(t.get_str("description").as_deref(), Some("Stone Golem"));
    assert_eq!(t.get_str("THEME").as_deref(), Some("sun"), "bare words are strings, keys match in any case");
    assert_eq!(t.get_str("speed"), None, "a float is no string");
    assert_eq!(t.get_str("cost"), None, "a whole number is no string");
    assert_eq!(t.get_str("big"), None);
    assert_eq!(t.get_str("odd"), None, "infinity reads as a float");
    assert_eq!(t.get_str("missing"), None);
}

#[test]
fn float_text_follows_the_float_grammar() {
    let f = |s: &str| typefile::is_float_text(&s.chars().collect::<Vec<char>>());
    for s in ["1", "1.5", ".5", "5.", "-2.5e3", "+1E-2", "inf", "-Infinity", "NaN", "007"] {
        assert!(f(s), "{s} is a float");
        assert_eq!(s.parse::<f64>().is_ok(), true, "{s}");
    }
    for s in ["", ".", "e5", "1e", "1.2.3", "abc", "1e+", "--1", "infinit", "0x10"] {
        assert!(!f(s), "{s} is no float");
        assert_eq!(s.parse::<f64>().is_ok(), false, "{s}");
    }
}
