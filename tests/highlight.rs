use cghelper::colours::{map_to_colour, Highlight, Ink, Registry};
use cghelper::{BuildArg, Code, SourceLoc};

fn loc(id: usize) -> SourceLoc {
    SourceLoc { line: 10 * id as u32, column: 3, file: "gen.rs", id }
}

fn strip_escapes(s: &str) -> String {
    let mut out = String::new();
    let mut in_escape = false;
    for c in s.chars() {
        if in_escape {
            if c == 'm' {
                in_escape = false;
            }
        } else if c == '\u{1b}' {
            in_escape = true;
        } else {
            out.push(c);
        }
    }
    out
}

fn two_location_code() -> Code {
    let inner = Code::build("hi", loc(1), vec![]).unwrap();
    Code::build("a $x", loc(2), vec![BuildArg::new("x", inner)]).unwrap()
}

#[test]
fn legend_lists_two_locations_with_distinct_colours() {
    let c = two_location_code();
    let mut reg = Registry::new();
    let out = c.render_marked(&mut reg);
    let legend = "\u{1b}[1m\n  LEGEND\u{1b}[0m\n    \u{1b}[48;5;1;30mgen.rs:20:3\u{1b}[0m\n    \u{1b}[48;5;2;30mgen.rs:10:3\u{1b}[0m";
    assert!(out.ends_with(legend), "{:?}", out);
    assert_eq!(out.matches("gen.rs:").count(), 2);
    assert_eq!(strip_escapes(&out), "a hi\n  LEGEND\n    gen.rs:20:3\n    gen.rs:10:3");
}

#[test]
fn legend_colours_are_stable_across_renders() {
    let c = two_location_code();
    let mut reg = Registry::new();
    let first = c.render_marked(&mut reg);
    let second = c.render_marked(&mut reg);
    assert_eq!(first, second);
    let mut fresh = Registry::new();
    assert_eq!(c.render_marked(&mut fresh), first);
}

#[test]
fn marked_rendering_keeps_the_plain_text() {
    let body = Code::build("one\ntwo", loc(3), vec![]).unwrap();
    let c = Code::build("{\n    $b\n}", loc(4), vec![BuildArg::new("b", body)]).unwrap();
    let mut reg = Registry::new();
    let out = c.render_marked(&mut reg);
    let text = strip_escapes(&out);
    assert!(text.starts_with(&c.render()), "{:?}", text);
    assert_eq!(c.render(), "{\n    one\n    two\n}");
}

#[test]
fn registry_hands_out_colours_in_order_of_first_use() {
    let mut reg = Registry::new();
    assert_eq!(reg.colour_of(7), 0);
    assert_eq!(reg.colour_of(3), 1);
    assert_eq!(reg.colour_of(7), 0);
    assert_eq!(reg.colour_of(9), 2);
}

#[test]
fn palette_styles() {
    let first = map_to_colour(0);
    assert_eq!(first, Highlight { foreground: Some(Ink::Black), background: Some(1), bold: false, underline: false });
    let white = map_to_colour(20);
    assert_eq!(white, Highlight { foreground: Some(Ink::White), background: Some(22), bold: false, underline: false });
    let dark = map_to_colour(13);
    assert_eq!(dark.background, Some(34));
    assert_eq!(dark.foreground, Some(Ink::Black));
    assert_eq!(map_to_colour(229), first);
}

#[test]
fn colour_test() {
    let mut reg = Registry::new();
    for i in 0..229 {
        let c = Code::build("Hello, World!", loc(i), vec![]).unwrap();
        let out = c.render_marked(&mut reg);
        println!("{}", out);
        assert!(strip_escapes(&out).starts_with("Hello, World!"));
    }
}

#[test]
fn integers_convert_to_decimal_text() {
    let c = Code::build(
        "$a $b $c $d $e",
        loc(0),
        vec![
            BuildArg::new("a", 42u32),
            BuildArg::new("b", -17i64),
            BuildArg::new("c", i64::MIN),
            BuildArg::new("d", 0u8),
            BuildArg::new("e", u64::MAX),
        ],
    )
    .unwrap();
    assert_eq!(c.render(), "42 -17 -9223372036854775808 0 18446744073709551615");
}
