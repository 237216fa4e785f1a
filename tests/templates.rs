use cghelper::text::{count_char, min_indent};
use cghelper::{BuildArg, Code, SourceLoc};

fn loc(id: usize) -> SourceLoc {
    SourceLoc { line: 10, column: 5, file: "gen.rs", id }
}

fn build(tmpl: &str, args: Vec<BuildArg>) -> Code {
    Code::build(tmpl, loc(0), args).unwrap()
}

#[test]
fn repeated_argument_renders_at_every_use() {
    let c = build("$x, $x!", vec![BuildArg::new("x", "hi")]);
    assert_eq!(c.render(), "hi, hi!");
}

#[test]
fn struct_end_to_end() {
    let pairs = [("uint32_t", "a"), ("char*", "b")];
    let mut parts = Vec::new();
    for (ty, field) in pairs.iter() {
        parts.push(build(
            "$ty $field;\n",
            vec![BuildArg::new("ty", *ty), BuildArg::new("field", *field)],
        ));
    }
    let fields = Code::from_seq(parts);
    let c = build(
        "struct $name {\n    $fields\n};\n",
        vec![BuildArg::new("name", "peaches"), BuildArg::new("fields", fields)],
    );
    // Blank lines are only ever written before a following line of text, so
    // the final newline of the template does not reach the output.
    assert_eq!(c.render(), "struct peaches {\n    uint32_t a;\n    char* b;\n};");
}

#[test]
fn five_blank_lines_collapse_to_two() {
    // At most two line breaks stand between two lines of text.
    let c = build("first\n\n\n\n\n\nsecond", vec![]);
    assert_eq!(c.render(), "first\n\nsecond");
}

#[test]
fn blank_lines_before_closing_brace_collapse_to_one() {
    let c = build("x;\n\n\n\n}", vec![]);
    assert_eq!(c.render(), "x;\n}");
    let d = build("x;\n\n\n\n    y;", vec![]);
    assert_eq!(d.render(), "x;\n\n    y;");
}

#[test]
fn no_blank_line_after_opening_brace_beyond_one() {
    let c = build("if (a) {\n\n\n\nb;\n}", vec![]);
    assert_eq!(c.render(), "if (a) {\nb;\n}");
}

#[test]
fn nested_code_is_indented_to_insertion_column() {
    let body = build("one\ntwo\nthree", vec![]);
    let c = build("  head: $body", vec![BuildArg::new("body", body)]);
    assert_eq!(c.render(), "head: one\n      two\n      three");
}

#[test]
fn missing_argument_is_reported() {
    let r = Code::build("$missing", loc(0), vec![BuildArg::new("other", "x")]);
    assert_eq!(r.err(), Some("missing".to_string()));
}

#[test]
fn unused_argument_is_permitted() {
    let c = build("plain", vec![BuildArg::new("unused", "x")]);
    assert_eq!(c.render(), "plain");
}

#[test]
fn template_is_dedented_by_least_indent() {
    let c = build("\n        if (x) {\n            y;\n        }\n    ", vec![]);
    assert_eq!(c.render(), "if (x) {\n    y;\n}");
}

#[test]
fn blank_lines_do_not_count_for_indent() {
    let c = build("    a\n  \n      b", vec![]);
    assert_eq!(c.render(), "a\n\n  b");
}

#[test]
fn rendering_twice_gives_the_same_text() {
    let c = build("  alpha\n    beta\n", vec![]);
    assert_eq!(c.render(), c.render());
    assert_eq!(c.render(), "alpha\n  beta");
}

#[test]
fn doc_example_nested_body() {
    let body = build(
        "\n    printf(\"a\\n\");\n    printf(\"b\\n\");\n",
        vec![],
    );
    let res = build(
        "\n    if ($cond) {\n        $body\n    }",
        vec![BuildArg::new("cond", "x == 5"), BuildArg::new("body", body)],
    );
    assert_eq!(res.render(), "if (x == 5) {\n    printf(\"a\\n\");\n    printf(\"b\\n\");\n}");
}

#[test]
fn bool_converts_to_literal() {
    let c = build("$t/$f", vec![BuildArg::new("t", true), BuildArg::new("f", false)]);
    assert_eq!(c.render(), "true/false");
}

#[test]
fn runtime_string_is_dedented_without_substitution() {
    let s = String::from("   $keep\n     more  ");
    let c = build("<$s>", vec![BuildArg::new("s", s)]);
    assert_eq!(c.render(), "<$keep\n   more>");
}

#[test]
fn empty_sequence_gives_empty_code() {
    let c = Code::from_seq(Vec::<Code>::new());
    assert_eq!(c.render(), "");
    let mut d = Code::new();
    d.push("x");
    d.push(build("y", vec![]));
    assert_eq!(d.render(), "xy");
}

#[test]
fn empty_and_blank_templates_render_nothing() {
    assert_eq!(build("", vec![]).render(), "");
    assert_eq!(build("   \n\t\n  ", vec![]).render(), "");
}

#[test]
fn min_indent_ignores_blank_lines() {
    let s: Vec<char> = "    a\n      b\n \n  \n".chars().collect();
    assert_eq!(min_indent(&s), 4);
    let blank: Vec<char> = "  \n   \n".chars().collect();
    assert_eq!(min_indent(&blank), usize::MAX);
    assert_eq!(count_char(&s, '\n'), 4);
}

#[test]
fn placeholder_name_stops_at_punctuation() {
    let c = build("[$a_1.$b]", vec![BuildArg::new("a_1", "x"), BuildArg::new("b", 7u8)]);
    assert_eq!(c.render(), "[x.7]");
}
