use boxlayout::text::strip_header_lines;

fn strip(s: &str, n: usize) -> String {
    let out = strip_header_lines(&s.as_bytes().to_vec(), n);
    String::from_utf8(out).unwrap()
}

#[test]
fn drops_the_fixed_header_prefix() {
    let script = "> build\n> step\n\nconst a = 1;\nrender();";
    assert_eq!(strip(script, 3), "const a = 1;\nrender();");
}

#[test]
fn keeps_everything_when_no_lines_are_dropped() {
    assert_eq!(strip("const a = 1;\n", 0), "const a = 1;\n");
}

#[test]
fn too_few_lines_leave_nothing() {
    assert_eq!(strip("one\ntwo", 3), "");
    assert_eq!(strip("", 1), "");
}

#[test]
fn remainder_is_kept_verbatim() {
    assert_eq!(strip("a\nb\nc\nd\ne\n", 2), "c\nd\ne\n");
}
