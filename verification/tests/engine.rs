use tangler::{tangle, NameToBody, TangleError};

fn lines(items: &[&str]) -> Vec<String> {
    items.iter().map(|s| s.to_string()).collect()
}

fn registry(blocks: &[(&str, &[&str])]) -> NameToBody {
    let mut registry = NameToBody::new();
    for (name, body) in blocks {
        registry.append(name.to_string(), lines(body));
    }
    registry
}

fn expand(registry: &NameToBody, name: &str, prefix: &str) -> (String, Result<(), TangleError>) {
    let mut out = String::new();
    let result = tangle(&mut out, registry, name, prefix);
    (out, result)
}

#[test]
fn plain_block_is_copied() {
    let reg = registry(&[("main", &["fn main() {\n", "    run();\n", "}\n"])]);
    let (out, result) = expand(&reg, "main", "");
    assert_eq!(result, Ok(()));
    assert_eq!(out, "fn main() {\n    run();\n}\n");
}

#[test]
fn plain_block_loses_the_indent_of_its_first_line() {
    let reg = registry(&[("main", &["  a\n", "    b\n", "  c\n"])]);
    let (out, result) = expand(&reg, "main", "");
    assert_eq!(result, Ok(()));
    assert_eq!(out, "a\n  b\nc\n");
}

#[test]
fn prefix_goes_before_every_plain_line() {
    let reg = registry(&[("main", &["a\n", "b\n"])]);
    let (out, result) = expand(&reg, "main", "> ");
    assert_eq!(result, Ok(()));
    assert_eq!(out, "> a\n> b\n");
}

#[test]
fn empty_body_emits_nothing() {
    let reg = registry(&[("main", &[])]);
    let (out, result) = expand(&reg, "main", "  ");
    assert_eq!(result, Ok(()));
    assert_eq!(out, "");
}

#[test]
fn short_line_is_used_unmodified() {
    let reg = registry(&[("main", &["    deep\n", "\n", "  x", "    y\n"])]);
    let (out, result) = expand(&reg, "main", "");
    assert_eq!(result, Ok(()));
    assert_eq!(out, "deep\n\n  xy\n");
}

#[test]
fn line_as_long_as_the_indent_becomes_empty() {
    let reg = registry(&[("main", &["  a", "zz", "z"])]);
    let (out, result) = expand(&reg, "main", "");
    assert_eq!(result, Ok(()));
    assert_eq!(out, "az");
}

#[test]
fn indent_is_taken_from_the_first_line_only() {
    let reg = registry(&[("main", &["a\n", "    b\n"])]);
    let (out, _) = expand(&reg, "main", "");
    assert_eq!(out, "a\n    b\n");
}

#[test]
fn indent_strips_characters_whatever_they_are() {
    let reg = registry(&[("main", &["  a\n", "xyb\n"])]);
    let (out, _) = expand(&reg, "main", "");
    assert_eq!(out, "a\nb\n");
}

#[test]
fn indent_counts_characters_not_bytes() {
    let reg = registry(&[("main", &["  a\n", "\u{e9}\u{e9}b\n"])]);
    let (out, _) = expand(&reg, "main", "");
    assert_eq!(out, "a\nb\n");
}

#[test]
fn first_line_of_spaces_sets_the_indent() {
    let reg = registry(&[("main", &["   ", "   x", "y"])]);
    let (out, _) = expand(&reg, "main", "");
    assert_eq!(out, "xy");
}

#[test]
fn reference_is_replaced_by_the_block() {
    let reg = registry(&[("outer", &["<<inner>>"]), ("inner", &["x"])]);
    let (out, result) = expand(&reg, "outer", "");
    assert_eq!(result, Ok(()));
    assert_eq!(out, "x");
}

#[test]
fn reference_on_the_first_line_loses_the_body_indent() {
    let reg = registry(&[("outer", &["  <<inner>>"]), ("inner", &["x"])]);
    let (out, result) = expand(&reg, "outer", "");
    assert_eq!(result, Ok(()));
    assert_eq!(out, "x");
}

#[test]
fn leading_fragment_becomes_the_prefix() {
    let reg = registry(&[("outer", &["top\n", "  <<inner>>"]), ("inner", &["x"])]);
    let (out, result) = expand(&reg, "outer", "");
    assert_eq!(result, Ok(()));
    assert_eq!(out, "top\n  x");
}

#[test]
fn leading_fragment_goes_before_every_line_of_the_block() {
    let reg = registry(&[
        ("outer", &["fn f() {\n", "    <<inner>>\n", "}\n"]),
        ("inner", &["a();\n", "b();\n"]),
    ]);
    let (out, result) = expand(&reg, "outer", "");
    assert_eq!(result, Ok(()));
    assert_eq!(out, "fn f() {\n    a();\n    b();\n\n}\n");
}

#[test]
fn trailing_text_is_literal() {
    let reg = registry(&[("outer", &["<<inner>>;"]), ("inner", &["y"])]);
    let (out, result) = expand(&reg, "outer", "");
    assert_eq!(result, Ok(()));
    assert_eq!(out, "y;");
}

#[test]
fn trailing_text_gets_no_prefix() {
    let reg = registry(&[("outer", &["<<inner>>;"]), ("inner", &["y"])]);
    let (out, result) = expand(&reg, "outer", "--");
    assert_eq!(result, Ok(()));
    assert_eq!(out, "--y;");
}

#[test]
fn reference_in_trailing_text_is_not_expanded() {
    let reg = registry(&[("outer", &["<<a>><<b>>"]), ("a", &["1"]), ("b", &["2"])]);
    let (out, result) = expand(&reg, "outer", "");
    assert_eq!(result, Ok(()));
    assert_eq!(out, "1<<b>>");
}

#[test]
fn text_before_a_reference_is_part_of_the_prefix() {
    let reg = registry(&[("outer", &["// <<inner>>"]), ("inner", &["a\n", "b\n"])]);
    let (out, _) = expand(&reg, "outer", "");
    assert_eq!(out, "// a\n// b\n");
}

#[test]
fn prefixes_add_up_through_nested_references() {
    let reg = registry(&[
        ("a", &["a\n", "  <<b>>"]),
        ("b", &["b\n", "  <<c>>"]),
        ("c", &["c\n"]),
    ]);
    let (out, result) = expand(&reg, "a", "");
    assert_eq!(result, Ok(()));
    assert_eq!(out, "a\n  b\n    c\n");
}

#[test]
fn referenced_block_may_be_declared_later() {
    let mut reg = NameToBody::new();
    reg.append("first".to_string(), lines(&["<<second>>"]));
    reg.append("second".to_string(), lines(&["late\n"]));
    let (out, result) = expand(&reg, "first", "");
    assert_eq!(result, Ok(()));
    assert_eq!(out, "late\n");
}

#[test]
fn same_block_may_be_referenced_twice() {
    let reg = registry(&[("outer", &["<<x>>", "<<x>>"]), ("x", &["1"])]);
    let (out, result) = expand(&reg, "outer", "");
    assert_eq!(result, Ok(()));
    assert_eq!(out, "11");
}

#[test]
fn output_goes_behind_what_the_sink_holds() {
    let reg = registry(&[("main", &["b"])]);
    let mut out = String::from("a");
    assert_eq!(tangle(&mut out, &reg, "main", ""), Ok(()));
    assert_eq!(out, "ab");
}

#[test]
fn undefined_root_fails() {
    let reg = registry(&[("main", &["x"])]);
    let (out, result) = expand(&reg, "other", "");
    assert_eq!(result, Err(TangleError::UndefinedMacro("other".to_string())));
    assert_eq!(out, "");
}

#[test]
fn undefined_reference_aborts() {
    let reg = registry(&[("main", &["one\n", "<<missing>>\n", "three\n"])]);
    let (out, result) = expand(&reg, "main", "");
    assert_eq!(result, Err(TangleError::UndefinedMacro("missing".to_string())));
    assert_eq!(out, "one\n");
}

#[test]
fn undefined_reference_deep_inside_aborts() {
    let reg = registry(&[("a", &["1", "<<b>>", "4"]), ("b", &["2", "<<c>>", "3"])]);
    let (out, result) = expand(&reg, "a", "");
    assert_eq!(result, Err(TangleError::UndefinedMacro("c".to_string())));
    assert_eq!(out, "12");
}

#[test]
fn names_are_case_sensitive() {
    let reg = registry(&[("main", &["<<Inner>>"]), ("inner", &["x"])]);
    let (_, result) = expand(&reg, "main", "");
    assert_eq!(result, Err(TangleError::UndefinedMacro("Inner".to_string())));
}

#[test]
fn self_reference_is_cyclic() {
    let reg = registry(&[("a", &["x", "<<a>>"])]);
    let (out, result) = expand(&reg, "a", "");
    assert_eq!(result, Err(TangleError::CyclicMacro("a".to_string())));
    assert_eq!(out, "x");
}

#[test]
fn mutual_reference_is_cyclic() {
    let reg = registry(&[("a", &["<<b>>"]), ("b", &["<<a>>"])]);
    let (_, result) = expand(&reg, "a", "");
    assert_eq!(result, Err(TangleError::CyclicMacro("a".to_string())));
    let (_, result) = expand(&reg, "b", "");
    assert_eq!(result, Err(TangleError::CyclicMacro("b".to_string())));
}

#[test]
fn error_messages_name_the_block() {
    assert_eq!(
        TangleError::UndefinedMacro("x y".to_string()).message(),
        "Macro `x y` is undefined!"
    );
    assert_eq!(
        TangleError::CyclicMacro("loop".to_string()).message(),
        "Macro `loop` refers to itself!"
    );
    assert_eq!(TangleError::UndefinedMacro("x y".to_string()).name(), "x y");
    assert_eq!(TangleError::CyclicMacro("loop".to_string()).name(), "loop");
}
