use tangler::parse_reference;
use tangler::reference::MacroReference;

fn parts(line: &str) -> Option<(String, String, String)> {
    parse_reference(line).map(|r: MacroReference| {
        (r.leading.to_string(), r.name.to_string(), r.trailing.to_string())
    })
}

fn some(leading: &str, name: &str, trailing: &str) -> Option<(String, String, String)> {
    Some((leading.to_string(), name.to_string(), trailing.to_string()))
}

#[test]
fn bare_reference() {
    assert_eq!(parts("<<inner>>"), some("", "inner", ""));
}

#[test]
fn reference_with_both_fragments() {
    assert_eq!(parts("  <<inner>>;\n"), some("  ", "inner", ";\n"));
}

#[test]
fn name_may_hold_spaces() {
    assert_eq!(parts("<<the main loop>>"), some("", "the main loop", ""));
}

#[test]
fn first_opening_pair_counts() {
    assert_eq!(parts("a<<b>>c<<d>>e"), some("a", "b", "c<<d>>e"));
}

#[test]
fn first_closing_pair_counts() {
    assert_eq!(parts("<<a>>>"), some("", "a", ">"));
    assert_eq!(parts("<<<a>>"), some("", "<a", ""));
}

#[test]
fn line_without_reference() {
    assert_eq!(parts(""), None);
    assert_eq!(parts("plain text"), None);
    assert_eq!(parts("a < b > c"), None);
    assert_eq!(parts("<<open"), None);
    assert_eq!(parts("close>>"), None);
    assert_eq!(parts(">>a<<"), None);
    assert_eq!(parts("<"), None);
    assert_eq!(parts("<<"), None);
    assert_eq!(parts("<<>"), None);
}

#[test]
fn empty_name_is_no_reference() {
    assert_eq!(parts("<<>>"), None);
    assert_eq!(parts("<<>>a>>"), None);
}

#[test]
fn single_angle_inside_a_name() {
    assert_eq!(parts("<<a>b>>"), some("", "a>b", ""));
}

#[test]
fn fragments_may_hold_any_characters() {
    assert_eq!(parts("\u{e9}\t<<\u{4e2d}>>\u{1f600}"), some("\u{e9}\t", "\u{4e2d}", "\u{1f600}"));
}
