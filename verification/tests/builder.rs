use tangler::document::make_auto_name;
use tangler::{parse_doc, Argument, NameToBody, PathToName, Token};

fn lines(items: &[&str]) -> Vec<String> {
    items.iter().map(|s| s.to_string()).collect()
}

fn name(text: &str) -> Token {
    Token::Name(text.to_string())
}

fn begin(arguments: &[(&str, &str)]) -> Token {
    Token::Begin(
        arguments
            .iter()
            .map(|(key, value)| Argument { key: key.to_string(), value: value.to_string() })
            .collect(),
    )
}

fn body(items: &[&str]) -> Token {
    Token::Body(lines(items))
}

fn seeds_of(registry: &PathToName) -> Vec<(String, String)> {
    let mut seeds = Vec::new();
    let mut i = 0;
    while i < registry.len() {
        let (path, name) = registry.entry(i);
        seeds.push((path.to_string(), name.to_string()));
        i += 1;
    }
    seeds
}

fn seeds(items: &[(&str, &str)]) -> Vec<(String, String)> {
    items.iter().map(|(path, name)| (path.to_string(), name.to_string())).collect()
}

fn body_of(registry: &NameToBody, name: &str) -> Option<Vec<String>> {
    registry.get(name).cloned()
}

#[test]
fn empty_document_gives_empty_registries() {
    let (paths, bodies) = parse_doc(&vec![]);
    assert_eq!(paths.len(), 0);
    assert_eq!(bodies.len(), 0);
}

#[test]
fn named_block_is_gathered_under_its_name() {
    let (paths, bodies) = parse_doc(&vec![vec![name("main"), begin(&[]), body(&["a\n", "b\n"])]]);
    assert_eq!(paths.len(), 0);
    assert_eq!(bodies.len(), 1);
    assert_eq!(body_of(&bodies, "main"), Some(lines(&["a\n", "b\n"])));
}

#[test]
fn name_is_trimmed() {
    let (_, bodies) = parse_doc(&vec![vec![name("  main loop \n"), begin(&[]), body(&["a"])]]);
    assert_eq!(body_of(&bodies, "main loop"), Some(lines(&["a"])));
    assert_eq!(body_of(&bodies, "  main loop \n"), None);
}

#[test]
fn blocks_of_one_name_are_concatenated() {
    let (_, bodies) = parse_doc(&vec![
        vec![name("x"), begin(&[]), body(&["1", "2"])],
        vec![name("y"), begin(&[]), body(&["other"])],
        vec![name("x"), begin(&[]), body(&["3"])],
    ]);
    assert_eq!(bodies.len(), 2);
    assert_eq!(body_of(&bodies, "x"), Some(lines(&["1", "2", "3"])));
    assert_eq!(body_of(&bodies, "y"), Some(lines(&["other"])));
}

#[test]
fn tangle_argument_declares_the_path() {
    let (paths, bodies) =
        parse_doc(&vec![vec![name("main"), begin(&[(":tangle", "src/main.rs")]), body(&["a"])]]);
    assert_eq!(seeds_of(&paths), seeds(&[("src/main.rs", "main")]));
    assert_eq!(body_of(&bodies, "main"), Some(lines(&["a"])));
}

#[test]
fn other_arguments_are_ignored() {
    let (paths, bodies) = parse_doc(&vec![vec![
        name("main"),
        begin(&[(":exports", "none"), (":tangle", "out.txt"), (":noweb", "yes")]),
        body(&["a"]),
    ]]);
    assert_eq!(seeds_of(&paths), seeds(&[("out.txt", "main")]));
    assert_eq!(body_of(&bodies, "main"), Some(lines(&["a"])));
    let (paths, bodies) =
        parse_doc(&vec![vec![name("main"), begin(&[(":exports", "none")]), body(&["a"])]]);
    assert_eq!(paths.len(), 0);
    assert_eq!(body_of(&bodies, "main"), Some(lines(&["a"])));
}

#[test]
fn first_tangle_argument_counts() {
    let (paths, _) = parse_doc(&vec![vec![
        name("main"),
        begin(&[(":tangle", "one"), (":tangle", "two")]),
        body(&["a"]),
    ]]);
    assert_eq!(seeds_of(&paths), seeds(&[("one", "main")]));
}

#[test]
fn tangle_key_is_matched_exactly() {
    let (paths, _) = parse_doc(&vec![vec![
        name("main"),
        begin(&[("tangle", "one"), (":Tangle", "two"), (":tangle ", "three")]),
        body(&["a"]),
    ]]);
    assert_eq!(paths.len(), 0);
}

#[test]
fn block_without_name_and_path_is_dropped() {
    let (paths, bodies) = parse_doc(&vec![vec![begin(&[(":exports", "none")]), body(&["a"])]]);
    assert_eq!(paths.len(), 0);
    assert_eq!(bodies.len(), 0);
}

#[test]
fn rest_of_a_dropped_element_is_passed_over() {
    let (paths, bodies) = parse_doc(&vec![
        vec![body(&["a"]), name("late"), begin(&[(":tangle", "p")]), body(&["b"])],
        vec![name("next"), begin(&[]), body(&["c"])],
    ]);
    assert_eq!(paths.len(), 0);
    assert_eq!(bodies.len(), 1);
    assert_eq!(body_of(&bodies, "next"), Some(lines(&["c"])));
}

#[test]
fn block_with_path_and_no_name_gets_a_name() {
    let (paths, bodies) = parse_doc(&vec![vec![begin(&[(":tangle", "out.txt")]), body(&["a"])]]);
    assert_eq!(seeds_of(&paths), seeds(&[("out.txt", " >>1")]));
    assert_eq!(body_of(&bodies, " >>1"), Some(lines(&["a"])));
}

#[test]
fn made_up_names_are_numbered_in_order() {
    let (paths, bodies) = parse_doc(&vec![
        vec![begin(&[(":tangle", "one")]), body(&["a"])],
        vec![name("named"), begin(&[(":tangle", "two")]), body(&["b"])],
        vec![begin(&[]), body(&["dropped"])],
        vec![begin(&[(":tangle", "three")]), body(&["c"])],
    ]);
    assert_eq!(
        seeds_of(&paths),
        seeds(&[("one", " >>1"), ("two", "named"), ("three", " >>2")])
    );
    assert_eq!(bodies.len(), 3);
    assert_eq!(body_of(&bodies, " >>1"), Some(lines(&["a"])));
    assert_eq!(body_of(&bodies, " >>2"), Some(lines(&["c"])));
    assert_eq!(body_of(&bodies, "named"), Some(lines(&["b"])));
}

#[test]
fn made_up_names_hold_the_number_in_decimal() {
    assert_eq!(make_auto_name(1), " >>1");
    assert_eq!(make_auto_name(12), " >>12");
    assert_eq!(make_auto_name(305), " >>305");
}

#[test]
fn later_block_takes_the_path() {
    let (paths, bodies) = parse_doc(&vec![
        vec![name("first"), begin(&[(":tangle", "out.txt")]), body(&["1"])],
        vec![name("second"), begin(&[(":tangle", "out.txt")]), body(&["2"])],
    ]);
    assert_eq!(seeds_of(&paths), seeds(&[("out.txt", "second")]));
    assert_eq!(body_of(&bodies, "first"), Some(lines(&["1"])));
    assert_eq!(body_of(&bodies, "second"), Some(lines(&["2"])));
}

#[test]
fn paths_keep_the_order_of_their_first_declaration() {
    let (paths, _) = parse_doc(&vec![
        vec![name("a"), begin(&[(":tangle", "one")]), body(&["1"])],
        vec![name("b"), begin(&[(":tangle", "two")]), body(&["2"])],
        vec![name("c"), begin(&[(":tangle", "one")]), body(&["3"])],
    ]);
    assert_eq!(seeds_of(&paths), seeds(&[("one", "c"), ("two", "b")]));
}

#[test]
fn block_without_body_declares_nothing() {
    let (paths, bodies) = parse_doc(&vec![vec![name("a"), begin(&[(":tangle", "one")])]]);
    assert_eq!(paths.len(), 0);
    assert_eq!(bodies.len(), 0);
}

#[test]
fn other_tokens_are_passed_over() {
    let (paths, bodies) = parse_doc(&vec![vec![
        Token::Other,
        name("a"),
        Token::Other,
        begin(&[(":tangle", "one")]),
        Token::Other,
        body(&["1"]),
        Token::Other,
    ]]);
    assert_eq!(seeds_of(&paths), seeds(&[("one", "a")]));
    assert_eq!(body_of(&bodies, "a"), Some(lines(&["1"])));
}

#[test]
fn name_after_the_begin_directive_replaces_a_made_up_name() {
    let (paths, bodies) = parse_doc(&vec![
        vec![begin(&[(":tangle", "one")]), name("late"), body(&["1"])],
        vec![begin(&[(":tangle", "two")]), body(&["2"])],
    ]);
    assert_eq!(seeds_of(&paths), seeds(&[("one", "late"), ("two", " >>2")]));
    assert_eq!(body_of(&bodies, "late"), Some(lines(&["1"])));
    assert_eq!(body_of(&bodies, " >>1"), None);
}

#[test]
fn name_and_path_do_not_carry_over_to_the_next_element() {
    let (paths, bodies) = parse_doc(&vec![
        vec![name("a"), begin(&[(":tangle", "one")]), body(&["1"])],
        vec![begin(&[]), body(&["2"])],
        vec![name("b"), begin(&[]), body(&["3"])],
    ]);
    assert_eq!(seeds_of(&paths), seeds(&[("one", "a")]));
    assert_eq!(bodies.len(), 2);
    assert_eq!(body_of(&bodies, "a"), Some(lines(&["1"])));
    assert_eq!(body_of(&bodies, "b"), Some(lines(&["3"])));
}

#[test]
fn input_is_left_as_it_was() {
    let document = vec![vec![name("a"), begin(&[(":tangle", "one")]), body(&["1"])]];
    let _ = parse_doc(&document);
    assert_eq!(document, vec![vec![name("a"), begin(&[(":tangle", "one")]), body(&["1"])]]);
}

#[test]
fn made_up_name_is_no_declared_name() {
    let (paths, bodies) = parse_doc(&vec![
        vec![name(" >>1"), begin(&[]), body(&["z"])],
        vec![name("__auto__1"), begin(&[]), body(&["y"])],
        vec![begin(&[(":tangle", "o.txt")]), body(&["x"])],
        vec![name(" >>1 "), begin(&[]), body(&["w"])],
    ]);
    assert_eq!(seeds_of(&paths), seeds(&[("o.txt", " >>1")]));
    assert_eq!(bodies.len(), 3);
    assert_eq!(body_of(&bodies, " >>1"), Some(lines(&["x"])));
    assert_eq!(body_of(&bodies, ">>1"), Some(lines(&["z", "w"])));
    assert_eq!(body_of(&bodies, "__auto__1"), Some(lines(&["y"])));
}
