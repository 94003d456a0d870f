use tangler::{
    parse_doc, tangle_all, Argument, TangleError, TangleFailure, TangleRun, TangledFile, Token,
};

fn lines(items: &[&str]) -> Vec<String> {
    items.iter().map(|s| s.to_string()).collect()
}

fn block(name: Option<&str>, path: Option<&str>, body: &[&str]) -> Vec<Token> {
    let mut tokens = Vec::new();
    if let Some(name) = name {
        tokens.push(Token::Name(name.to_string()));
    }
    let mut arguments = Vec::new();
    if let Some(path) = path {
        arguments.push(Argument { key: ":tangle".to_string(), value: path.to_string() });
    }
    tokens.push(Token::Begin(arguments));
    tokens.push(Token::Body(lines(body)));
    tokens
}

fn run(document: &Vec<Vec<Token>>) -> TangleRun {
    let (paths, bodies) = parse_doc(document);
    tangle_all(&paths, &bodies)
}

fn file(path: &str, content: &str) -> TangledFile {
    TangledFile { path: path.to_string(), content: content.to_string() }
}

#[test]
fn document_without_paths_yields_no_file() {
    let outcome = run(&vec![block(Some("a"), None, &["x"])]);
    assert_eq!(outcome, TangleRun { files: vec![], failure: None });
}

#[test]
fn every_path_yields_one_file() {
    let outcome = run(&vec![
        block(Some("a"), Some("one.txt"), &["1\n"]),
        block(Some("b"), Some("dir/two.txt"), &["2\n"]),
    ]);
    assert_eq!(
        outcome,
        TangleRun { files: vec![file("one.txt", "1\n"), file("dir/two.txt", "2\n")], failure: None }
    );
}

#[test]
fn document_without_references_is_copied() {
    let outcome = run(&vec![
        block(Some("a"), Some("a.txt"), &["  first\n", "    second\n"]),
        block(Some("b"), None, &["not tangled\n"]),
        block(Some("a"), None, &["  third\n"]),
    ]);
    assert_eq!(
        outcome,
        TangleRun { files: vec![file("a.txt", "first\n  second\nthird\n")], failure: None }
    );
}

#[test]
fn references_are_expanded_in_files() {
    let outcome = run(&vec![
        block(Some("main"), Some("main.c"), &["int main() {\n", "  <<body>>\n", "}\n"]),
        block(Some("body"), None, &["return 0;\n"]),
    ]);
    assert_eq!(
        outcome,
        TangleRun {
            files: vec![file("main.c", "int main() {\n  return 0;\n\n}\n")],
            failure: None,
        }
    );
}

#[test]
fn concatenated_body_is_what_gets_expanded() {
    let outcome = run(&vec![
        block(Some("main"), Some("out"), &["<<parts>>"]),
        block(Some("parts"), None, &["1"]),
        block(Some("parts"), None, &["2"]),
    ]);
    assert_eq!(outcome, TangleRun { files: vec![file("out", "12")], failure: None });
}

#[test]
fn block_without_name_is_tangled_like_a_named_one() {
    let unnamed = run(&vec![
        block(Some("part"), None, &["p\n"]),
        block(None, Some("out.txt"), &["a\n", "<<part>>"]),
    ]);
    let named = run(&vec![
        block(Some("part"), None, &["p\n"]),
        block(Some("only here"), Some("out.txt"), &["a\n", "<<part>>"]),
    ]);
    assert_eq!(unnamed, TangleRun { files: vec![file("out.txt", "a\np\n")], failure: None });
    assert_eq!(unnamed, named);
}

#[test]
fn later_block_gives_the_content_of_a_shared_path() {
    let outcome = run(&vec![
        block(Some("first"), Some("out.txt"), &["first\n"]),
        block(Some("second"), Some("out.txt"), &["second\n"]),
    ]);
    assert_eq!(outcome, TangleRun { files: vec![file("out.txt", "second\n")], failure: None });
}

#[test]
fn undefined_reference_stops_the_run() {
    let outcome = run(&vec![
        block(Some("a"), Some("a.txt"), &["fine\n"]),
        block(Some("b"), Some("b.txt"), &["start\n", "<<missing>>\n"]),
        block(Some("c"), Some("c.txt"), &["never\n"]),
    ]);
    assert_eq!(
        outcome,
        TangleRun {
            files: vec![file("a.txt", "fine\n")],
            failure: Some(TangleFailure {
                path: "b.txt".to_string(),
                error: TangleError::UndefinedMacro("missing".to_string()),
            }),
        }
    );
}

#[test]
fn failure_at_the_first_path_yields_no_file() {
    let outcome = run(&vec![
        block(Some("a"), Some("a.txt"), &["<<a>>"]),
        block(Some("b"), Some("b.txt"), &["fine\n"]),
    ]);
    assert_eq!(
        outcome,
        TangleRun {
            files: vec![],
            failure: Some(TangleFailure {
                path: "a.txt".to_string(),
                error: TangleError::CyclicMacro("a".to_string()),
            }),
        }
    );
}

#[test]
fn files_do_not_depend_on_each_other() {
    let both = run(&vec![
        block(Some("a"), Some("a.txt"), &["<<shared>>", "a\n"]),
        block(Some("b"), Some("b.txt"), &["<<shared>>", "b\n"]),
        block(Some("shared"), None, &["s\n"]),
    ]);
    let swapped = run(&vec![
        block(Some("b"), Some("b.txt"), &["<<shared>>", "b\n"]),
        block(Some("a"), Some("a.txt"), &["<<shared>>", "a\n"]),
        block(Some("shared"), None, &["s\n"]),
    ]);
    assert_eq!(both.files, vec![file("a.txt", "s\na\n"), file("b.txt", "s\nb\n")]);
    assert_eq!(swapped.files, vec![file("b.txt", "s\nb\n"), file("a.txt", "s\na\n")]);
}

#[test]
fn block_without_name_amid_others_is_tangled_like_a_named_one() {
    let unnamed = run(&vec![
        block(None, Some("zero.txt"), &["0\n"]),
        block(Some("part"), None, &["  p\n", "  q\n"]),
        block(None, Some("one.txt"), &["a\n", "  <<part>>", "z\n"]),
        block(None, Some("two.txt"), &["<<part>>"]),
        block(Some("part"), None, &["  r\n"]),
    ]);
    let named = run(&vec![
        block(None, Some("zero.txt"), &["0\n"]),
        block(Some("part"), None, &["  p\n", "  q\n"]),
        block(Some("only here"), Some("one.txt"), &["a\n", "  <<part>>", "z\n"]),
        block(None, Some("two.txt"), &["<<part>>"]),
        block(Some("part"), None, &["  r\n"]),
    ]);
    assert_eq!(
        unnamed,
        TangleRun {
            files: vec![
                file("zero.txt", "0\n"),
                file("one.txt", "a\n  p\n  q\n  r\nz\n"),
                file("two.txt", "p\nq\nr\n"),
            ],
            failure: None,
        }
    );
    assert_eq!(unnamed, named);
}

#[test]
fn last_declaration_of_a_path_counts_among_other_blocks() {
    let outcome = run(&vec![
        block(Some("first"), Some("out.txt"), &["first\n"]),
        block(Some("other"), Some("other.txt"), &["other\n"]),
        block(Some("second"), Some("out.txt"), &["second\n"]),
        block(Some("first"), None, &["more\n"]),
    ]);
    assert_eq!(
        outcome,
        TangleRun {
            files: vec![file("out.txt", "second\n"), file("other.txt", "other\n")],
            failure: None,
        }
    );
}

#[test]
fn made_up_name_cannot_be_referred_to() {
    let outcome = run(&vec![
        block(None, Some("a.txt"), &["a\n"]),
        block(Some("b"), Some("b.txt"), &["<< >>1>>", "b\n"]),
    ]);
    assert_eq!(
        outcome,
        TangleRun {
            files: vec![file("a.txt", "a\n")],
            failure: Some(TangleFailure {
                path: "b.txt".to_string(),
                error: TangleError::UndefinedMacro(" ".to_string()),
            }),
        }
    );
}

#[test]
fn nameless_block_is_tangled_alone_whatever_the_document_declares() {
    let unnamed = run(&vec![
        block(Some("__auto__1"), None, &["z"]),
        block(Some(" >>1"), None, &["y"]),
        block(None, Some("o.txt"), &["x"]),
    ]);
    let named = run(&vec![
        block(Some("__auto__1"), None, &["z"]),
        block(Some(" >>1"), None, &["y"]),
        block(Some("u"), Some("o.txt"), &["x"]),
    ]);
    assert_eq!(unnamed, TangleRun { files: vec![file("o.txt", "x")], failure: None });
    assert_eq!(unnamed, named);
}
