//! The document model builder: one pass over the tokens of a document fills
//! the two registries.

use vstd::prelude::*;
use vstd::string::StringExecFns;
use crate::option::unwrap_clone;
use crate::reference::{lemma_name_holds_no_closing_pair, pair_at, parse};
use crate::registry::{body_or_empty, lines_view, NameToBody, PathToName};
use crate::text::{
    decimal, decimal_string, lemma_decimal_injective, lemma_decimal_len,
    lemma_trim_starts_with_text, same_text, trim, trim_text,
};

verus! {

/// One argument of a begin directive.
#[derive(Debug, PartialEq, Eq)]
pub struct Argument {
    /// The key, such as `:tangle`.
    pub key: String,
    /// The value that follows the key.
    pub value: String,
}

/// One token of a source element of a document.
#[derive(Debug, PartialEq, Eq)]
pub enum Token {
    /// The text that names the block; white space around it does not count.
    Name(String),
    /// The begin directive with its arguments, in order.
    Begin(Vec<Argument>),
    /// The lines of the block.
    Body(Vec<String>),
    /// Any other token; the builder passes over it.
    Other,
}

/// A token as the builder reads it.
pub enum Element {
    /// The text that names the block.
    Name(Seq<char>),
    /// The arguments of the begin directive as pairs of a key and a value.
    Begin(Seq<(Seq<char>, Seq<char>)>),
    /// The lines of the block.
    Body(Seq<Seq<char>>),
    /// Any other token.
    Other,
}

/// Arguments as pairs of a key and a value.
pub open spec fn arguments_view(arguments: Seq<Argument>) -> Seq<(Seq<char>, Seq<char>)> {
    Seq::new(arguments.len(), |i: int| (arguments[i].key@, arguments[i].value@))
}

impl View for Token {
    type V = Element;

    open spec fn view(&self) -> Element {
        match self {
            Token::Name(text) => Element::Name(text@),
            Token::Begin(arguments) => Element::Begin(arguments_view(arguments@)),
            Token::Body(lines) => Element::Body(lines_view(lines@)),
            Token::Other => Element::Other,
        }
    }
}

/// The tokens of a source element as the builder reads them.
pub open spec fn source_view(tokens: Seq<Token>) -> Seq<Element> {
    Seq::new(tokens.len(), |i: int| tokens[i]@)
}

/// The source elements of a document as the builder reads them.
pub open spec fn document_view(document: Seq<Vec<Token>>) -> Seq<Seq<Element>> {
    Seq::new(document.len(), |i: int| source_view(document[i]@))
}

/// The key of the argument that gives a block its output path.
pub open spec fn tangle_key() -> Seq<char> {
    ":tangle"@
}

/// The name given to the `k`-th block that has an output path and no name
/// of its own.
///
/// A made-up name starts with a space, which the trimmed text of a name
/// token never does, and goes on with `>>`, which the name of a reference
/// never holds. So no block of a document is declared by a made-up name, and
/// no line refers to one.
pub open spec fn auto_name(k: nat) -> Seq<char> {
    " >>"@ + decimal(k)
}

/// The value of the first argument whose key is `:tangle`, if there is one.
pub open spec fn tangle_target(arguments: Seq<(Seq<char>, Seq<char>)>) -> Option<Seq<char>>
    decreases arguments.len(),
{
    if arguments.len() == 0 {
        None
    } else if arguments[0].0 == tangle_key() {
        Some(arguments[0].1)
    } else {
        tangle_target(arguments.drop_first())
    }
}

/// What the builder has gathered from a document.
pub struct Model {
    /// The output paths, in the order of their first declaration.
    pub paths: Seq<Seq<char>>,
    /// The name of the block that seeds each output path.
    pub seeds: Map<Seq<char>, Seq<char>>,
    /// The lines gathered under each block name.
    pub bodies: Map<Seq<char>, Seq<Seq<char>>>,
    /// The number of names that the builder has made up.
    pub counter: nat,
}

/// The builder in the middle of a source element.
pub struct Reading {
    /// What has been gathered.
    pub model: Model,
    /// The name of the block, once it is known.
    pub name: Option<Seq<char>>,
    /// The output path of the block, once it is known.
    pub path: Option<Seq<char>>,
    /// The rest of the source element is passed over.
    pub stopped: bool,
}

/// The model of a document without source elements.
pub open spec fn empty_model() -> Model {
    Model { paths: Seq::empty(), seeds: Map::empty(), bodies: Map::empty(), counter: 0 }
}

/// The builder at the start of a source element.
pub open spec fn start_source(model: Model) -> Reading {
    Reading { model, name: None, path: None, stopped: false }
}

/// The model with `lines` added behind the body of `name`, and with `name`
/// seeding `path` where the block has a path.
pub open spec fn with_block(
    model: Model,
    name: Seq<char>,
    path: Option<Seq<char>>,
    lines: Seq<Seq<char>>,
) -> Model {
    let bodies = model.bodies.insert(name, body_or_empty(model.bodies, name) + lines);
    match path {
        Some(path) => Model {
            paths: if model.seeds.contains_key(path) {
                model.paths
            } else {
                model.paths.push(path)
            },
            seeds: model.seeds.insert(path, name),
            bodies,
            counter: model.counter,
        },
        None => Model { bodies, ..model },
    }
}

/// The builder after one more token.
///
/// A name token names the block. A begin directive gives the block its output
/// path where it has a `:tangle` argument; a block that then has a path and no
/// name gets the next made-up name. A body is gathered under the block's name,
/// and seeds the block's path where it has one; without a name the body is
/// dropped and the rest of the source element is passed over.
pub open spec fn read_token(reading: Reading, token: Element) -> Reading {
    if reading.stopped {
        reading
    } else {
        match token {
            Element::Name(text) => Reading { name: Some(trim(text)), ..reading },
            Element::Begin(arguments) => {
                let path = match tangle_target(arguments) {
                    Some(target) => Some(target),
                    None => reading.path,
                };
                if path is Some && reading.name is None {
                    Reading {
                        model: Model { counter: reading.model.counter + 1, ..reading.model },
                        name: Some(auto_name(reading.model.counter + 1)),
                        path,
                        stopped: false,
                    }
                } else {
                    Reading { path, ..reading }
                }
            },
            Element::Body(lines) => match reading.name {
                Some(name) => Reading {
                    model: with_block(reading.model, name, reading.path, lines),
                    ..reading
                },
                None => Reading { stopped: true, ..reading },
            },
            Element::Other => reading,
        }
    }
}

/// The builder after the tokens `tokens`, read in order.
pub open spec fn read_tokens(reading: Reading, tokens: Seq<Element>) -> Reading
    decreases tokens.len(),
{
    if tokens.len() == 0 {
        reading
    } else {
        read_token(read_tokens(reading, tokens.drop_last()), tokens.last())
    }
}

/// The model after one more source element.
pub open spec fn read_source(model: Model, tokens: Seq<Element>) -> Model {
    read_tokens(start_source(model), tokens).model
}

/// The model of a document: its source elements read in order, starting
/// from nothing.
pub open spec fn build(document: Seq<Seq<Element>>) -> Model
    decreases document.len(),
{
    if document.len() == 0 {
        empty_model()
    } else {
        read_source(build(document.drop_last()), document.last())
    }
}

/// Once the builder passes over the rest of a source element, further
/// tokens change nothing.
pub proof fn lemma_stopped_stays(reading: Reading, tokens: Seq<Element>, j: int, k: int)
    requires
        0 <= j <= k <= tokens.len(),
        read_tokens(reading, tokens.take(j)).stopped,
    ensures
        read_tokens(reading, tokens.take(k)) == read_tokens(reading, tokens.take(j)),
    decreases k - j,
{
    if j < k {
        lemma_stopped_stays(reading, tokens, j, k - 1);
        assert(tokens.take(k).drop_last() =~= tokens.take(k - 1));
    }
}

/// The text that an optional string holds.
pub open spec fn text_of(text: Option<String>) -> Option<Seq<char>> {
    match text {
        Some(text) => Some(text@),
        None => None,
    }
}

/// The model that two registries and a counter stand for.
pub open spec fn model_of(path_to_name: PathToName, name_to_body: NameToBody, counter: usize) -> Model {
    Model {
        paths: path_to_name.paths(),
        seeds: path_to_name@,
        bodies: name_to_body@,
        counter: counter as nat,
    }
}

/// Copies the lines of a body.
fn clone_lines(lines: &Vec<String>) -> (copy: Vec<String>)
    ensures
        copy@ == lines@,
{
    let mut copy: Vec<String> = Vec::new();
    let mut i: usize = 0;
    while i < lines.len()
        invariant
            i <= lines@.len(),
            copy@ == lines@.take(i as int),
        decreases lines@.len() - i,
    {
        copy.push(lines[i].clone());
        i += 1;
    }
    copy
}

/// Finds the value of the first argument whose key is `:tangle`.
fn find_tangle_target(arguments: &Vec<Argument>) -> (target: Option<&str>)
    ensures
        target is Some <==> tangle_target(arguments_view(arguments@)) is Some,
        target matches Some(path) ==> path@ == tangle_target(arguments_view(arguments@))->0,
{
    let ghost pairs = arguments_view(arguments@);
    let mut i: usize = 0;
    assert(pairs.skip(0) =~= pairs);
    while i < arguments.len()
        invariant
            i <= arguments@.len(),
            pairs == arguments_view(arguments@),
            tangle_target(pairs) == tangle_target(pairs.skip(i as int)),
        decreases arguments@.len() - i,
    {
        if same_text(arguments[i].key.as_str(), ":tangle") {
            return Some(arguments[i].value.as_str());
        }
        assert(pairs.skip(i as int).drop_first() =~= pairs.skip(i + 1));
        i += 1;
    }
    None
}

/// Makes up the name of the `k`-th block that has an output path and no name
/// of its own: a name that no name token declares and no line refers to.
pub fn make_auto_name(k: usize) -> (name: String)
    ensures
        name@ == auto_name(k as nat),
        forall|text: Seq<char>| #[trigger] trim(text) != name@,
        forall|line: Seq<char>|
            (#[trigger] parse(line)) matches Some(reference) ==> reference.name != name@,
{
    let mut name = String::from_str(" >>");
    let digits = decimal_string(k);
    name.append(digits.as_str());
    proof {
        assert forall|text: Seq<char>| #[trigger] trim(text) != name@ by {
            lemma_made_up_name_is_not_declared(k as nat, text);
        }
        assert forall|line: Seq<char>|
            (#[trigger] parse(line)) matches Some(reference) ==> reference.name != name@ by {
            lemma_made_up_name_is_not_referred_to(k as nat, line);
        }
    }
    name
}

/// Reads the tokens of one source element into the registries.
fn read_source_into(
    tokens: &Vec<Token>,
    path_to_name: &mut PathToName,
    name_to_body: &mut NameToBody,
    counter: &mut usize,
)
    requires
        *old(counter) < usize::MAX,
    ensures
        model_of(*final(path_to_name), *final(name_to_body), *final(counter)) == read_source(
            model_of(*old(path_to_name), *old(name_to_body), *old(counter)),
            source_view(tokens@),
        ),
        *final(counter) <= *old(counter) + 1,
{
    let ghost elements = source_view(tokens@);
    let ghost start = start_source(model_of(*path_to_name, *name_to_body, *counter));
    let mut name: Option<String> = None;
    let mut path: Option<String> = None;
    let mut j: usize = 0;
    while j < tokens.len()
        invariant_except_break
            !read_tokens(start, elements.take(j as int)).stopped,
        invariant
            j <= tokens@.len(),
            elements == source_view(tokens@),
            start == start_source(model_of(*old(path_to_name), *old(name_to_body), *old(counter))),
            *old(counter) < usize::MAX,
            *counter == *old(counter) || (*counter == *old(counter) + 1 && name is Some),
            read_tokens(start, elements.take(j as int)).model == model_of(
                *path_to_name,
                *name_to_body,
                *counter,
            ),
            read_tokens(start, elements.take(j as int)).name == text_of(name),
            read_tokens(start, elements.take(j as int)).path == text_of(path),
        ensures
            j <= tokens@.len(),
            j < tokens@.len() ==> read_tokens(start, elements.take(j as int)).stopped,
            *counter <= *old(counter) + 1,
            read_tokens(start, elements.take(j as int)).model == model_of(
                *path_to_name,
                *name_to_body,
                *counter,
            ),
        decreases tokens@.len() - j,
    {
        let ghost reading = read_tokens(start, elements.take(j as int));
        proof {
            assert(elements.take(j + 1).drop_last() =~= elements.take(j as int));
            assert(read_tokens(start, elements.take(j + 1)) == read_token(
                reading,
                tokens@[j as int]@,
            ));
        }
        match &tokens[j] {
            Token::Name(text) => {
                name = Some(String::from_str(trim_text(text.as_str())));
            },
            Token::Begin(arguments) => {
                match find_tangle_target(arguments) {
                    Some(target) => {
                        path = Some(String::from_str(target));
                    },
                    None => {},
                }
                if path.is_some() && name.is_none() {
                    *counter = *counter + 1;
                    name = Some(make_auto_name(*counter));
                }
            },
            Token::Body(lines) => {
                if name.is_none() {
                    j += 1;
                    break ;
                }
                name_to_body.append(unwrap_clone(&name), clone_lines(lines));
                if path.is_some() {
                    path_to_name.insert(unwrap_clone(&path), unwrap_clone(&name));
                }
            },
            Token::Other => {},
        }
        j += 1;
    }
    proof {
        if j < tokens@.len() {
            lemma_stopped_stays(start, elements, j as int, elements.len() as int);
        }
        assert(elements.take(elements.len() as int) =~= elements);
    }
}

/// Builds the two registries of a document from its source elements, each
/// given as its tokens in order.
pub fn parse_doc(document: &Vec<Vec<Token>>) -> (registries: (PathToName, NameToBody))
    ensures
        registries.0.paths() == build(document_view(document@)).paths,
        registries.0@ == build(document_view(document@)).seeds,
        registries.1@ == build(document_view(document@)).bodies,
{
    let ghost sources = document_view(document@);
    let mut path_to_name = PathToName::new();
    let mut name_to_body = NameToBody::new();
    let mut counter: usize = 0;
    let mut i: usize = 0;
    while i < document.len()
        invariant
            i <= document@.len(),
            sources == document_view(document@),
            counter <= i,
            model_of(path_to_name, name_to_body, counter) == build(sources.take(i as int)),
        decreases document@.len() - i,
    {
        proof {
            assert(sources.take(i + 1).drop_last() =~= sources.take(i as int));
        }
        read_source_into(&document[i], &mut path_to_name, &mut name_to_body, &mut counter);
        i += 1;
    }
    assert(sources.take(sources.len() as int) =~= sources);
    (path_to_name, name_to_body)
}

/// What holds of every model that the builder makes: the names are finitely
/// many, the listed paths are the seeded paths, each once, and every seed
/// names a block that has a body.
pub open spec fn is_sound(model: Model) -> bool {
    &&& model.bodies.dom().finite()
    &&& forall|i: int| 0 <= i < model.paths.len() ==> model.seeds.contains_key(#[trigger] model.paths[i])
    &&& forall|path: Seq<char>| #[trigger]
        model.seeds.contains_key(path) ==> model.paths.contains(path)
    &&& forall|i: int, j: int|
        0 <= i < j < model.paths.len() ==> #[trigger] model.paths[i] != #[trigger] model.paths[j]
    &&& forall|path: Seq<char>|
        model.seeds.contains_key(path) ==> model.bodies.contains_key(#[trigger] model.seeds[path])
}

/// Gathering a block keeps a model sound.
pub proof fn lemma_with_block_is_sound(
    model: Model,
    name: Seq<char>,
    path: Option<Seq<char>>,
    lines: Seq<Seq<char>>,
)
    requires
        is_sound(model),
    ensures
        is_sound(with_block(model, name, path, lines)),
{
    let after = with_block(model, name, path, lines);
    match path {
        Some(target) => {
            assert forall|p: Seq<char>| #[trigger] after.seeds.contains_key(p) implies after.paths.contains(
                p,
            ) by {
                if p == target {
                    if !model.seeds.contains_key(target) {
                        assert(after.paths[model.paths.len() as int] == target);
                    }
                } else {
                    let i = choose|i: int| 0 <= i < model.paths.len() && model.paths[i] == p;
                    assert(after.paths[i] == p);
                }
            }
        },
        None => {},
    }
}

/// Reading a token keeps a model sound, and makes up one name at most, and
/// that only for a block that had none.
pub proof fn lemma_read_token_is_sound(reading: Reading, token: Element)
    requires
        is_sound(reading.model),
    ensures
        is_sound(read_token(reading, token).model),
        read_token(reading, token).model.counter == reading.model.counter || (reading.name is None
            && read_token(reading, token).name is Some && read_token(reading, token).model.counter
            == reading.model.counter + 1),
        reading.name is Some ==> read_token(reading, token).name is Some,
{
    if !reading.stopped {
        match token {
            Element::Body(lines) => {
                if let Some(name) = reading.name {
                    lemma_with_block_is_sound(reading.model, name, reading.path, lines);
                }
            },
            _ => {},
        }
    }
}

/// Reading the tokens of a source element keeps a model sound, and makes up
/// one name at most.
pub proof fn lemma_read_tokens_is_sound(reading: Reading, tokens: Seq<Element>)
    requires
        is_sound(reading.model),
    ensures
        is_sound(read_tokens(reading, tokens).model),
        read_tokens(reading, tokens).model.counter == reading.model.counter || (reading.name is None
            && read_tokens(reading, tokens).name is Some && read_tokens(
            reading,
            tokens,
        ).model.counter == reading.model.counter + 1),
        reading.name is Some ==> read_tokens(reading, tokens).name is Some,
    decreases tokens.len(),
{
    if tokens.len() > 0 {
        lemma_read_tokens_is_sound(reading, tokens.drop_last());
        lemma_read_token_is_sound(read_tokens(reading, tokens.drop_last()), tokens.last());
    }
}

/// The model of every document is sound, and holds no more made-up names
/// than the document has source elements.
pub proof fn lemma_build_is_sound(document: Seq<Seq<Element>>)
    ensures
        is_sound(build(document)),
        build(document).counter <= document.len(),
    decreases document.len(),
{
    if document.len() > 0 {
        lemma_build_is_sound(document.drop_last());
        lemma_read_tokens_is_sound(start_source(build(document.drop_last())), document.last());
    }
}

/// The tokens of a block with a name of its own.
pub open spec fn named_block(
    text: Seq<char>,
    arguments: Seq<(Seq<char>, Seq<char>)>,
    lines: Seq<Seq<char>>,
) -> Seq<Element> {
    seq![Element::Name(text), Element::Begin(arguments), Element::Body(lines)]
}

/// The tokens of a block without a name of its own.
pub open spec fn anonymous_block(
    arguments: Seq<(Seq<char>, Seq<char>)>,
    lines: Seq<Seq<char>>,
) -> Seq<Element> {
    seq![Element::Begin(arguments), Element::Body(lines)]
}

/// A document with one more source element is read as the document, and
/// then the element.
pub proof fn lemma_build_push(document: Seq<Seq<Element>>, tokens: Seq<Element>)
    ensures
        build(document.push(tokens)) == read_source(build(document), tokens),
{
    assert(document.push(tokens).drop_last() =~= document);
}

/// A named block is gathered under its name, white space around the name
/// left out, and seeds the path that its `:tangle` argument gives.
pub proof fn lemma_read_named_block(
    model: Model,
    text: Seq<char>,
    arguments: Seq<(Seq<char>, Seq<char>)>,
    lines: Seq<Seq<char>>,
)
    ensures
        read_source(model, named_block(text, arguments, lines)) == with_block(
            model,
            trim(text),
            tangle_target(arguments),
            lines,
        ),
{
    let tokens = named_block(text, arguments, lines);
    let start = start_source(model);
    let one = tokens.drop_last().drop_last();
    let two = tokens.drop_last();
    assert(read_tokens(start, one.drop_last()) == start);
    assert(read_tokens(start, two) == read_token(
        read_tokens(start, one),
        Element::Begin(arguments),
    ));
}

/// A block without a name is gathered under the next made-up name where it
/// has a `:tangle` argument, and is dropped where it has none.
pub proof fn lemma_read_anonymous_block(
    model: Model,
    arguments: Seq<(Seq<char>, Seq<char>)>,
    lines: Seq<Seq<char>>,
)
    ensures
        read_source(model, anonymous_block(arguments, lines)) == match tangle_target(arguments) {
            Some(path) => with_block(
                Model { counter: model.counter + 1, ..model },
                auto_name(model.counter + 1),
                Some(path),
                lines,
            ),
            None => model,
        },
{
    let tokens = anonymous_block(arguments, lines);
    let start = start_source(model);
    let one = tokens.drop_last();
    assert(read_tokens(start, one.drop_last()) == start);
    assert(read_tokens(start, one) == read_token(start, Element::Begin(arguments)));
}

/// `token` is a begin directive that gives `path` as output path.
pub open spec fn targets(token: Element, path: Seq<char>) -> bool {
    match token {
        Element::Begin(arguments) => tangle_target(arguments) == Some(path),
        _ => false,
    }
}

/// `token` is a name token for the name `name`.
pub open spec fn names(token: Element, name: Seq<char>) -> bool {
    match token {
        Element::Name(text) => trim(text) == name,
        _ => false,
    }
}

/// No token of the source elements `sources` gives `path` as output path.
pub open spec fn leave_path(sources: Seq<Seq<Element>>, path: Seq<char>) -> bool {
    forall|i: int, j: int|
        0 <= i < sources.len() && 0 <= j < sources[i].len() ==> !targets(
            #[trigger] sources[i][j],
            path,
        )
}

/// No token of the source elements `sources` names a block `name`.
pub open spec fn leave_name(sources: Seq<Seq<Element>>, name: Seq<char>) -> bool {
    forall|i: int, j: int|
        0 <= i < sources.len() && 0 <= j < sources[i].len() ==> !names(
            #[trigger] sources[i][j],
            name,
        )
}

/// Tokens that do not give `path` as output path leave its seed as it is.
pub proof fn lemma_tokens_keep_path(reading: Reading, tokens: Seq<Element>, path: Seq<char>)
    requires
        reading.path != Some(path),
        forall|j: int| 0 <= j < tokens.len() ==> !targets(#[trigger] tokens[j], path),
    ensures
        read_tokens(reading, tokens).path != Some(path),
        read_tokens(reading, tokens).model.seeds.contains_key(path)
            == reading.model.seeds.contains_key(path),
        read_tokens(reading, tokens).model.seeds[path] == reading.model.seeds[path],
    decreases tokens.len(),
{
    if tokens.len() > 0 {
        lemma_tokens_keep_path(reading, tokens.drop_last(), path);
    }
}

/// Tokens that do not name a block `name`, which is no made-up name, leave
/// its body as it is.
pub proof fn lemma_tokens_keep_body(reading: Reading, tokens: Seq<Element>, name: Seq<char>)
    requires
        reading.name != Some(name),
        forall|k: nat| name != #[trigger] auto_name(k),
        forall|j: int| 0 <= j < tokens.len() ==> !names(#[trigger] tokens[j], name),
    ensures
        read_tokens(reading, tokens).name != Some(name),
        read_tokens(reading, tokens).model.bodies.contains_key(name)
            == reading.model.bodies.contains_key(name),
        read_tokens(reading, tokens).model.bodies[name] == reading.model.bodies[name],
    decreases tokens.len(),
{
    if tokens.len() > 0 {
        lemma_tokens_keep_body(reading, tokens.drop_last(), name);
    }
}

/// A document that goes on with source elements is read as the document,
/// and then each of the elements.
pub proof fn lemma_build_add(front: Seq<Seq<Element>>, rest: Seq<Seq<Element>>)
    requires
        rest.len() > 0,
    ensures
        build(front + rest) == read_source(build(front + rest.drop_last()), rest.last()),
{
    assert((front + rest).drop_last() =~= front + rest.drop_last());
}

/// Source elements that do not give `path` as output path leave its seed as
/// it is.
pub proof fn lemma_build_keeps_path(
    front: Seq<Seq<Element>>,
    rest: Seq<Seq<Element>>,
    path: Seq<char>,
)
    requires
        leave_path(rest, path),
    ensures
        build(front + rest).seeds.contains_key(path) == build(front).seeds.contains_key(path),
        build(front + rest).seeds[path] == build(front).seeds[path],
    decreases rest.len(),
{
    if rest.len() == 0 {
    } else {
        let tokens = rest.last();
        lemma_build_keeps_path(front, rest.drop_last(), path);
        lemma_build_add(front, rest);
        lemma_tokens_keep_path(start_source(build(front + rest.drop_last())), tokens, path);
    }
}

/// Source elements that do not name a block `name`, which is no made-up
/// name, leave its body as it is. The trimmed text of a name token is never
/// a made-up name.
pub proof fn lemma_build_keeps_body(
    front: Seq<Seq<Element>>,
    rest: Seq<Seq<Element>>,
    name: Seq<char>,
)
    requires
        leave_name(rest, name),
        forall|k: nat| name != #[trigger] auto_name(k),
    ensures
        build(front + rest).bodies.contains_key(name) == build(front).bodies.contains_key(name),
        build(front + rest).bodies[name] == build(front).bodies[name],
    decreases rest.len(),
{
    if rest.len() == 0 {
    } else {
        let tokens = rest.last();
        lemma_build_keeps_body(front, rest.drop_last(), name);
        lemma_build_add(front, rest);
        lemma_tokens_keep_body(start_source(build(front + rest.drop_last())), tokens, name);
    }
}

/// Made-up names are distinct: each number gives a name of its own.
pub proof fn lemma_auto_name_injective(i: nat, j: nat)
    requires
        auto_name(i) == auto_name(j),
    ensures
        i == j,
{
    let stem = " >>"@;
    assert((stem + decimal(i)).skip(stem.len() as int) =~= decimal(i));
    assert((stem + decimal(j)).skip(stem.len() as int) =~= decimal(j));
    lemma_decimal_injective(i, j);
}

/// A token never takes a made-up name back.
pub proof fn lemma_counter_grows(reading: Reading, tokens: Seq<Element>)
    ensures
        read_tokens(reading, tokens).model.counter >= reading.model.counter,
    decreases tokens.len(),
{
    if tokens.len() > 0 {
        lemma_counter_grows(reading, tokens.drop_last());
    }
}

/// No name token declares a made-up name.
pub proof fn lemma_made_up_name_is_not_declared(k: nat, text: Seq<char>)
    ensures
        trim(text) != auto_name(k),
{
    reveal_strlit(" >>");
    lemma_trim_starts_with_text(text);
    assert(auto_name(k)[0] == ' ');
}

/// No line refers to a made-up name.
pub proof fn lemma_made_up_name_is_not_referred_to(k: nat, line: Seq<char>)
    ensures
        parse(line) matches Some(reference) ==> reference.name != auto_name(k),
{
    reveal_strlit(" >>");
    lemma_decimal_len(k);
    lemma_name_holds_no_closing_pair(line, 1);
    assert(pair_at(auto_name(k), '>', 1));
}

/// The made-up names that a document declares are those that the builder
/// has counted.
pub proof fn lemma_made_up_names_are_counted(document: Seq<Seq<Element>>, k: nat)
    requires
        k > build(document).counter,
    ensures
        !build(document).bodies.contains_key(auto_name(k)),
    decreases document.len(),
{
    if document.len() > 0 {
        let before = build(document.drop_last());
        let start = start_source(before);
        lemma_counter_grows(start, document.last());
        lemma_made_up_names_are_counted(document.drop_last(), k);
        lemma_tokens_count_made_up_names(start, document.last(), k);
    }
}

/// Tokens declare no made-up name beyond those that the builder has
/// counted.
proof fn lemma_tokens_count_made_up_names(reading: Reading, tokens: Seq<Element>, k: nat)
    requires
        k > read_tokens(reading, tokens).model.counter,
        !reading.model.bodies.contains_key(auto_name(k)),
        reading.name != Some(auto_name(k)),
    ensures
        !read_tokens(reading, tokens).model.bodies.contains_key(auto_name(k)),
        read_tokens(reading, tokens).name != Some(auto_name(k)),
    decreases tokens.len(),
{
    if tokens.len() > 0 {
        let before = read_tokens(reading, tokens.drop_last());
        assert(read_token(before, tokens.last()).model.counter >= before.model.counter);
        lemma_tokens_count_made_up_names(reading, tokens.drop_last(), k);
        match tokens.last() {
            Element::Name(text) => {
                lemma_made_up_name_is_not_declared(k, text);
            },
            Element::Begin(arguments) => {
                if k != before.model.counter + 1 {
                    if auto_name(k) == auto_name(before.model.counter + 1) {
                        lemma_auto_name_injective(k, before.model.counter + 1);
                    }
                }
            },
            _ => {},
        }
    }
}

/// Tokens leave the body of a made-up name as it is, once the builder has
/// counted the name and reads another block.
proof fn lemma_tokens_keep_made_up_body(reading: Reading, tokens: Seq<Element>, k: nat)
    requires
        k <= reading.model.counter,
        reading.name != Some(auto_name(k)),
    ensures
        read_tokens(reading, tokens).name != Some(auto_name(k)),
        read_tokens(reading, tokens).model.bodies.contains_key(auto_name(k))
            == reading.model.bodies.contains_key(auto_name(k)),
        read_tokens(reading, tokens).model.bodies[auto_name(k)]
            == reading.model.bodies[auto_name(k)],
    decreases tokens.len(),
{
    if tokens.len() > 0 {
        let before = read_tokens(reading, tokens.drop_last());
        lemma_counter_grows(reading, tokens.drop_last());
        lemma_tokens_keep_made_up_body(reading, tokens.drop_last(), k);
        match tokens.last() {
            Element::Name(text) => {
                lemma_made_up_name_is_not_declared(k, text);
            },
            Element::Begin(arguments) => {
                if auto_name(k) == auto_name(before.model.counter + 1) {
                    lemma_auto_name_injective(k, before.model.counter + 1);
                }
            },
            _ => {},
        }
    }
}

/// Source elements leave the body of a made-up name as it is, once the
/// builder has counted the name.
pub proof fn lemma_build_keeps_made_up_body(
    front: Seq<Seq<Element>>,
    rest: Seq<Seq<Element>>,
    k: nat,
)
    requires
        k <= build(front).counter,
    ensures
        build(front + rest).bodies.contains_key(auto_name(k)) == build(front).bodies.contains_key(
            auto_name(k),
        ),
        build(front + rest).bodies[auto_name(k)] == build(front).bodies[auto_name(k)],
    decreases rest.len(),
{
    if rest.len() == 0 {
        assert(front + rest =~= front);
    } else {
        lemma_build_keeps_made_up_body(front, rest.drop_last(), k);
        lemma_build_add(front, rest);
        lemma_counter_of_rest(front, rest.drop_last());
        lemma_tokens_keep_made_up_body(
            start_source(build(front + rest.drop_last())),
            rest.last(),
            k,
        );
    }
}

/// A document that goes on never holds fewer made-up names than before.
pub proof fn lemma_counter_of_rest(front: Seq<Seq<Element>>, rest: Seq<Seq<Element>>)
    ensures
        build(front + rest).counter >= build(front).counter,
    decreases rest.len(),
{
    if rest.len() == 0 {
        assert(front + rest =~= front);
    } else {
        lemma_counter_of_rest(front, rest.drop_last());
        lemma_build_add(front, rest);
        lemma_counter_grows(start_source(build(front + rest.drop_last())), rest.last());
    }
}

} // verus!
