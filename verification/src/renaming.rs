//! Two documents that differ in one block, written once without a name and
//! once with one, are read into models that differ by a renaming of blocks.
//!
//! The block without a name takes the made-up name numbered `first`, so every
//! made-up name after it is numbered one higher than in the document where
//! the block has the name `given`.

use vstd::prelude::*;
use crate::document::{
    auto_name, build, is_sound, lemma_auto_name_injective, lemma_build_add, lemma_counter_grows,
    read_token, read_tokens, start_source, with_block, Element, Model, Reading,
};
use crate::laws::{agree_outside, avoids, lemma_body_agrees, lemma_expand_agrees};
use crate::tangle::tangle_file;
use crate::text::trim;

verus! {

/// `name` is a made-up name with a number from `first` to `last`.
pub open spec fn is_made_up(name: Seq<char>, first: nat, last: nat) -> bool {
    exists|j: nat| first <= j <= last && name == #[trigger] auto_name(j)
}

/// The number of a made-up name with a number from `first` to `last`.
pub open spec fn number_of(name: Seq<char>, first: nat, last: nat) -> nat {
    choose|j: nat| first <= j <= last && name == #[trigger] auto_name(j)
}

/// `name` is one of the names that differ between the two documents: the
/// given name, or a made-up name with a number from `first` to `last`.
pub open spec fn is_hidden(name: Seq<char>, first: nat, last: nat, given: Seq<char>) -> bool {
    name == given || is_made_up(name, first, last)
}

/// The names that differ between the two documents.
pub open spec fn hidden_names(first: nat, last: nat, given: Seq<char>) -> Set<Seq<char>> {
    Set::new(|name: Seq<char>| is_hidden(name, first, last, given))
}

/// The name that a block of the document with the nameless block has in the
/// other document.
pub open spec fn renamed(name: Seq<char>, first: nat, last: nat, given: Seq<char>) -> Seq<char> {
    if is_made_up(name, first, last) {
        let number = number_of(name, first, last);
        if number == first {
            given
        } else {
            auto_name((number - 1) as nat)
        }
    } else {
        name
    }
}

/// The made-up name numbered `first` becomes the given name, and a later
/// one the made-up name before it.
pub proof fn lemma_renamed_made_up(j: nat, first: nat, last: nat, given: Seq<char>)
    requires
        first <= j <= last,
    ensures
        is_made_up(auto_name(j), first, last),
        renamed(auto_name(j), first, last, given) == if j == first {
            given
        } else {
            auto_name((j - 1) as nat)
        },
{
    let number = number_of(auto_name(j), first, last);
    lemma_auto_name_injective(number, j);
}

/// A renamed name is hidden where the name was made up, and only there.
pub proof fn lemma_renamed_hidden(name: Seq<char>, first: nat, last: nat, given: Seq<char>)
    requires
        name != given,
        !is_made_up(given, first, last),
    ensures
        is_hidden(renamed(name, first, last, given), first, last, given) == is_made_up(
            name,
            first,
            last,
        ),
        !is_made_up(name, first, last) ==> renamed(name, first, last, given) == name,
{
    if is_made_up(name, first, last) {
        let number = number_of(name, first, last);
        lemma_renamed_made_up(number, first, last, given);
    }
}

/// No two names other than the given one are renamed to the same name.
pub proof fn lemma_renamed_injective(
    x: Seq<char>,
    y: Seq<char>,
    first: nat,
    last: nat,
    given: Seq<char>,
)
    requires
        x != given,
        y != given,
        !is_made_up(given, first, last),
        renamed(x, first, last, given) == renamed(y, first, last, given),
    ensures
        x == y,
{
    lemma_renamed_hidden(x, first, last, given);
    lemma_renamed_hidden(y, first, last, given);
    if is_made_up(x, first, last) {
        let i = number_of(x, first, last);
        let j = number_of(y, first, last);
        lemma_renamed_made_up(i, first, last, given);
        lemma_renamed_made_up(j, first, last, given);
        if i != first && j != first {
            lemma_auto_name_injective((i - 1) as nat, (j - 1) as nat);
        }
    }
}

/// The model `unnamed`, of the document with the nameless block, and the
/// model `named`, of the other document, hold the same paths and bodies,
/// up to the renaming.
pub open spec fn related(
    unnamed: Model,
    named: Model,
    first: nat,
    last: nat,
    given: Seq<char>,
) -> bool {
    &&& unnamed.counter == named.counter + 1
    &&& first <= unnamed.counter <= last
    &&& unnamed.paths == named.paths
    &&& forall|path: Seq<char>| #[trigger]
        unnamed.seeds.contains_key(path) == named.seeds.contains_key(path)
    &&& forall|path: Seq<char>| #[trigger]
        unnamed.seeds.contains_key(path) ==> named.seeds[path] == renamed(
            unnamed.seeds[path],
            first,
            last,
            given,
        )
    &&& !unnamed.bodies.contains_key(given)
    &&& forall|name: Seq<char>| #[trigger]
        unnamed.bodies.contains_key(name) ==> {
            &&& named.bodies.contains_key(renamed(name, first, last, given))
            &&& named.bodies[renamed(name, first, last, given)] == unnamed.bodies[name]
        }
    &&& forall|name: Seq<char>| #[trigger]
        named.bodies.contains_key(name) ==> exists|origin: Seq<char>| #[trigger]
            unnamed.bodies.contains_key(origin) && renamed(origin, first, last, given) == name
}

/// The builder is at the same place in both documents, up to the renaming.
pub open spec fn related_readings(
    unnamed: Reading,
    named: Reading,
    first: nat,
    last: nat,
    given: Seq<char>,
) -> bool {
    &&& related(unnamed.model, named.model, first, last, given)
    &&& unnamed.path == named.path
    &&& unnamed.stopped == named.stopped
    &&& match unnamed.name {
        Some(name) => name != given && named.name == Some(renamed(name, first, last, given)),
        None => named.name is None,
    }
}

/// `token` names no block by one of the names that differ.
pub open spec fn is_clean(token: Element, first: nat, last: nat, given: Seq<char>) -> bool {
    match token {
        Element::Name(text) => !is_hidden(trim(text), first, last, given),
        _ => true,
    }
}

/// No token of `sources` names a block by one of the names that differ.
pub open spec fn are_clean(
    sources: Seq<Seq<Element>>,
    first: nat,
    last: nat,
    given: Seq<char>,
) -> bool {
    forall|i: int, j: int|
        0 <= i < sources.len() && 0 <= j < sources[i].len() ==> is_clean(
            #[trigger] sources[i][j],
            first,
            last,
            given,
        )
}

/// Gathering a block under a name in one model, and under the renamed name
/// in the other, keeps the models related.
pub proof fn lemma_with_block_related(
    unnamed: Model,
    named: Model,
    name: Seq<char>,
    path: Option<Seq<char>>,
    lines: Seq<Seq<char>>,
    first: nat,
    last: nat,
    given: Seq<char>,
)
    requires
        related(unnamed, named, first, last, given),
        !is_made_up(given, first, last),
        name != given,
    ensures
        related(
            with_block(unnamed, name, path, lines),
            with_block(named, renamed(name, first, last, given), path, lines),
            first,
            last,
            given,
        ),
{
    let other = renamed(name, first, last, given);
    let grown = with_block(unnamed, name, path, lines);
    let twin = with_block(named, other, path, lines);
    if named.bodies.contains_key(other) {
        let origin = choose|origin: Seq<char>| #[trigger]
            unnamed.bodies.contains_key(origin) && renamed(origin, first, last, given) == other;
        lemma_renamed_injective(origin, name, first, last, given);
    }
    assert forall|x: Seq<char>| #[trigger] grown.bodies.contains_key(x) implies {
        &&& twin.bodies.contains_key(renamed(x, first, last, given))
        &&& twin.bodies[renamed(x, first, last, given)] == grown.bodies[x]
    } by {
        if x != name {
            if renamed(x, first, last, given) == other {
                lemma_renamed_injective(x, name, first, last, given);
            }
        }
    }
    assert forall|y: Seq<char>| #[trigger] twin.bodies.contains_key(y) implies exists|
        origin: Seq<char>,
    | #[trigger]
        grown.bodies.contains_key(origin) && renamed(origin, first, last, given) == y by {
        if y == other {
            assert(grown.bodies.contains_key(name));
        } else {
            let origin = choose|origin: Seq<char>| #[trigger]
                unnamed.bodies.contains_key(origin) && renamed(origin, first, last, given) == y;
            assert(grown.bodies.contains_key(origin));
        }
    }
}

/// Reading one token in both documents keeps the builders related.
pub proof fn lemma_token_related(
    unnamed: Reading,
    named: Reading,
    token: Element,
    first: nat,
    last: nat,
    given: Seq<char>,
)
    requires
        related_readings(unnamed, named, first, last, given),
        !is_made_up(given, first, last),
        is_clean(token, first, last, given),
        read_token(unnamed, token).model.counter <= last,
    ensures
        related_readings(
            read_token(unnamed, token),
            read_token(named, token),
            first,
            last,
            given,
        ),
{
    if !unnamed.stopped {
        match token {
            Element::Name(text) => {
                lemma_renamed_hidden(trim(text), first, last, given);
            },
            Element::Begin(arguments) => {
                let made = unnamed.model.counter + 1;
                if read_token(unnamed, token).model.counter == made {
                    lemma_renamed_made_up(made, first, last, given);
                }
            },
            Element::Body(lines) => {
                if let Some(name) = unnamed.name {
                    lemma_with_block_related(
                        unnamed.model,
                        named.model,
                        name,
                        unnamed.path,
                        lines,
                        first,
                        last,
                        given,
                    );
                }
            },
            Element::Other => {},
        }
    }
}

/// Reading the same tokens in both documents keeps the builders related.
pub proof fn lemma_tokens_related(
    unnamed: Reading,
    named: Reading,
    tokens: Seq<Element>,
    first: nat,
    last: nat,
    given: Seq<char>,
)
    requires
        related_readings(unnamed, named, first, last, given),
        !is_made_up(given, first, last),
        forall|j: int| 0 <= j < tokens.len() ==> is_clean(#[trigger] tokens[j], first, last, given),
        read_tokens(unnamed, tokens).model.counter <= last,
    ensures
        related_readings(
            read_tokens(unnamed, tokens),
            read_tokens(named, tokens),
            first,
            last,
            given,
        ),
    decreases tokens.len(),
{
    if tokens.len() > 0 {
        let before = read_tokens(unnamed, tokens.drop_last());
        lemma_tokens_related(unnamed, named, tokens.drop_last(), first, last, given);
        lemma_token_related(
            before,
            read_tokens(named, tokens.drop_last()),
            tokens.last(),
            first,
            last,
            given,
        );
    }
}

/// Two documents with related models stay related when both go on with the
/// same source elements.
pub proof fn lemma_builds_related(
    unnamed: Seq<Seq<Element>>,
    named: Seq<Seq<Element>>,
    rest: Seq<Seq<Element>>,
    first: nat,
    last: nat,
    given: Seq<char>,
)
    requires
        related(build(unnamed), build(named), first, last, given),
        !is_made_up(given, first, last),
        are_clean(rest, first, last, given),
        build(unnamed + rest).counter <= last,
    ensures
        related(build(unnamed + rest), build(named + rest), first, last, given),
    decreases rest.len(),
{
    if rest.len() == 0 {
    } else {
        let tokens = rest.last();
        let shorter = rest.drop_last();
        lemma_build_add(unnamed, rest);
        lemma_build_add(named, rest);
        lemma_counter_grows(start_source(build(unnamed + shorter)), tokens);
        lemma_builds_related(unnamed, named, shorter, first, last, given);
        lemma_tokens_related(
            start_source(build(unnamed + shorter)),
            start_source(build(named + shorter)),
            tokens,
            first,
            last,
            given,
        );
    }
}

/// No line of a body of `model` refers to one of the names that differ.
pub open spec fn refers_to_none(model: Model, first: nat, last: nat, given: Seq<char>) -> bool {
    forall|name: Seq<char>| #[trigger]
        model.bodies.contains_key(name) ==> avoids(
            model.bodies[name],
            hidden_names(first, last, given),
        )
}

/// Related models whose lines refer to none of the names that differ seed
/// every path with the same expansion.
pub proof fn lemma_related_files(
    unnamed: Model,
    named: Model,
    path: Seq<char>,
    first: nat,
    last: nat,
    given: Seq<char>,
)
    requires
        related(unnamed, named, first, last, given),
        is_sound(unnamed),
        is_sound(named),
        !is_made_up(given, first, last),
        refers_to_none(unnamed, first, last, given),
        unnamed.seeds.contains_key(path),
    ensures
        tangle_file(unnamed.seeds, unnamed.bodies, path) == tangle_file(
            named.seeds,
            named.bodies,
            path,
        ),
{
    let hidden = hidden_names(first, last, given);
    let root = unnamed.seeds[path];
    let twin = renamed(root, first, last, given);
    let empty = Set::<Seq<char>>::empty();
    lemma_renamed_hidden(root, first, last, given);
    assert forall|name: Seq<char>| !(#[trigger] hidden.contains(name)) implies {
        &&& unnamed.bodies.contains_key(name) == named.bodies.contains_key(name)
        &&& unnamed.bodies.contains_key(name) ==> unnamed.bodies[name] == named.bodies[name]
            && avoids(unnamed.bodies[name], hidden)
    } by {
        if unnamed.bodies.contains_key(name) {
            lemma_renamed_hidden(name, first, last, given);
        }
        if named.bodies.contains_key(name) {
            let origin = choose|origin: Seq<char>| #[trigger]
                unnamed.bodies.contains_key(origin) && renamed(origin, first, last, given)
                    == name;
            lemma_renamed_hidden(origin, first, last, given);
        }
    }
    if hidden.contains(root) {
        assert(agree_outside(
            unnamed.bodies,
            named.bodies,
            empty.insert(root),
            empty.insert(twin),
            hidden,
        ));
        lemma_body_agrees(
            unnamed.bodies,
            named.bodies,
            empty.insert(root),
            empty.insert(twin),
            hidden,
            unnamed.bodies[root],
            Seq::empty(),
            0,
        );
    } else {
        lemma_expand_agrees(
            unnamed.bodies,
            named.bodies,
            empty,
            empty,
            hidden,
            root,
            Seq::empty(),
        );
    }
}

} // verus!
