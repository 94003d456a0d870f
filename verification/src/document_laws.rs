//! What holds of the builder in general, and of a run over what it built,
//! each statement proved from the definitions.

use vstd::prelude::*;
use crate::document::{
    anonymous_block, auto_name, build, leave_name, leave_path, lemma_auto_name_injective,
    lemma_build_is_sound, lemma_build_keeps_body, lemma_build_keeps_made_up_body,
    lemma_build_keeps_path, lemma_build_push, lemma_counter_of_rest,
    lemma_made_up_name_is_not_declared, lemma_made_up_name_is_not_referred_to,
    lemma_made_up_names_are_counted, lemma_read_anonymous_block, lemma_read_named_block,
    named_block, names, tangle_target, Element,
};
use crate::laws::{
    avoids, dedented, is_plain, law_plain_run_copies, lemma_runs_agree, reference_at,
};
use crate::renaming::{
    are_clean, hidden_names, is_clean, is_hidden, is_made_up, lemma_builds_related,
    lemma_related_files, lemma_renamed_made_up, refers_to_none, renamed,
};
use crate::registry::body_or_empty;
use crate::tangle::{expand, expand_body, run_from, tangle_file, Run};
use crate::text::trim;

verus! {

/// Blocks under one name make one body. Where two blocks carry the same
/// name, and no other source element between or after them names it, the
/// name holds the lines that it had before, then those of the first block,
/// then those of the second. That body is what an expansion of the name
/// expands.
pub proof fn law_same_name_concatenates(
    front: Seq<Seq<Element>>,
    first_text: Seq<char>,
    first_arguments: Seq<(Seq<char>, Seq<char>)>,
    first_lines: Seq<Seq<char>>,
    middle: Seq<Seq<Element>>,
    second_text: Seq<char>,
    second_arguments: Seq<(Seq<char>, Seq<char>)>,
    second_lines: Seq<Seq<char>>,
    rest: Seq<Seq<Element>>,
    prefix: Seq<char>,
)
    requires
        trim(first_text) == trim(second_text),
        leave_name(middle, trim(first_text)),
        leave_name(rest, trim(first_text)),
    ensures
        ({
            let name = trim(first_text);
            let first = named_block(first_text, first_arguments, first_lines);
            let second = named_block(second_text, second_arguments, second_lines);
            let before = body_or_empty(build(front).bodies, name);
            let bodies = build((front.push(first) + middle).push(second) + rest).bodies;
            &&& bodies.contains_key(name)
            &&& bodies[name] == before + first_lines + second_lines
            &&& expand(bodies, name, prefix, Set::empty()) == expand_body(
                bodies,
                before + first_lines + second_lines,
                prefix,
                set![name],
                0,
            )
        }),
{
    let name = trim(first_text);
    let first = named_block(first_text, first_arguments, first_lines);
    let second = named_block(second_text, second_arguments, second_lines);
    let opened = front.push(first);
    let closed = (opened + middle).push(second);
    assert forall|k: nat| name != #[trigger] auto_name(k) by {
        lemma_made_up_name_is_not_declared(k, first_text);
    }
    lemma_build_push(front, first);
    lemma_read_named_block(build(front), first_text, first_arguments, first_lines);
    lemma_build_keeps_body(opened, middle, name);
    lemma_build_push(opened + middle, second);
    lemma_read_named_block(build(opened + middle), second_text, second_arguments, second_lines);
    lemma_build_keeps_body(closed, rest, name);
    lemma_build_is_sound(closed + rest);
}

/// Of the blocks that declare one output path, the last one seeds it:
/// whatever the document held before a block that declares the path, and
/// whatever follows it without declaring the path, the file at that path is
/// the expansion of that block.
pub proof fn law_last_declaration_takes_path(
    front: Seq<Seq<Element>>,
    path: Seq<char>,
    text: Seq<char>,
    arguments: Seq<(Seq<char>, Seq<char>)>,
    lines: Seq<Seq<char>>,
    rest: Seq<Seq<Element>>,
)
    requires
        tangle_target(arguments) == Some(path),
        leave_path(rest, path),
    ensures
        ({
            let model = build(front.push(named_block(text, arguments, lines)) + rest);
            &&& model.seeds.contains_key(path)
            &&& model.seeds[path] == trim(text)
            &&& tangle_file(model.seeds, model.bodies, path) == expand(
                model.bodies,
                trim(text),
                Seq::empty(),
                Set::empty(),
            )
        }),
{
    let block = named_block(text, arguments, lines);
    lemma_build_push(front, block);
    lemma_read_named_block(build(front), text, arguments, lines);
    lemma_build_keeps_path(front.push(block), rest, path);
}

/// Tangling a document without references copies: every declared path gets
/// one file, which holds the lines of the block that seeds the path, without
/// the indentation of the first of them, one after another.
pub proof fn law_round_trip(document: Seq<Seq<Element>>)
    requires
        forall|name: Seq<char>| #[trigger]
            build(document).bodies.contains_key(name) ==> is_plain(build(document).bodies[name]),
    ensures
        ({
            let model = build(document);
            run_from(model.paths, model.seeds, model.bodies, 0) == (Run {
                files: Seq::new(
                    model.paths.len(),
                    |i: int|
                        (
                            model.paths[i],
                            dedented(model.bodies[model.seeds[model.paths[i]]]).flatten(),
                        ),
                ),
                failure: None,
            })
        }),
{
    let model = build(document);
    lemma_build_is_sound(document);
    assert forall|i: int| 0 <= i < model.paths.len() implies model.bodies.contains_key(
        #[trigger] model.seeds[model.paths[i]],
    ) by {
        assert(model.seeds.contains_key(model.paths[i]));
    }
    law_plain_run_copies(model.paths, model.seeds, model.bodies);
}

/// The name made up for a nameless block is the block's own: whatever the
/// document holds before and after the block, the made-up name holds the
/// lines of the block and no others. Where no later source element declares
/// the block's path, the file at that path is the expansion of those lines.
pub proof fn law_made_up_name_is_the_blocks_own(
    front: Seq<Seq<Element>>,
    path: Seq<char>,
    arguments: Seq<(Seq<char>, Seq<char>)>,
    lines: Seq<Seq<char>>,
    rest: Seq<Seq<Element>>,
)
    requires
        tangle_target(arguments) == Some(path),
    ensures
        ({
            let made = auto_name(build(front).counter + 1);
            let model = build(front.push(anonymous_block(arguments, lines)) + rest);
            &&& model.bodies.contains_key(made)
            &&& model.bodies[made] == lines
            &&& leave_path(rest, path) ==> {
                &&& model.seeds.contains_key(path)
                &&& model.seeds[path] == made
                &&& tangle_file(model.seeds, model.bodies, path) == expand_body(
                    model.bodies,
                    lines,
                    Seq::empty(),
                    set![made],
                    0,
                )
            }
        }),
{
    let base = build(front);
    let first = base.counter + 1;
    let made = auto_name(first);
    let block = anonymous_block(arguments, lines);
    lemma_build_push(front, block);
    lemma_read_anonymous_block(base, arguments, lines);
    lemma_made_up_names_are_counted(front, first);
    assert(Seq::<Seq<char>>::empty() + lines =~= lines);
    lemma_build_keeps_made_up_body(front.push(block), rest, first);
    if leave_path(rest, path) {
        lemma_build_keeps_path(front.push(block), rest, path);
        lemma_build_is_sound(front.push(block) + rest);
        assert(Set::<Seq<char>>::empty().insert(made) =~= set![made]);
    }
}

/// Two documents that differ in one block, nameless in the one and named in
/// the other, give every path the same file, where the names that differ
/// between them are declared and referred to nowhere else.
proof fn lemma_auto_name_tangles_alike(
    front: Seq<Seq<Element>>,
    path: Seq<char>,
    arguments: Seq<(Seq<char>, Seq<char>)>,
    lines: Seq<Seq<char>>,
    text: Seq<char>,
    rest: Seq<Seq<Element>>,
)
    requires
        tangle_target(arguments) == Some(path),
        ({
            let first = build(front).counter + 1;
            let given = trim(text);
            let unnamed = build(front.push(anonymous_block(arguments, lines)) + rest);
            let last = unnamed.counter;
            &&& !is_made_up(given, first, last)
            &&& forall|name: Seq<char>| #[trigger]
                build(front).bodies.contains_key(name) ==> !is_hidden(name, first, last, given)
            &&& are_clean(rest, first, last, given)
            &&& refers_to_none(unnamed, first, last, given)
        }),
    ensures
        ({
            let unnamed = build(front.push(anonymous_block(arguments, lines)) + rest);
            let named = build(front.push(named_block(text, arguments, lines)) + rest);
            &&& unnamed.paths == named.paths
            &&& forall|target: Seq<char>| #[trigger]
                unnamed.seeds.contains_key(target) ==> tangle_file(
                    unnamed.seeds,
                    unnamed.bodies,
                    target,
                ) == tangle_file(named.seeds, named.bodies, target)
            &&& run_from(unnamed.paths, unnamed.seeds, unnamed.bodies, 0) == run_from(
                named.paths,
                named.seeds,
                named.bodies,
                0,
            )
        }),
{
    let base = build(front);
    let first = base.counter + 1;
    let given = trim(text);
    let with_unnamed = front.push(anonymous_block(arguments, lines));
    let with_named = front.push(named_block(text, arguments, lines));
    let unnamed = build(with_unnamed + rest);
    let named = build(with_named + rest);
    let last = unnamed.counter;
    lemma_build_push(front, anonymous_block(arguments, lines));
    lemma_build_push(front, named_block(text, arguments, lines));
    lemma_read_anonymous_block(base, arguments, lines);
    lemma_read_named_block(base, text, arguments, lines);
    lemma_counter_of_rest(with_unnamed, rest);
    lemma_renamed_made_up(first, first, last, given);
    let opened = build(with_unnamed);
    let twin = build(with_named);
    assert forall|name: Seq<char>| #[trigger] twin.bodies.contains_key(name) implies exists|
        origin: Seq<char>,
    | #[trigger]
        opened.bodies.contains_key(origin) && renamed(origin, first, last, given) == name by {
        if name == given {
            assert(opened.bodies.contains_key(auto_name(first)));
        } else {
            assert(opened.bodies.contains_key(name));
        }
    }
    assert forall|target: Seq<char>| #[trigger] opened.seeds.contains_key(target) implies twin.seeds[target]
        == renamed(opened.seeds[target], first, last, given) by {
        if target != path {
            lemma_build_is_sound(front);
        }
    }
    lemma_builds_related(with_unnamed, with_named, rest, first, last, given);
    lemma_build_is_sound(with_unnamed + rest);
    lemma_build_is_sound(with_named + rest);
    assert forall|target: Seq<char>| #[trigger]
        unnamed.seeds.contains_key(target) implies tangle_file(
        unnamed.seeds,
        unnamed.bodies,
        target,
    ) == tangle_file(named.seeds, named.bodies, target) by {
        lemma_related_files(unnamed, named, target, first, last, given);
    }
    lemma_runs_agree(unnamed.paths, unnamed.seeds, unnamed.bodies, named.seeds, named.bodies, 0);
}

/// A block with an output path and no name of its own is tangled as the
/// same block under a name of its own. Take a document with such a block,
/// and the document in which the block has the name `text` instead. Where
/// no other source element declares that name and no line refers to it, both
/// documents give every path the same file, and the two runs yield the
/// same.
pub proof fn law_auto_name_tangles_alike(
    front: Seq<Seq<Element>>,
    path: Seq<char>,
    arguments: Seq<(Seq<char>, Seq<char>)>,
    lines: Seq<Seq<char>>,
    text: Seq<char>,
    rest: Seq<Seq<Element>>,
)
    requires
        tangle_target(arguments) == Some(path),
        leave_name(front, trim(text)),
        leave_name(rest, trim(text)),
        ({
            let unnamed = build(front.push(anonymous_block(arguments, lines)) + rest);
            forall|name: Seq<char>| #[trigger]
                unnamed.bodies.contains_key(name) ==> avoids(unnamed.bodies[name], set![trim(text)])
        }),
    ensures
        ({
            let unnamed = build(front.push(anonymous_block(arguments, lines)) + rest);
            let named = build(front.push(named_block(text, arguments, lines)) + rest);
            &&& unnamed.paths == named.paths
            &&& forall|target: Seq<char>| #[trigger]
                unnamed.seeds.contains_key(target) ==> tangle_file(
                    unnamed.seeds,
                    unnamed.bodies,
                    target,
                ) == tangle_file(named.seeds, named.bodies, target)
            &&& run_from(unnamed.paths, unnamed.seeds, unnamed.bodies, 0) == run_from(
                named.paths,
                named.seeds,
                named.bodies,
                0,
            )
        }),
{
    let base = build(front);
    let first = base.counter + 1;
    let given = trim(text);
    let unnamed = build(front.push(anonymous_block(arguments, lines)) + rest);
    let last = unnamed.counter;
    let hidden = hidden_names(first, last, given);
    assert forall|k: nat| given != #[trigger] auto_name(k) by {
        lemma_made_up_name_is_not_declared(k, text);
    }
    assert(!base.bodies.contains_key(given)) by {
        lemma_build_keeps_body(Seq::empty(), front, given);
        assert(Seq::<Seq<Element>>::empty() + front =~= front);
    }
    assert forall|name: Seq<char>| #[trigger] base.bodies.contains_key(name) implies !is_hidden(
        name,
        first,
        last,
        given,
    ) by {
        if is_made_up(name, first, last) {
            let k = choose|k: nat| first <= k <= last && name == #[trigger] auto_name(k);
            lemma_made_up_names_are_counted(front, k);
        }
    }
    assert forall|i: int, j: int|
        0 <= i < rest.len() && 0 <= j < rest[i].len() implies is_clean(
        #[trigger] rest[i][j],
        first,
        last,
        given,
    ) by {
        if let Element::Name(declared) = rest[i][j] {
            assert(!names(rest[i][j], given));
            if is_made_up(trim(declared), first, last) {
                let k = choose|k: nat|
                    first <= k <= last && trim(declared) == #[trigger] auto_name(k);
                lemma_made_up_name_is_not_declared(k, declared);
            }
        }
    }
    assert forall|name: Seq<char>| #[trigger] unnamed.bodies.contains_key(name) implies avoids(
        unnamed.bodies[name],
        hidden,
    ) by {
        let body = unnamed.bodies[name];
        assert(avoids(body, set![given]));
        assert forall|i: int| 0 <= i < body.len() implies (#[trigger] reference_at(body, i) matches Some(
            target,
        ) ==> !hidden.contains(target)) by {
            if let Some(target) = reference_at(body, i) {
                assert(!set![given].contains(target));
                if is_made_up(target, first, last) {
                    let k = choose|k: nat| first <= k <= last && target == #[trigger] auto_name(k);
                    lemma_made_up_name_is_not_referred_to(k, dedented(body)[i]);
                }
            }
        }
    }
    lemma_auto_name_tangles_alike(front, path, arguments, lines, text, rest);
}

/// A block as a document writes it: the text of its name line, where it has
/// one, the arguments of its begin directive, and its lines.
pub struct Block {
    /// The text of the name line.
    pub text: Option<Seq<char>>,
    /// The arguments of the begin directive.
    pub arguments: Seq<(Seq<char>, Seq<char>)>,
    /// The lines of the body.
    pub lines: Seq<Seq<char>>,
}

/// The tokens of a block.
pub open spec fn tokens_of(block: Block) -> Seq<Element> {
    match block.text {
        Some(text) => named_block(text, block.arguments, block.lines),
        None => anonymous_block(block.arguments, block.lines),
    }
}

/// The document that holds the blocks `blocks`, in order.
pub open spec fn document_of(blocks: Seq<Block>) -> Seq<Seq<Element>> {
    Seq::new(blocks.len(), |i: int| tokens_of(blocks[i]))
}

/// The number of blocks among `blocks` that have an output path and no name
/// of their own.
pub open spec fn nameless_count(blocks: Seq<Block>) -> nat
    decreases blocks.len(),
{
    if blocks.len() == 0 {
        0
    } else if blocks.last().text is None && tangle_target(blocks.last().arguments) is Some {
        nameless_count(blocks.drop_last()) + 1
    } else {
        nameless_count(blocks.drop_last())
    }
}

/// The name under which the last of `blocks` is gathered: its own name,
/// without the white space around it, or the next made-up name where it has
/// an output path and no name. A block without both is gathered nowhere.
pub open spec fn name_of_last(blocks: Seq<Block>) -> Option<Seq<char>> {
    match blocks.last().text {
        Some(text) => Some(trim(text)),
        None => if tangle_target(blocks.last().arguments) is Some {
            Some(auto_name(nameless_count(blocks)))
        } else {
            None
        },
    }
}

/// Some block among `blocks` is gathered under `name`.
pub open spec fn gathers(blocks: Seq<Block>, name: Seq<char>) -> bool
    decreases blocks.len(),
{
    blocks.len() > 0 && (gathers(blocks.drop_last(), name) || name_of_last(blocks) == Some(name))
}

/// The lines of the blocks among `blocks` that are gathered under `name`,
/// in the order of the blocks.
pub open spec fn lines_under(blocks: Seq<Block>, name: Seq<char>) -> Seq<Seq<char>>
    decreases blocks.len(),
{
    if blocks.len() == 0 {
        Seq::empty()
    } else if name_of_last(blocks) == Some(name) {
        lines_under(blocks.drop_last(), name) + blocks.last().lines
    } else {
        lines_under(blocks.drop_last(), name)
    }
}

/// The body of a name is made of the lines of its own blocks: the registry
/// holds a name exactly where a block of the document is gathered under it,
/// and the body of the name is the lines of those blocks, one block after
/// another in the order of the document.
pub proof fn law_body_is_the_lines_of_its_blocks(blocks: Seq<Block>, name: Seq<char>)
    ensures
        build(document_of(blocks)).counter == nameless_count(blocks),
        build(document_of(blocks)).bodies.contains_key(name) == gathers(blocks, name),
        body_or_empty(build(document_of(blocks)).bodies, name) == lines_under(blocks, name),
    decreases blocks.len(),
{
    if blocks.len() > 0 {
        let shorter = blocks.drop_last();
        let block = blocks.last();
        let before = build(document_of(shorter));
        law_body_is_the_lines_of_its_blocks(shorter, name);
        assert(document_of(blocks) =~= document_of(shorter).push(tokens_of(block)));
        lemma_build_push(document_of(shorter), tokens_of(block));
        match block.text {
            Some(text) => {
                lemma_read_named_block(before, text, block.arguments, block.lines);
            },
            None => {
                lemma_read_anonymous_block(before, block.arguments, block.lines);
            },
        }
        assert(lines_under(shorter, name) + Seq::<Seq<char>>::empty() =~= lines_under(
            shorter,
            name,
        ));
    }
}

/// A made-up name is the name of one block only: the lines gathered under
/// it are the lines of the block that it was made up for.
pub proof fn law_made_up_name_holds_one_block(blocks: Seq<Block>, i: int)
    requires
        0 <= i < blocks.len(),
        blocks[i].text is None,
        tangle_target(blocks[i].arguments) is Some,
    ensures
        lines_under(blocks, auto_name(nameless_count(blocks.take(i + 1)))) == blocks[i].lines,
    decreases blocks.len(),
{
    let made = auto_name(nameless_count(blocks.take(i + 1)));
    let shorter = blocks.drop_last();
    if i == blocks.len() - 1 {
        assert(blocks.take(i + 1) =~= blocks);
        lemma_not_gathered_yet(shorter, nameless_count(blocks));
        assert(Seq::<Seq<char>>::empty() + blocks[i].lines =~= blocks[i].lines);
    } else {
        assert(shorter.take(i + 1) =~= blocks.take(i + 1));
        law_made_up_name_holds_one_block(shorter, i);
        lemma_nameless_count_grows(shorter, i + 1);
        match blocks.last().text {
            Some(text) => {
                lemma_made_up_name_is_not_declared(nameless_count(blocks.take(i + 1)), text);
            },
            None => {
                if name_of_last(blocks) == Some(made) {
                    lemma_auto_name_injective(
                        nameless_count(blocks),
                        nameless_count(blocks.take(i + 1)),
                    );
                }
            },
        }
    }
}

/// The first blocks of a document hold no more nameless blocks than all of
/// them.
proof fn lemma_nameless_count_grows(blocks: Seq<Block>, n: int)
    requires
        0 <= n <= blocks.len(),
    ensures
        nameless_count(blocks.take(n)) <= nameless_count(blocks),
    decreases blocks.len() - n,
{
    if n < blocks.len() {
        lemma_nameless_count_grows(blocks, n + 1);
        assert(blocks.take(n + 1).drop_last() =~= blocks.take(n));
    } else {
        assert(blocks.take(n) =~= blocks);
    }
}

/// No block is gathered under a made-up name with a number that the
/// document has not reached.
proof fn lemma_not_gathered_yet(blocks: Seq<Block>, k: nat)
    requires
        k > nameless_count(blocks),
    ensures
        lines_under(blocks, auto_name(k)) == Seq::<Seq<char>>::empty(),
        !gathers(blocks, auto_name(k)),
    decreases blocks.len(),
{
    if blocks.len() > 0 {
        lemma_not_gathered_yet(blocks.drop_last(), k);
        match blocks.last().text {
            Some(text) => {
                lemma_made_up_name_is_not_declared(k, text);
            },
            None => {
                if name_of_last(blocks) == Some(auto_name(k)) {
                    lemma_auto_name_injective(nameless_count(blocks), k);
                }
            },
        }
    }
}

} // verus!
