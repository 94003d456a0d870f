//! What holds of the engine in general, each statement proved from the
//! definitions of an expansion and of a run.

use vstd::prelude::*;
use crate::reference::parse;
use crate::tangle::{
    emitted, expand, expand_body, expand_line, lemma_remaining_decreases, remaining, run_from,
    tangle_file, Expansion, Failure, Run,
};
use crate::text::{dedent, leading_spaces};

verus! {

/// The lines of `body` without the indentation of its first line.
pub open spec fn dedented(body: Seq<Seq<char>>) -> Seq<Seq<char>> {
    Seq::new(body.len(), |i: int| dedent(body[i], leading_spaces(body[0])))
}

/// Each of `lines` with `prefix` before it.
pub open spec fn behind(prefix: Seq<char>, lines: Seq<Seq<char>>) -> Seq<Seq<char>> {
    Seq::new(lines.len(), |i: int| prefix + lines[i])
}

/// The name that line `i` of `body` refers to once the line has lost the
/// body's indentation, if it refers to one.
pub open spec fn reference_at(body: Seq<Seq<char>>, i: int) -> Option<Seq<char>> {
    match parse(dedented(body)[i]) {
        Some(reference) => Some(reference.name),
        None => None,
    }
}

/// No line of `body` refers to a block.
pub open spec fn is_plain(body: Seq<Seq<char>>) -> bool {
    forall|i: int| 0 <= i < body.len() ==> #[trigger] reference_at(body, i) is None
}

/// The lines of a body without references are emitted as they are, each
/// behind the prefix, from any line on.
proof fn lemma_plain_lines(
    bodies: Map<Seq<char>, Seq<Seq<char>>>,
    body: Seq<Seq<char>>,
    prefix: Seq<char>,
    active: Set<Seq<char>>,
    from: nat,
)
    requires
        bodies.dom().finite(),
        is_plain(body),
        from <= body.len(),
    ensures
        expand_body(bodies, body, prefix, active, from) == emitted(
            behind(prefix, dedented(body)).skip(from as int).flatten(),
        ),
    decreases body.len() - from,
{
    let lines = behind(prefix, dedented(body));
    if from < body.len() {
        lemma_plain_lines(bodies, body, prefix, active, from + 1);
        let line = dedented(body)[from as int];
        assert(reference_at(body, from as int) is None);
        assert(expand_line(bodies, line, prefix, active) == emitted(prefix + line));
        assert(lines.skip(from as int).drop_first() =~= lines.skip(from as int + 1));
        assert(lines.skip(from as int).flatten() == (prefix + line) + lines.skip(
            from as int + 1,
        ).flatten());
    }
}

/// Expanding a block without references copies its lines: the output is the
/// lines of the body without the indentation of the first, one after
/// another, each behind the prefix.
pub proof fn law_plain_block_is_copied(
    bodies: Map<Seq<char>, Seq<Seq<char>>>,
    name: Seq<char>,
    prefix: Seq<char>,
    active: Set<Seq<char>>,
)
    requires
        bodies.dom().finite(),
        bodies.contains_key(name),
        !active.contains(name),
        is_plain(bodies[name]),
    ensures
        expand(bodies, name, prefix, active) == emitted(
            behind(prefix, dedented(bodies[name])).flatten(),
        ),
        prefix.len() == 0 ==> expand(bodies, name, prefix, active) == emitted(
            dedented(bodies[name]).flatten(),
        ),
{
    let body = bodies[name];
    lemma_plain_lines(bodies, body, prefix, active.insert(name), 0);
    assert(behind(prefix, dedented(body)).skip(0) =~= behind(prefix, dedented(body)));
    if prefix.len() == 0 {
        assert(behind(prefix, dedented(body)) =~= dedented(body));
    }
}

/// A line that refers to a block without references becomes that block's
/// lines, each behind the prefix and the line's leading fragment, and after
/// them the line's trailing fragment as it stands: nothing is put before the
/// trailing fragment, and a reference inside it is not expanded.
pub proof fn law_reference_line(
    bodies: Map<Seq<char>, Seq<Seq<char>>>,
    line: Seq<char>,
    prefix: Seq<char>,
    active: Set<Seq<char>>,
)
    requires
        bodies.dom().finite(),
        parse(line) matches Some(reference) && bodies.contains_key(reference.name)
            && !active.contains(reference.name) && is_plain(bodies[reference.name]),
    ensures
        ({
            let reference = parse(line)->0;
            expand_line(bodies, line, prefix, active) == emitted(
                behind(prefix + reference.leading, dedented(bodies[reference.name])).flatten()
                    + reference.trailing,
            )
        }),
{
    let reference = parse(line)->0;
    law_plain_block_is_copied(bodies, reference.name, prefix + reference.leading, active);
}

/// A body with a line that refers to an undeclared name fails from every
/// line at or before that one.
proof fn lemma_undefined_reference_fails(
    bodies: Map<Seq<char>, Seq<Seq<char>>>,
    body: Seq<Seq<char>>,
    prefix: Seq<char>,
    active: Set<Seq<char>>,
    at: int,
    from: nat,
)
    requires
        bodies.dom().finite(),
        from <= at < body.len(),
        reference_at(body, at) matches Some(name) && !bodies.contains_key(name),
    ensures
        expand_body(bodies, body, prefix, active, from).failure is Some,
    decreases at - from,
{
    if from < at {
        lemma_undefined_reference_fails(bodies, body, prefix, active, at, from + 1);
    } else {
        let line = dedented(body)[at];
        assert(expand_line(bodies, line, prefix, active).failure is Some);
    }
}

/// A block with a line that refers to a name that the registry does not hold
/// never expands in full.
pub proof fn law_undefined_reference_fails(
    bodies: Map<Seq<char>, Seq<Seq<char>>>,
    name: Seq<char>,
    prefix: Seq<char>,
    active: Set<Seq<char>>,
    at: int,
)
    requires
        bodies.dom().finite(),
        bodies.contains_key(name),
        0 <= at < bodies[name].len(),
        reference_at(bodies[name], at) matches Some(target) && !bodies.contains_key(target),
    ensures
        expand(bodies, name, prefix, active).failure is Some,
{
    if !active.contains(name) {
        lemma_undefined_reference_fails(bodies, bodies[name], prefix, active.insert(name), at, 0);
    }
}

/// Where the lines before an undefined reference hold no reference, they are
/// emitted, and the expansion then fails naming the undeclared block.
proof fn lemma_first_undefined_reference(
    bodies: Map<Seq<char>, Seq<Seq<char>>>,
    body: Seq<Seq<char>>,
    prefix: Seq<char>,
    active: Set<Seq<char>>,
    at: int,
    from: nat,
)
    requires
        bodies.dom().finite(),
        from <= at < body.len(),
        forall|i: int| 0 <= i < at ==> #[trigger] reference_at(body, i) is None,
        reference_at(body, at) matches Some(name) && !bodies.contains_key(name),
    ensures
        expand_body(bodies, body, prefix, active, from) == (Expansion {
            text: behind(prefix, dedented(body)).subrange(from as int, at).flatten(),
            failure: Some(Failure::Undefined(reference_at(body, at)->0)),
        }),
    decreases at - from,
{
    let lines = behind(prefix, dedented(body));
    if from < at {
        lemma_first_undefined_reference(bodies, body, prefix, active, at, from + 1);
        let line = dedented(body)[from as int];
        assert(reference_at(body, from as int) is None);
        assert(expand_line(bodies, line, prefix, active) == emitted(prefix + line));
        assert(lines.subrange(from as int, at).drop_first() =~= lines.subrange(from as int + 1, at));
        assert(lines.subrange(from as int, at).flatten() == (prefix + line) + lines.subrange(
            from as int + 1,
            at,
        ).flatten());
    } else {
        let line = dedented(body)[at];
        let target = reference_at(body, at)->0;
        assert(expand(bodies, target, prefix + parse(line)->0.leading, active).failure == Some(
            Failure::Undefined(target),
        ));
        assert(expand_line(bodies, line, prefix, active).failure == Some(
            Failure::Undefined(target),
        ));
    }
}

/// Where the first line of a block that holds a reference refers to a name
/// that the registry does not hold, the expansion emits the lines before it
/// and fails with that name as the undefined one.
pub proof fn law_first_undefined_reference(
    bodies: Map<Seq<char>, Seq<Seq<char>>>,
    name: Seq<char>,
    prefix: Seq<char>,
    active: Set<Seq<char>>,
    at: int,
)
    requires
        bodies.dom().finite(),
        bodies.contains_key(name),
        !active.contains(name),
        0 <= at < bodies[name].len(),
        forall|i: int| 0 <= i < at ==> #[trigger] reference_at(bodies[name], i) is None,
        reference_at(bodies[name], at) matches Some(target) && !bodies.contains_key(target),
    ensures
        expand(bodies, name, prefix, active) == (Expansion {
            text: behind(prefix, dedented(bodies[name])).take(at).flatten(),
            failure: Some(Failure::Undefined(reference_at(bodies[name], at)->0)),
        }),
{
    lemma_first_undefined_reference(bodies, bodies[name], prefix, active.insert(name), at, 0);
    assert(behind(prefix, dedented(bodies[name])).subrange(0, at) =~= behind(
        prefix,
        dedented(bodies[name]),
    ).take(at));
}

/// The files of the paths from `from` up to `end`, each with the text of its
/// expansion.
pub open spec fn files_between(
    paths: Seq<Seq<char>>,
    seeds: Map<Seq<char>, Seq<char>>,
    bodies: Map<Seq<char>, Seq<Seq<char>>>,
    from: int,
    end: int,
) -> Seq<(Seq<char>, Seq<char>)> {
    Seq::new(
        (end - from) as nat,
        |i: int| (paths[from + i], tangle_file(seeds, bodies, paths[from + i]).text),
    )
}

/// A run yields the files of the paths before the first one that fails, and
/// that path with its failure.
proof fn lemma_run_stops(
    paths: Seq<Seq<char>>,
    seeds: Map<Seq<char>, Seq<char>>,
    bodies: Map<Seq<char>, Seq<Seq<char>>>,
    at: int,
    from: nat,
)
    requires
        from <= at < paths.len(),
        forall|i: int| 0 <= i < at ==> (#[trigger] tangle_file(seeds, bodies, paths[i])).failure is None,
        tangle_file(seeds, bodies, paths[at]).failure is Some,
    ensures
        run_from(paths, seeds, bodies, from) == (Run {
            files: files_between(paths, seeds, bodies, from as int, at),
            failure: Some((paths[at], tangle_file(seeds, bodies, paths[at]).failure->0)),
        }),
    decreases at - from,
{
    if from < at {
        lemma_run_stops(paths, seeds, bodies, at, from + 1);
        assert(seq![(paths[from as int], tangle_file(seeds, bodies, paths[from as int]).text)]
            + files_between(paths, seeds, bodies, from as int + 1, at) =~= files_between(
            paths,
            seeds,
            bodies,
            from as int,
            at,
        ));
    } else {
        assert(files_between(paths, seeds, bodies, at, at) =~= Seq::<
            (Seq<char>, Seq<char>),
        >::empty());
    }
}

/// A run without a failing path yields the file of every path.
proof fn lemma_run_completes(
    paths: Seq<Seq<char>>,
    seeds: Map<Seq<char>, Seq<char>>,
    bodies: Map<Seq<char>, Seq<Seq<char>>>,
    from: nat,
)
    requires
        from <= paths.len(),
        forall|i: int|
            0 <= i < paths.len() ==> (#[trigger] tangle_file(seeds, bodies, paths[i])).failure is None,
    ensures
        run_from(paths, seeds, bodies, from) == (Run {
            files: files_between(paths, seeds, bodies, from as int, paths.len() as int),
            failure: None,
        }),
    decreases paths.len() - from,
{
    let end = paths.len() as int;
    if from < paths.len() {
        lemma_run_completes(paths, seeds, bodies, from + 1);
        assert(seq![(paths[from as int], tangle_file(seeds, bodies, paths[from as int]).text)]
            + files_between(paths, seeds, bodies, from as int + 1, end) =~= files_between(
            paths,
            seeds,
            bodies,
            from as int,
            end,
        ));
    } else {
        assert(files_between(paths, seeds, bodies, end, end) =~= Seq::<
            (Seq<char>, Seq<char>),
        >::empty());
    }
}

/// A run stops at the first path whose expansion fails: it yields the files
/// of the paths before that one, none for it or for a later path, and
/// reports the path with its failure.
pub proof fn law_run_stops_at_first_failure(
    paths: Seq<Seq<char>>,
    seeds: Map<Seq<char>, Seq<char>>,
    bodies: Map<Seq<char>, Seq<Seq<char>>>,
    at: int,
)
    requires
        0 <= at < paths.len(),
        forall|i: int| 0 <= i < at ==> (#[trigger] tangle_file(seeds, bodies, paths[i])).failure is None,
        tangle_file(seeds, bodies, paths[at]).failure is Some,
    ensures
        run_from(paths, seeds, bodies, 0) == (Run {
            files: files_between(paths, seeds, bodies, 0, at),
            failure: Some((paths[at], tangle_file(seeds, bodies, paths[at]).failure->0)),
        }),
{
    lemma_run_stops(paths, seeds, bodies, at, 0);
}

/// A run in which no expansion fails yields one file for every path, in the
/// order of the paths, each holding the expansion of the block that seeds it.
pub proof fn law_run_completes(
    paths: Seq<Seq<char>>,
    seeds: Map<Seq<char>, Seq<char>>,
    bodies: Map<Seq<char>, Seq<Seq<char>>>,
)
    requires
        forall|i: int|
            0 <= i < paths.len() ==> (#[trigger] tangle_file(seeds, bodies, paths[i])).failure is None,
    ensures
        run_from(paths, seeds, bodies, 0) == (Run {
            files: files_between(paths, seeds, bodies, 0, paths.len() as int),
            failure: None,
        }),
{
    lemma_run_completes(paths, seeds, bodies, 0);
}

/// No line of `body` refers to a name in `hidden`.
pub open spec fn avoids(body: Seq<Seq<char>>, hidden: Set<Seq<char>>) -> bool {
    forall|i: int|
        0 <= i < body.len() ==> (#[trigger] reference_at(body, i) matches Some(name)
            ==> !hidden.contains(name))
}

/// Away from the names in `hidden`, two registries hold the same bodies, none
/// of which refers to a hidden name, and the same blocks are being expanded.
pub open spec fn agree_outside(
    left: Map<Seq<char>, Seq<Seq<char>>>,
    right: Map<Seq<char>, Seq<Seq<char>>>,
    left_active: Set<Seq<char>>,
    right_active: Set<Seq<char>>,
    hidden: Set<Seq<char>>,
) -> bool {
    forall|name: Seq<char>|
        !(#[trigger] hidden.contains(name)) ==> {
            &&& left.contains_key(name) == right.contains_key(name)
            &&& left.contains_key(name) ==> left[name] == right[name] && avoids(left[name], hidden)
            &&& left_active.contains(name) == right_active.contains(name)
        }
}

/// A block that is not hidden expands alike in two registries that agree
/// away from the hidden names.
pub proof fn lemma_expand_agrees(
    left: Map<Seq<char>, Seq<Seq<char>>>,
    right: Map<Seq<char>, Seq<Seq<char>>>,
    left_active: Set<Seq<char>>,
    right_active: Set<Seq<char>>,
    hidden: Set<Seq<char>>,
    name: Seq<char>,
    prefix: Seq<char>,
)
    requires
        left.dom().finite(),
        right.dom().finite(),
        agree_outside(left, right, left_active, right_active, hidden),
        !hidden.contains(name),
    ensures
        expand(left, name, prefix, left_active) == expand(right, name, prefix, right_active),
    decreases remaining(left, left_active), 0nat, 0nat,
{
    if left.contains_key(name) && !left_active.contains(name) {
        lemma_remaining_decreases(left, left_active, name);
        assert(agree_outside(
            left,
            right,
            left_active.insert(name),
            right_active.insert(name),
            hidden,
        ));
        lemma_body_agrees(
            left,
            right,
            left_active.insert(name),
            right_active.insert(name),
            hidden,
            left[name],
            prefix,
            0,
        );
    }
}

/// The lines of a body that refers to no hidden name expand alike in two
/// registries that agree away from the hidden names.
pub proof fn lemma_body_agrees(
    left: Map<Seq<char>, Seq<Seq<char>>>,
    right: Map<Seq<char>, Seq<Seq<char>>>,
    left_active: Set<Seq<char>>,
    right_active: Set<Seq<char>>,
    hidden: Set<Seq<char>>,
    body: Seq<Seq<char>>,
    prefix: Seq<char>,
    from: nat,
)
    requires
        left.dom().finite(),
        right.dom().finite(),
        agree_outside(left, right, left_active, right_active, hidden),
        avoids(body, hidden),
    ensures
        expand_body(left, body, prefix, left_active, from) == expand_body(
            right,
            body,
            prefix,
            right_active,
            from,
        ),
    decreases remaining(left, left_active), 1nat, body.len() - from,
{
    if from < body.len() {
        lemma_body_agrees(left, right, left_active, right_active, hidden, body, prefix, from + 1);
        let line = dedented(body)[from as int];
        match parse(line) {
            Some(reference) => {
                assert(reference_at(body, from as int) == Some(reference.name));
                lemma_expand_agrees(
                    left,
                    right,
                    left_active,
                    right_active,
                    hidden,
                    reference.name,
                    prefix + reference.leading,
                );
            },
            None => {},
        }
        assert(expand_line(left, line, prefix, left_active) == expand_line(
            right,
            line,
            prefix,
            right_active,
        ));
    }
}

/// A run depends on its registries only through the expansions that seed
/// its paths.
pub proof fn lemma_runs_agree(
    paths: Seq<Seq<char>>,
    left_seeds: Map<Seq<char>, Seq<char>>,
    left_bodies: Map<Seq<char>, Seq<Seq<char>>>,
    right_seeds: Map<Seq<char>, Seq<char>>,
    right_bodies: Map<Seq<char>, Seq<Seq<char>>>,
    from: nat,
)
    requires
        forall|i: int|
            0 <= i < paths.len() ==> #[trigger] tangle_file(left_seeds, left_bodies, paths[i])
                == tangle_file(right_seeds, right_bodies, paths[i]),
    ensures
        run_from(paths, left_seeds, left_bodies, from) == run_from(
            paths,
            right_seeds,
            right_bodies,
            from,
        ),
    decreases paths.len() - from,
{
    if from < paths.len() {
        lemma_runs_agree(paths, left_seeds, left_bodies, right_seeds, right_bodies, from + 1);
        assert(tangle_file(left_seeds, left_bodies, paths[from as int]) == tangle_file(
            right_seeds,
            right_bodies,
            paths[from as int],
        ));
    }
}

/// A run over blocks without references copies: where every path is seeded
/// by a declared block that holds no reference, the run yields one file for
/// every path, in the order of the paths, which holds the lines of that
/// block, without the indentation of the first of them, one after another.
pub proof fn law_plain_run_copies(
    paths: Seq<Seq<char>>,
    seeds: Map<Seq<char>, Seq<char>>,
    bodies: Map<Seq<char>, Seq<Seq<char>>>,
)
    requires
        bodies.dom().finite(),
        forall|i: int|
            0 <= i < paths.len() ==> bodies.contains_key(#[trigger] seeds[paths[i]]) && is_plain(
                bodies[seeds[paths[i]]],
            ),
    ensures
        run_from(paths, seeds, bodies, 0) == (Run {
            files: Seq::new(
                paths.len(),
                |i: int| (paths[i], dedented(bodies[seeds[paths[i]]]).flatten()),
            ),
            failure: None,
        }),
{
    assert forall|i: int| 0 <= i < paths.len() implies {
        &&& (#[trigger] tangle_file(seeds, bodies, paths[i])).failure is None
        &&& tangle_file(seeds, bodies, paths[i]).text == dedented(
            bodies[seeds[paths[i]]],
        ).flatten()
    } by {
        assert(bodies.contains_key(seeds[paths[i]]));
        law_plain_block_is_copied(bodies, seeds[paths[i]], Seq::empty(), Set::empty());
    }
    lemma_run_completes(paths, seeds, bodies, 0);
    assert(files_between(paths, seeds, bodies, 0, paths.len() as int) =~= Seq::new(
        paths.len(),
        |i: int| (paths[i], dedented(bodies[seeds[paths[i]]]).flatten()),
    ));
}

} // verus!
