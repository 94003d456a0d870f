//! The tangle engine: a named block is expanded into text, with every line
//! that refers to another block replaced by that block's own expansion.

use vstd::prelude::*;
use vstd::string::StringExecFns;
use crate::reference::{parse, parse_reference};
use crate::registry::{lines_view, NameToBody, PathToName};
use crate::text::{count_leading_spaces, dedent, dedent_line, leading_spaces, same_text};

verus! {

/// Why an expansion stopped before its end.
pub enum Failure {
    /// A line refers to a name that the registry does not hold.
    Undefined(Seq<char>),
    /// A block refers to itself, directly or through other blocks.
    Cyclic(Seq<char>),
}

/// What an expansion emits, and the failure that stopped it, if any.
///
/// The text of a failed expansion is what had been emitted when it stopped.
pub struct Expansion {
    /// The text emitted.
    pub text: Seq<char>,
    /// The failure that ended the expansion early.
    pub failure: Option<Failure>,
}

/// An expansion that emits `text` and succeeds.
pub open spec fn emitted(text: Seq<char>) -> Expansion {
    Expansion { text, failure: None }
}

/// An expansion that emits nothing and fails.
pub open spec fn failed(failure: Failure) -> Expansion {
    Expansion { text: Seq::empty(), failure: Some(failure) }
}

/// `first`, and after it `second` where `first` succeeded.
pub open spec fn followed_by(first: Expansion, second: Expansion) -> Expansion {
    if first.failure is Some {
        first
    } else {
        Expansion { text: first.text + second.text, failure: second.failure }
    }
}

/// The number of declared names that are not being expanded.
pub open spec fn remaining(bodies: Map<Seq<char>, Seq<Seq<char>>>, active: Set<Seq<char>>) -> nat {
    bodies.dom().difference(active).len()
}

/// Starting to expand a declared name leaves fewer names to expand.
pub proof fn lemma_remaining_decreases(
    bodies: Map<Seq<char>, Seq<Seq<char>>>,
    active: Set<Seq<char>>,
    name: Seq<char>,
)
    requires
        bodies.dom().finite(),
        bodies.contains_key(name),
        !active.contains(name),
    ensures
        remaining(bodies, active.insert(name)) < remaining(bodies, active),
{
    let before = bodies.dom().difference(active);
    assert(bodies.dom().difference(active.insert(name)) =~= before.remove(name));
}

/// The expansion of the block `name` with `prefix` before each of its lines,
/// while the blocks in `active` are being expanded around it.
pub open spec fn expand(
    bodies: Map<Seq<char>, Seq<Seq<char>>>,
    name: Seq<char>,
    prefix: Seq<char>,
    active: Set<Seq<char>>,
) -> Expansion
    decreases remaining(bodies, active), 0nat, 0nat,
    when bodies.dom().finite()
    via expand_decreases
{
    if !bodies.contains_key(name) {
        failed(Failure::Undefined(name))
    } else if active.contains(name) {
        failed(Failure::Cyclic(name))
    } else {
        expand_body(bodies, bodies[name], prefix, active.insert(name), 0)
    }
}

/// The expansion of the lines of `body` from index `from` on.
///
/// Each line first loses the indentation of the body's first line. A line
/// that then holds a reference becomes the expansion of the block referred
/// to, with the line's leading fragment added to the prefix, followed by the
/// line's trailing fragment; any other line is emitted behind the prefix.
pub open spec fn expand_body(
    bodies: Map<Seq<char>, Seq<Seq<char>>>,
    body: Seq<Seq<char>>,
    prefix: Seq<char>,
    active: Set<Seq<char>>,
    from: nat,
) -> Expansion
    decreases remaining(bodies, active), 1nat, body.len() - from,
    when bodies.dom().finite()
{
    if from >= body.len() {
        emitted(Seq::empty())
    } else {
        followed_by(
            expand_line(bodies, dedent(body[from as int], leading_spaces(body[0])), prefix, active),
            expand_body(bodies, body, prefix, active, from + 1),
        )
    }
}

/// The expansion of one line that has lost its indentation.
pub open spec fn expand_line(
    bodies: Map<Seq<char>, Seq<Seq<char>>>,
    line: Seq<char>,
    prefix: Seq<char>,
    active: Set<Seq<char>>,
) -> Expansion
    decreases remaining(bodies, active), 0nat, 1nat,
    when bodies.dom().finite()
{
    match parse(line) {
        Some(reference) => followed_by(
            expand(bodies, reference.name, prefix + reference.leading, active),
            emitted(reference.trailing),
        ),
        None => emitted(prefix + line),
    }
}

#[via_fn]
proof fn expand_decreases(
    bodies: Map<Seq<char>, Seq<Seq<char>>>,
    name: Seq<char>,
    prefix: Seq<char>,
    active: Set<Seq<char>>,
) {
    if bodies.contains_key(name) && !active.contains(name) {
        lemma_remaining_decreases(bodies, active, name);
    }
}

/// The error that ends a tangle run.
#[derive(Debug, PartialEq, Eq)]
pub enum TangleError {
    /// A line refers to the named block, which the document does not declare.
    UndefinedMacro(String),
    /// The named block refers to itself, directly or through other blocks.
    CyclicMacro(String),
}

impl View for TangleError {
    type V = Failure;

    open spec fn view(&self) -> Failure {
        match self {
            TangleError::UndefinedMacro(name) => Failure::Undefined(name@),
            TangleError::CyclicMacro(name) => Failure::Cyclic(name@),
        }
    }
}

/// What a failure says to the reader of a run's output.
pub open spec fn message_of(failure: Failure) -> Seq<char> {
    match failure {
        Failure::Undefined(name) => "Macro `"@ + name + "` is undefined!"@,
        Failure::Cyclic(name) => "Macro `"@ + name + "` refers to itself!"@,
    }
}

impl TangleError {
    /// The name of the block that the error is about.
    pub fn name(&self) -> (name: &str)
        ensures
            name@ == match self@ {
                Failure::Undefined(name) => name,
                Failure::Cyclic(name) => name,
            },
    {
        match self {
            TangleError::UndefinedMacro(name) => name.as_str(),
            TangleError::CyclicMacro(name) => name.as_str(),
        }
    }

    /// A sentence that names the block and says what is wrong with it.
    pub fn message(&self) -> (text: String)
        ensures
            text@ == message_of(self@),
    {
        let mut text = String::from_str("Macro `");
        match self {
            TangleError::UndefinedMacro(name) => {
                text.append(name.as_str());
                text.append("` is undefined!");
            },
            TangleError::CyclicMacro(name) => {
                text.append(name.as_str());
                text.append("` refers to itself!");
            },
        }
        text
    }
}

/// The names on the stack of blocks that are being expanded.
pub open spec fn names_on(stack: Seq<String>) -> Set<Seq<char>> {
    Set::new(|name: Seq<char>| exists|i: int| 0 <= i < stack.len() && (#[trigger] stack[i])@ == name)
}

/// Tells whether `name` is on the stack of blocks that are being expanded.
fn is_active(stack: &Vec<String>, name: &str) -> (found: bool)
    ensures
        found == names_on(stack@).contains(name@),
{
    let mut i: usize = 0;
    while i < stack.len()
        invariant
            i <= stack@.len(),
            forall|k: int| 0 <= k < i ==> (#[trigger] stack@[k])@ != name@,
        decreases stack@.len() - i,
    {
        if same_text(stack[i].as_str(), name) {
            return true;
        }
        i += 1;
    }
    false
}

/// Expands the block `name` behind `out`, with `stack` holding the names of
/// the blocks that are being expanded around it.
fn expand_into(
    out: &mut String,
    name_to_body: &NameToBody,
    name: &str,
    prefix: &str,
    stack: &mut Vec<String>,
) -> (result: Result<(), TangleError>)
    ensures
        final(stack)@ == old(stack)@,
        final(out)@ == old(out)@ + expand(
            name_to_body@,
            name@,
            prefix@,
            names_on(old(stack)@),
        ).text,
        match result {
            Ok(_) => expand(name_to_body@, name@, prefix@, names_on(old(stack)@)).failure is None,
            Err(error) => expand(name_to_body@, name@, prefix@, names_on(old(stack)@)).failure
                == Some(error@),
        },
    decreases remaining(name_to_body@, names_on(old(stack)@)),
{
    proof {
        name_to_body.lemma_finite();
    }
    let ghost bodies = name_to_body@;
    let ghost outer = names_on(stack@);
    let ghost start = out@;
    let body = match name_to_body.get(name) {
        Some(body) => body,
        None => {
            return Err(TangleError::UndefinedMacro(String::from_str(name)));
        },
    };
    if is_active(stack, name) {
        return Err(TangleError::CyclicMacro(String::from_str(name)));
    }
    let ghost lines = lines_view(body@);
    let ghost active = outer.insert(name@);
    if body.len() == 0 {
        return Ok(());
    }
    let width = count_leading_spaces(body[0].as_str());
    let ghost held = stack@;
    stack.push(String::from_str(name));
    proof {
        lemma_remaining_decreases(bodies, outer, name@);
        assert(names_on(stack@) =~= active) by {
            assert forall|n: Seq<char>| active.contains(n) implies names_on(stack@).contains(n) by {
                if n == name@ {
                    assert(stack@[held.len() as int]@ == n);
                } else {
                    let i = choose|i: int| 0 <= i < held.len() && (#[trigger] held[i])@ == n;
                    assert(stack@[i]@ == n);
                }
            }
        }
    }
    let ghost pushed = stack@;
    let mut result: Result<(), TangleError> = Ok(());
    let mut i: usize = 0;
    while i < body.len()
        invariant_except_break
            result is Ok,
            expand_body(bodies, lines, prefix@, active, 0).failure == expand_body(
                bodies,
                lines,
                prefix@,
                active,
                i as nat,
            ).failure,
            start + expand_body(bodies, lines, prefix@, active, 0).text == out@ + expand_body(
                bodies,
                lines,
                prefix@,
                active,
                i as nat,
            ).text,
        invariant
            i <= body@.len(),
            body@.len() > 0,
            bodies == name_to_body@,
            bodies.dom().finite(),
            lines == lines_view(body@),
            width == leading_spaces(lines[0]),
            stack@ == pushed,
            names_on(pushed) == active,
            outer == names_on(old(stack)@),
            remaining(bodies, active) < remaining(bodies, outer),
        ensures
            stack@ == pushed,
            start + expand_body(bodies, lines, prefix@, active, 0).text == out@,
            match result {
                Ok(_) => expand_body(bodies, lines, prefix@, active, 0).failure is None,
                Err(error) => expand_body(bodies, lines, prefix@, active, 0).failure == Some(
                    error@,
                ),
            },
        decreases body@.len() - i,
    {
        let ghost before = out@;
        let line = dedent_line(body[i].as_str(), width);
        let ghost here = expand_line(bodies, line@, prefix@, active);
        match parse_reference(line) {
            Some(reference) => {
                let mut inner = String::from_str(prefix);
                inner.append(reference.leading);
                let ghost called = expand(bodies, reference.name@, inner@, active);
                match expand_into(out, name_to_body, reference.name, inner.as_str(), stack) {
                    Ok(_) => {
                        out.append(reference.trailing);
                        assert(out@ == before + here.text) by {
                            assert(before + called.text + reference.trailing@ =~= before + (
                            called.text + reference.trailing@));
                        }
                    },
                    Err(error) => {
                        result = Err(error);
                        break ;
                    },
                }
            },
            None => {
                out.append(prefix);
                out.append(line);
            },
        }
        i += 1;
    }
    stack.pop();
    result
}

/// Expands the block `name` behind what `out` holds, each emitted line
/// preceded by `prefix`.
///
/// The expansion stops at the first reference to a name that the registry
/// does not hold, or to a block that is being expanded already; `out` then
/// keeps what had been emitted before.
pub fn tangle(out: &mut String, name_to_body: &NameToBody, name: &str, prefix: &str) -> (result:
    Result<(), TangleError>)
    ensures
        final(out)@ == old(out)@ + expand(name_to_body@, name@, prefix@, Set::empty()).text,
        match result {
            Ok(_) => expand(name_to_body@, name@, prefix@, Set::empty()).failure is None,
            Err(error) => expand(name_to_body@, name@, prefix@, Set::empty()).failure == Some(
                error@,
            ),
        },
{
    let mut stack: Vec<String> = Vec::new();
    assert(names_on(stack@) =~= Set::<Seq<char>>::empty());
    expand_into(out, name_to_body, name, prefix, &mut stack)
}

/// What a run over the output paths of a document yields: the files that were
/// tangled in full, in the order of their paths, and the path and failure at
/// which the run stopped, if it did.
pub struct Run {
    /// Each finished file as its path and its content.
    pub files: Seq<(Seq<char>, Seq<char>)>,
    /// The path whose expansion failed, with the failure.
    pub failure: Option<(Seq<char>, Failure)>,
}

/// The expansion that seeds the file at `path`: that of the block named for
/// the path, without a prefix.
pub open spec fn tangle_file(
    seeds: Map<Seq<char>, Seq<char>>,
    bodies: Map<Seq<char>, Seq<Seq<char>>>,
    path: Seq<char>,
) -> Expansion {
    expand(bodies, seeds[path], Seq::empty(), Set::empty())
}

/// The run over `paths` from index `from` on: one file for each path, up to
/// the first path whose expansion fails. That path yields no file, and no
/// path after it is tried.
pub open spec fn run_from(
    paths: Seq<Seq<char>>,
    seeds: Map<Seq<char>, Seq<char>>,
    bodies: Map<Seq<char>, Seq<Seq<char>>>,
    from: nat,
) -> Run
    decreases paths.len() - from,
{
    if from >= paths.len() {
        Run { files: Seq::empty(), failure: None }
    } else {
        let path = paths[from as int];
        let expansion = tangle_file(seeds, bodies, path);
        match expansion.failure {
            Some(failure) => Run { files: Seq::empty(), failure: Some((path, failure)) },
            None => {
                let rest = run_from(paths, seeds, bodies, from + 1);
                Run { files: seq![(path, expansion.text)] + rest.files, failure: rest.failure }
            },
        }
    }
}

/// One output file.
#[derive(Debug, PartialEq, Eq)]
pub struct TangledFile {
    /// Where the file goes.
    pub path: String,
    /// What the file holds.
    pub content: String,
}

/// The failure that stopped a run.
#[derive(Debug, PartialEq, Eq)]
pub struct TangleFailure {
    /// The output path whose expansion failed.
    pub path: String,
    /// Why it failed.
    pub error: TangleError,
}

/// The outcome of a run over all output paths of a document.
#[derive(Debug, PartialEq, Eq)]
pub struct TangleRun {
    /// The files tangled in full before the run ended.
    pub files: Vec<TangledFile>,
    /// The failure that stopped the run, if one did.
    pub failure: Option<TangleFailure>,
}

/// Files as pairs of a path and a content.
pub open spec fn files_view(files: Seq<TangledFile>) -> Seq<(Seq<char>, Seq<char>)> {
    Seq::new(files.len(), |i: int| (files[i].path@, files[i].content@))
}

impl View for TangleRun {
    type V = Run;

    open spec fn view(&self) -> Run {
        Run {
            files: files_view(self.files@),
            failure: match self.failure {
                Some(failure) => Some((failure.path@, failure.error@)),
                None => None,
            },
        }
    }
}

/// Tangles every output path of a document, in the order of the paths'
/// first declaration, and stops at the first path whose expansion fails.
pub fn tangle_all(path_to_name: &PathToName, name_to_body: &NameToBody) -> (run: TangleRun)
    ensures
        run@ == run_from(path_to_name.paths(), path_to_name@, name_to_body@, 0),
{
    let ghost paths = path_to_name.paths();
    let ghost seeds = path_to_name@;
    let ghost bodies = name_to_body@;
    let count = path_to_name.len();
    let mut files: Vec<TangledFile> = Vec::new();
    let mut failure: Option<TangleFailure> = None;
    let mut i: usize = 0;
    while i < count
        invariant_except_break
            failure is None,
            run_from(paths, seeds, bodies, 0).failure == run_from(
                paths,
                seeds,
                bodies,
                i as nat,
            ).failure,
            run_from(paths, seeds, bodies, 0).files == files_view(files@) + run_from(
                paths,
                seeds,
                bodies,
                i as nat,
            ).files,
        invariant
            i <= count,
            count == paths.len(),
            paths == path_to_name.paths(),
            seeds == path_to_name@,
            bodies == name_to_body@,
        ensures
            run_from(paths, seeds, bodies, 0).files == files_view(files@),
            run_from(paths, seeds, bodies, 0).failure == match failure {
                Some(stopped) => Some((stopped.path@, stopped.error@)),
                None => None,
            },
        decreases count - i,
    {
        let (path, name) = path_to_name.entry(i);
        let mut content = String::new();
        let ghost rest = run_from(paths, seeds, bodies, (i + 1) as nat);
        let ghost done = files_view(files@);
        match tangle(&mut content, name_to_body, name, "") {
            Ok(_) => {
                proof {
                    reveal_strlit("");
                    assert(""@ =~= Seq::<char>::empty());
                    assert(Seq::<char>::empty() + tangle_file(seeds, bodies, path@).text
                        =~= tangle_file(seeds, bodies, path@).text);
                }
                files.push(TangledFile { path: String::from_str(path), content });
                proof {
                    assert(done + (seq![(path@, content@)] + rest.files) =~= done.push(
                        (path@, content@),
                    ) + rest.files);
                }
            },
            Err(error) => {
                proof {
                    reveal_strlit("");
                    assert(""@ =~= Seq::<char>::empty());
                }
                failure = Some(TangleFailure { path: String::from_str(path), error });
                break ;
            },
        }
        i += 1;
    }
    proof {
        if failure is None {
            assert(files_view(files@) + Seq::<(Seq<char>, Seq<char>)>::empty() =~= files_view(
                files@,
            ));
        }
    }
    TangleRun { files, failure }
}

} // verus!
