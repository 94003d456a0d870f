//! The two registries of a document: the lines gathered under each block
//! name, and the block that seeds each output path.

use vstd::prelude::*;
use crate::assoc::{
    as_map, distinct_keys, first_of_each, holds_key, index_of_key, keys_of, lemma_as_map_at,
    lemma_as_map_finite, lemma_as_map_len, lemma_as_map_push, lemma_as_map_update,
    lemma_first_of_each,
};
use crate::text::same_text;

verus! {

/// The lines of a body as sequences of characters.
pub open spec fn lines_view(lines: Seq<String>) -> Seq<Seq<char>> {
    Seq::new(lines.len(), |i: int| lines[i]@)
}

/// One block name with the lines gathered under it.
struct Block {
    name: String,
    lines: Vec<String>,
}

/// The blocks of a registry as pairs of a name and its lines.
spec fn block_pairs(blocks: Seq<Block>) -> Seq<(Seq<char>, Seq<Seq<char>>)> {
    Seq::new(blocks.len(), |i: int| (blocks[i].name@, lines_view(blocks[i].lines@)))
}

/// The bodies of a document by block name.
///
/// A name occurs once; lines declared under it again are added behind those
/// that it already has.
pub struct NameToBody {
    blocks: Vec<Block>,
}

impl View for NameToBody {
    type V = Map<Seq<char>, Seq<Seq<char>>>;

    closed spec fn view(&self) -> Map<Seq<char>, Seq<Seq<char>>> {
        as_map(self.pairs())
    }
}

impl NameToBody {
    spec fn pairs(&self) -> Seq<(Seq<char>, Seq<Seq<char>>)> {
        block_pairs(self.blocks@)
    }

    #[verifier::type_invariant]
    spec fn well_formed(&self) -> bool {
        distinct_keys(self.pairs())
    }

    /// A registry always holds finitely many names.
    pub proof fn lemma_finite(&self)
        ensures
            self@.dom().finite(),
    {
        lemma_as_map_finite(self.pairs());
    }

    /// A registry without names.
    pub fn new() -> (registry: Self)
        ensures
            registry@ == Map::<Seq<char>, Seq<Seq<char>>>::empty(),
    {
        let registry = NameToBody { blocks: Vec::new() };
        registry
    }

    /// The index of the block called `name`, if there is one.
    fn position(&self, name: &str) -> (found: Option<usize>)
        ensures
            found is Some <==> holds_key(self.pairs(), name@),
            found matches Some(i) ==> i < self.blocks@.len() && self.pairs()[i as int].0 == name@,
    {
        let mut i: usize = 0;
        while i < self.blocks.len()
            invariant
                i <= self.blocks@.len(),
                forall|k: int| 0 <= k < i ==> (#[trigger] self.pairs()[k]).0 != name@,
            decreases self.blocks@.len() - i,
        {
            if same_text(self.blocks[i].name.as_str(), name) {
                assert(self.pairs()[i as int].0 == name@);
                return Some(i);
            }
            i += 1;
        }
        None
    }

    /// The number of names in the registry.
    pub fn len(&self) -> (count: usize)
        ensures
            count == self@.dom().len(),
    {
        proof {
            use_type_invariant(self);
            lemma_as_map_len(self.pairs());
        }
        self.blocks.len()
    }

    /// The body gathered under `name`, if the name was declared.
    pub fn get(&self, name: &str) -> (body: Option<&Vec<String>>)
        ensures
            body is Some <==> self@.contains_key(name@),
            body matches Some(lines) ==> lines_view(lines@) == self@[name@],
    {
        proof {
            use_type_invariant(self);
        }
        match self.position(name) {
            Some(i) => {
                proof {
                    lemma_as_map_at(self.pairs(), i as int);
                }
                Some(&self.blocks[i].lines)
            },
            None => None,
        }
    }

    /// Adds `lines` behind those that `name` already has, declaring the name
    /// where it is new.
    pub fn append(&mut self, name: String, lines: Vec<String>)
        ensures
            final(self)@ == old(self)@.insert(
                name@,
                body_or_empty(old(self)@, name@) + lines_view(lines@),
            ),
    {
        proof {
            use_type_invariant(&*self);
        }
        let ghost before = self.pairs();
        let found = self.position(name.as_str());
        let mut blocks: Vec<Block> = Vec::new();
        core::mem::swap(&mut self.blocks, &mut blocks);
        match found {
            Some(i) => {
                let mut lines = lines;
                let ghost added = lines@;
                let ghost held = blocks@;
                blocks[i].lines.append(&mut lines);
                proof {
                    assert(lines_view(held[i as int].lines@ + added) =~= lines_view(
                        held[i as int].lines@,
                    ) + lines_view(added));
                    lemma_as_map_at(before, i as int);
                    lemma_as_map_update(before, i as int, before[i as int].1 + lines_view(added));
                    assert(block_pairs(blocks@) =~= before.update(
                        i as int,
                        (before[i as int].0, before[i as int].1 + lines_view(added)),
                    ));
                }
            },
            None => {
                proof {
                    lemma_as_map_push(before, name@, lines_view(lines@));
                }
                blocks.push(Block { name, lines });
                assert(block_pairs(blocks@) =~= before.push((name@, lines_view(lines@))));
            },
        }
        self.blocks = blocks;
    }
}

/// One output path with the name of the block that seeds it.
struct Seed {
    path: String,
    name: String,
}

/// The seeds of a registry as pairs of a path and a block name.
spec fn seed_pairs(seeds: Seq<Seed>) -> Seq<(Seq<char>, Seq<char>)> {
    Seq::new(seeds.len(), |i: int| (seeds[i].path@, seeds[i].name@))
}

/// The block that seeds each output path.
///
/// A path occurs once, at the place of its first declaration; declaring it
/// again replaces the block named for it.
pub struct PathToName {
    seeds: Vec<Seed>,
}

impl View for PathToName {
    type V = Map<Seq<char>, Seq<char>>;

    closed spec fn view(&self) -> Map<Seq<char>, Seq<char>> {
        as_map(self.listed())
    }
}

impl PathToName {
    spec fn pairs(&self) -> Seq<(Seq<char>, Seq<char>)> {
        seed_pairs(self.seeds@)
    }

    #[verifier::type_invariant]
    spec fn well_formed(&self) -> bool {
        distinct_keys(self.pairs())
    }

    /// The seeds that the registry lists: the first of each path. By the
    /// invariant of the type these are all its seeds.
    spec fn listed(&self) -> Seq<(Seq<char>, Seq<char>)> {
        first_of_each(self.pairs())
    }

    /// The paths of the registry, in the order of their first declaration.
    pub closed spec fn paths(&self) -> Seq<Seq<char>> {
        keys_of(self.listed())
    }

    /// The listed paths are the declared paths, each once, and they are
    /// finitely many.
    pub proof fn lemma_paths(&self)
        ensures
            self@.dom().finite(),
            forall|i: int|
                0 <= i < self.paths().len() ==> self@.contains_key(#[trigger] self.paths()[i]),
            forall|path: Seq<char>| #[trigger]
                self@.contains_key(path) ==> self.paths().contains(path),
            forall|i: int, j: int|
                0 <= i < j < self.paths().len() ==> self.paths()[i] != self.paths()[j],
    {
        let listed = self.listed();
        lemma_first_of_each(self.pairs());
        lemma_as_map_finite(listed);
        assert forall|i: int| 0 <= i < self.paths().len() implies self@.contains_key(
            #[trigger] self.paths()[i],
        ) by {
            lemma_as_map_at(listed, i);
        }
        assert forall|path: Seq<char>| #[trigger] self@.contains_key(path) implies self.paths().contains(
            path,
        ) by {
            let at = index_of_key(listed, path);
            assert(self.paths()[at] == path);
        }
        assert forall|i: int, j: int| 0 <= i < j < self.paths().len() implies self.paths()[i]
            != self.paths()[j] by {
            assert(listed[i].0 != listed[j].0);
        }
    }

    /// A registry without paths.
    pub fn new() -> (registry: Self)
        ensures
            registry@ == Map::<Seq<char>, Seq<char>>::empty(),
            registry.paths() == Seq::<Seq<char>>::empty(),
    {
        let registry = PathToName { seeds: Vec::new() };
        proof {
            lemma_first_of_each(registry.pairs());
        }
        registry
    }

    /// The index of the seed for `path`, if there is one.
    fn position(&self, path: &str) -> (found: Option<usize>)
        ensures
            found is Some <==> holds_key(self.pairs(), path@),
            found matches Some(i) ==> i < self.seeds@.len() && self.pairs()[i as int].0 == path@,
    {
        let mut i: usize = 0;
        while i < self.seeds.len()
            invariant
                i <= self.seeds@.len(),
                forall|k: int| 0 <= k < i ==> (#[trigger] self.pairs()[k]).0 != path@,
            decreases self.seeds@.len() - i,
        {
            if same_text(self.seeds[i].path.as_str(), path) {
                assert(self.pairs()[i as int].0 == path@);
                return Some(i);
            }
            i += 1;
        }
        None
    }

    /// The number of paths in the registry.
    pub fn len(&self) -> (count: usize)
        ensures
            count == self.paths().len(),
            count == self@.dom().len(),
    {
        proof {
            use_type_invariant(self);
            lemma_first_of_each(self.pairs());
            lemma_as_map_len(self.pairs());
        }
        self.seeds.len()
    }

    /// The path at place `i` and the name of the block that seeds it.
    pub fn entry(&self, i: usize) -> (seed: (&str, &str))
        requires
            i < self.paths().len(),
        ensures
            seed.0@ == self.paths()[i as int],
            self@.contains_key(seed.0@),
            seed.1@ == self@[seed.0@],
    {
        proof {
            use_type_invariant(self);
            lemma_first_of_each(self.pairs());
            lemma_as_map_at(self.pairs(), i as int);
        }
        (self.seeds[i].path.as_str(), self.seeds[i].name.as_str())
    }

    /// The name of the block that seeds `path`, if the path was declared.
    pub fn get(&self, path: &str) -> (name: Option<&str>)
        ensures
            name is Some <==> self@.contains_key(path@),
            name matches Some(n) ==> n@ == self@[path@],
    {
        proof {
            use_type_invariant(self);
            lemma_first_of_each(self.pairs());
        }
        match self.position(path) {
            Some(i) => {
                proof {
                    lemma_as_map_at(self.pairs(), i as int);
                }
                Some(self.seeds[i].name.as_str())
            },
            None => None,
        }
    }

    /// Makes `name` the block that seeds `path`, in place of any block named
    /// for that path before.
    pub fn insert(&mut self, path: String, name: String)
        ensures
            final(self)@ == old(self)@.insert(path@, name@),
            final(self).paths() == if old(self)@.contains_key(path@) {
                old(self).paths()
            } else {
                old(self).paths().push(path@)
            },
    {
        proof {
            use_type_invariant(&*self);
            lemma_first_of_each(self.pairs());
        }
        let ghost before = self.pairs();
        let found = self.position(path.as_str());
        let mut seeds: Vec<Seed> = Vec::new();
        core::mem::swap(&mut self.seeds, &mut seeds);
        match found {
            Some(i) => {
                seeds[i].name = name;
                proof {
                    lemma_as_map_update(before, i as int, name@);
                    assert(seed_pairs(seeds@) =~= before.update(
                        i as int,
                        (before[i as int].0, name@),
                    ));
                }
            },
            None => {
                proof {
                    lemma_as_map_push(before, path@, name@);
                }
                seeds.push(Seed { path, name });
                assert(seed_pairs(seeds@) =~= before.push((path@, name@)));
            },
        }
        proof {
            lemma_first_of_each(seed_pairs(seeds@));
        }
        self.seeds = seeds;
    }
}

/// The body that `bodies` holds under `name`, or no lines where the name is
/// not declared.
pub open spec fn body_or_empty(
    bodies: Map<Seq<char>, Seq<Seq<char>>>,
    name: Seq<char>,
) -> Seq<Seq<char>> {
    if bodies.contains_key(name) {
        bodies[name]
    } else {
        Seq::empty()
    }
}

} // verus!
