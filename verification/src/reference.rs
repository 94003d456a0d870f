//! References to other blocks inside a line of a body.
//!
//! A line refers to a block when it holds `<<`, at least one character of a
//! name, and `>>`: the text before the first `<<` is the leading fragment, the
//! text up to the first `>>` after it is the name, and the rest of the line is
//! the trailing fragment.

use vstd::prelude::*;
use vstd::string::StrSliceExecFns;
use crate::text::chars_of;

verus! {

/// The two characters at `i` and `i + 1` of `line` are both `c`.
pub open spec fn pair_at(line: Seq<char>, c: char, i: int) -> bool {
    0 <= i && i + 1 < line.len() && line[i] == c && line[i + 1] == c
}

/// The first index at or after `from` where a pair of `c` starts, or the
/// length of `line` where there is none.
pub open spec fn find_pair(line: Seq<char>, c: char, from: int) -> int
    decreases line.len() - from,
{
    if from < 0 || from + 1 >= line.len() {
        line.len() as int
    } else if line[from] == c && line[from + 1] == c {
        from
    } else {
        find_pair(line, c, from + 1)
    }
}

/// `at` is where the first pair of `c` at or after `from` starts, or the
/// length of `line` where no such pair exists.
pub open spec fn is_first_pair(line: Seq<char>, c: char, from: int, at: int) -> bool {
    &&& from <= at || at == line.len()
    &&& at <= line.len()
    &&& at < line.len() ==> pair_at(line, c, at)
    &&& forall|k: int| from <= k < at ==> !pair_at(line, c, k)
}

/// `find_pair` is the one index that `is_first_pair` accepts.
pub proof fn lemma_find_pair(line: Seq<char>, c: char, from: int, at: int)
    requires
        0 <= from,
    ensures
        is_first_pair(line, c, from, find_pair(line, c, from)),
        is_first_pair(line, c, from, at) ==> at == find_pair(line, c, from),
    decreases line.len() - from,
{
    if from + 1 >= line.len() {
    } else if line[from] == c && line[from + 1] == c {
    } else {
        lemma_find_pair(line, c, from + 1, at);
    }
}

/// A line taken apart around the reference it holds.
pub struct Reference {
    /// The text before the reference.
    pub leading: Seq<char>,
    /// The name of the block referred to.
    pub name: Seq<char>,
    /// The text after the reference.
    pub trailing: Seq<char>,
}

/// The reference that `line` holds, if it holds one.
pub open spec fn parse(line: Seq<char>) -> Option<Reference> {
    let open = find_pair(line, '<', 0);
    let close = find_pair(line, '>', open + 2);
    if open + 2 < close < line.len() {
        Some(
            Reference {
                leading: line.take(open),
                name: line.subrange(open + 2, close),
                trailing: line.skip(close + 2),
            },
        )
    } else {
        None
    }
}

/// The name of a reference holds no `>>`: it ends before the first one.
pub proof fn lemma_name_holds_no_closing_pair(line: Seq<char>, k: int)
    ensures
        parse(line) matches Some(reference) ==> !pair_at(reference.name, '>', k),
{
    if let Some(reference) = parse(line) {
        let open = find_pair(line, '<', 0);
        let close = find_pair(line, '>', open + 2);
        lemma_find_pair(line, '<', 0, open);
        lemma_find_pair(line, '>', open + 2, close);
        if pair_at(reference.name, '>', k) {
            assert(reference.name[k] == line[open + 2 + k]);
            assert(reference.name[k + 1] == line[open + 2 + k + 1]);
            assert(pair_at(line, '>', open + 2 + k));
        }
    }
}

/// The three fragments of a line that refers to a block, borrowed from it.
pub struct MacroReference<'a> {
    /// The text before the reference.
    pub leading: &'a str,
    /// The name of the block referred to.
    pub name: &'a str,
    /// The text after the reference.
    pub trailing: &'a str,
}

impl<'a> View for MacroReference<'a> {
    type V = Reference;

    open spec fn view(&self) -> Reference {
        Reference { leading: self.leading@, name: self.name@, trailing: self.trailing@ }
    }
}

/// Finds the first pair of `c` in `chars` at or after `from`.
fn find_pair_from(chars: &Vec<char>, c: char, from: usize) -> (at: usize)
    ensures
        at == find_pair(chars@, c, from as int),
        is_first_pair(chars@, c, from as int, at as int),
{
    let len = chars.len();
    let mut at: usize = from;
    while at < len && !(at + 1 < len && chars[at] == c && chars[at + 1] == c)
        invariant
            len == chars.len(),
            from <= at,
            forall|k: int| from <= k < at ==> !pair_at(chars@, c, k),
        decreases len - at,
    {
        at += 1;
    }
    if at >= len {
        proof {
            lemma_find_pair(chars@, c, from as int, len as int);
        }
        len
    } else {
        proof {
            lemma_find_pair(chars@, c, from as int, at as int);
        }
        at
    }
}

/// Takes `line` apart around the reference it holds, if it holds one.
pub fn parse_reference<'a>(line: &'a str) -> (found: Option<MacroReference<'a>>)
    ensures
        found is Some <==> parse(line@) is Some,
        found matches Some(r) ==> r@ == parse(line@).unwrap(),
{
    let chars = chars_of(line);
    let len = chars.len();
    let open = find_pair_from(&chars, '<', 0);
    if open >= len || len - open < 2 {
        return None;
    }
    let close = find_pair_from(&chars, '>', open + 2);
    if open + 2 < close && close < len {
        Some(
            MacroReference {
                leading: line.substring_char(0, open),
                name: line.substring_char(open + 2, close),
                trailing: line.substring_char(close + 2, len),
            },
        )
    } else {
        None
    }
}

} // verus!
