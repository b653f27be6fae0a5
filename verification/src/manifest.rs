//! The plain-text list of source locators: a fixed header line, then one
//! locator per line, with blank lines and `#` comments left out.

use crate::text::{
    join_with, lemma_pieces_nonempty, lemma_pieces_of_join, pieces, plain, split_on, string_views,
};
use vstd::prelude::*;

verus! {

/// The first line that every source list starts with.
pub const SOURCE_LIST_HEADER: &'static str = "=== InfoAPI schema list ===";

/// Why a text is no source list.
#[derive(Debug, Clone, Copy, PartialEq, Eq, Structural)]
pub enum ManifestError {
    /// The text is empty.
    Empty,
    /// The first line is not the header of a source list.
    NotASchemaList,
}

/// A line names a source when it is neither blank nor a `#` comment.
pub open spec fn is_locator_line(line: Seq<char>) -> bool {
    line.len() > 0 && line[0] != '#'
}

/// Those of the lines that name a source, in order.
pub open spec fn locator_lines(lines: Seq<Seq<char>>) -> Seq<Seq<char>>
    decreases lines.len(),
{
    if lines.len() == 0 {
        Seq::<Seq<char>>::empty()
    } else if is_locator_line(lines.last()) {
        locator_lines(lines.drop_last()).push(lines.last())
    } else {
        locator_lines(lines.drop_last())
    }
}

/// What a text says as a source list: its locators, or why it is none.
pub open spec fn manifest_locators(text: Seq<char>) -> Result<Seq<Seq<char>>, ManifestError> {
    let lines = pieces(text, '\n');
    if text.len() == 0 {
        Err(ManifestError::Empty)
    } else if lines[0] != SOURCE_LIST_HEADER@ {
        Err(ManifestError::NotASchemaList)
    } else {
        Ok(locator_lines(lines.drop_first()))
    }
}

/// Whether the line names a source.
pub fn names_a_source(line: &str) -> (r: bool)
    ensures
        r == is_locator_line(line@),
{
    line.unicode_len() > 0 && line.get_char(0) != '#'
}

/// Reads a source list: checks the header line and returns the locators
/// that follow it, in order.
pub fn parse_manifest(text: &str) -> (r: Result<Vec<String>, ManifestError>)
    ensures
        match r {
            Ok(locators) => manifest_locators(text@) == Ok::<Seq<Seq<char>>, ManifestError>(
                string_views(locators@),
            ),
            Err(e) => manifest_locators(text@) == Err::<Seq<Seq<char>>, ManifestError>(e),
        },
{
    if text.unicode_len() == 0 {
        return Err(ManifestError::Empty);
    }
    let lines: Vec<String> = split_on(text, '\n');
    proof {
        lemma_pieces_nonempty(text@, '\n');
        assert(string_views(lines@).len() == lines@.len());
        assert(string_views(lines@)[0] == lines@[0]@);
    }
    let header: String = String::from_str(SOURCE_LIST_HEADER);
    if !(lines[0] == header) {
        return Err(ManifestError::NotASchemaList);
    }
    let ghost all = string_views(lines@);
    let mut locators: Vec<String> = Vec::new();
    let mut i: usize = 1;
    proof {
        assert(all.subrange(1, 1) =~= Seq::<Seq<char>>::empty());
        assert(string_views(locators@) =~= Seq::<Seq<char>>::empty());
    }
    while i < lines.len()
        invariant
            1 <= i <= lines@.len(),
            all == string_views(lines@),
            string_views(locators@) == locator_lines(all.subrange(1, i as int)),
        decreases lines@.len() - i,
    {
        proof {
            let upto = all.subrange(1, i + 1);
            assert(upto.drop_last() =~= all.subrange(1, i as int));
            assert(upto.last() == lines@[i as int]@);
        }
        if names_a_source(lines[i].as_str()) {
            let ghost before = locators@;
            locators.push(lines[i].clone());
            proof {
                assert(string_views(locators@) =~= string_views(before).push(lines@[i as int]@));
            }
        }
        i = i + 1;
    }
    proof {
        assert(all.subrange(1, lines@.len() as int) =~= all.drop_first());
    }
    Ok(locators)
}

/// The locators of a list of lines are lines that name a source, no more of
/// them than there are lines; where every line names a source, they are the
/// lines themselves.
pub proof fn lemma_locator_lines(lines: Seq<Seq<char>>)
    ensures
        locator_lines(lines).len() <= lines.len(),
        forall|i: int|
            0 <= i < locator_lines(lines).len() ==> is_locator_line(
                #[trigger] locator_lines(lines)[i],
            ),
        (forall|i: int| 0 <= i < lines.len() ==> is_locator_line(#[trigger] lines[i]))
            ==> locator_lines(lines) == lines,
    decreases lines.len(),
{
    if lines.len() > 0 {
        lemma_locator_lines(lines.drop_last());
        if forall|i: int| 0 <= i < lines.len() ==> is_locator_line(#[trigger] lines[i]) {
            assert forall|i: int| 0 <= i < lines.drop_last().len() implies is_locator_line(
                #[trigger] lines.drop_last()[i],
            ) by {
                assert(lines.drop_last()[i] == lines[i]);
            }
            assert(lines.drop_last().push(lines.last()) =~= lines);
        }
    }
}

/// A text made of the header line and of lines that each name a source has
/// exactly those lines as its locators, in order.
pub proof fn lemma_manifest_of_lines(locators: Seq<Seq<char>>)
    requires
        forall|i: int|
            0 <= i < locators.len() ==> is_locator_line(#[trigger] locators[i]) && plain(
                locators[i],
                '\n',
            ),
    ensures
        manifest_locators(join_with(seq![SOURCE_LIST_HEADER@] + locators, '\n')) == Ok::<
            Seq<Seq<char>>,
            ManifestError,
        >(locators),
{
    reveal_strlit("=== InfoAPI schema list ===");
    let lines = seq![SOURCE_LIST_HEADER@] + locators;
    let text = join_with(lines, '\n');
    assert(plain(SOURCE_LIST_HEADER@, '\n'));
    assert forall|i: int| 0 <= i < lines.len() implies plain(#[trigger] lines[i], '\n') by {
        if i > 0 {
            assert(lines[i] == locators[i - 1]);
        }
    }
    lemma_pieces_of_join(lines, '\n');
    assert(lines[0] == SOURCE_LIST_HEADER@);
    assert(lines.drop_first() =~= locators);
    lemma_locator_lines(locators);
}

} // verus!
