//! The model of text that every contract in this crate is stated over:
//! a text is a sequence of characters, its lines are the runs between line
//! feeds, and a query is found in a line when it fills consecutive positions
//! of it.

use crate::folding::lowercase;
use vstd::prelude::*;

verus! {

/// `needle` fills the positions `at .. at + needle.len()` of `text`.
pub open spec fn occurs_at<A>(text: Seq<A>, needle: Seq<A>, at: int) -> bool {
    &&& 0 <= at
    &&& at + needle.len() <= text.len()
    &&& text.subrange(at, at + needle.len()) == needle
}

/// `needle` is a contiguous part of `text`. The empty text is part of every
/// text.
pub open spec fn contains<A>(text: Seq<A>, needle: Seq<A>) -> bool {
    exists|at: int| occurs_at(text, needle, at)
}

/// The number of characters in front of the first line feed of `text`; the
/// length of `text` where it holds no line feed.
pub open spec fn line_end(text: Seq<char>) -> nat
    decreases text.len(),
{
    if text.len() == 0 || text[0] == '\n' {
        0
    } else {
        1 + line_end(text.drop_first())
    }
}

/// The first line of `text`: the characters in front of its first line feed,
/// without the carriage return that may stand directly before that line
/// feed. A carriage return anywhere else belongs to the line.
pub open spec fn first_line(text: Seq<char>) -> Seq<char> {
    let end = line_end(text) as int;
    if 0 < end < text.len() && text[end - 1] == '\r' {
        text.subrange(0, end - 1)
    } else {
        text.subrange(0, end)
    }
}

/// What is left of `text` behind its first line and the line feed that ends
/// it.
pub open spec fn after_first_line(text: Seq<char>) -> Seq<char> {
    let end = line_end(text) as int;
    if end < text.len() {
        text.subrange(end + 1, text.len() as int)
    } else {
        Seq::empty()
    }
}

/// The lines of `text`, in order and without their line endings. A line ends
/// at a line feed or, for the last one, at the end of the text; a text that
/// ends in a line feed has no empty line behind it, and the empty text has
/// no line at all.
pub open spec fn lines(text: Seq<char>) -> Seq<Seq<char>>
    decreases text.len(),
{
    if text.len() == 0 {
        Seq::empty()
    } else {
        seq![first_line(text)] + lines(after_first_line(text))
    }
}

/// Whether a search for `query` picks `line`: as written, `line` must hold
/// `query`; without regard to case, the lower-case form of `line` must hold
/// the lower-case form of `query`.
pub open spec fn line_matches(line: Seq<char>, query: Seq<char>, case_sensitive: bool) -> bool {
    if case_sensitive {
        contains(line, query)
    } else {
        contains(lowercase(line), lowercase(query))
    }
}

/// [`line_matches`] as a test on lines, for one query.
pub open spec fn is_match(query: Seq<char>, case_sensitive: bool) -> spec_fn(Seq<char>) -> bool {
    |line: Seq<char>| line_matches(line, query, case_sensitive)
}

/// The result of a search: the lines of `content` that match `query`, each
/// as often as it stands in `content` and in the order in which they stand
/// there.
pub open spec fn matching_lines(
    query: Seq<char>,
    content: Seq<char>,
    case_sensitive: bool,
) -> Seq<Seq<char>> {
    lines(content).filter(is_match(query, case_sensitive))
}

/// The position that ends the first line is the only one with no line feed
/// in front of it and a line feed, or the end of the text, on it.
pub proof fn lemma_line_end_is(text: Seq<char>, end: int)
    requires
        0 <= end <= text.len(),
        forall|k: int| 0 <= k < end ==> text[k] != '\n',
        end < text.len() ==> text[end] == '\n',
    ensures
        line_end(text) == end,
    decreases end,
{
    if end != 0 {
        let rest = text.drop_first();
        assert forall|k: int| 0 <= k < end - 1 implies rest[k] != '\n' by {
            assert(rest[k] == text[k + 1]);
        }
        lemma_line_end_is(rest, end - 1);
    }
}

/// The first line ends within the text, in front of a line feed or at the
/// end of the text, and holds no line feed.
pub proof fn lemma_line_end(text: Seq<char>)
    ensures
        line_end(text) <= text.len(),
        forall|k: int| 0 <= k < line_end(text) ==> text[k] != '\n',
        line_end(text) < text.len() ==> text[line_end(text) as int] == '\n',
    decreases text.len(),
{
    if text.len() != 0 && text[0] != '\n' {
        let rest = text.drop_first();
        lemma_line_end(rest);
        assert forall|k: int| 0 <= k < line_end(text) implies text[k] != '\n' by {
            if k > 0 {
                assert(text[k] == rest[k - 1]);
            }
        }
        assert(line_end(text) < text.len() ==> text[line_end(text) as int] == rest[line_end(
            rest,
        ) as int]);
    }
}

/// What follows the first line is shorter than the text.
pub proof fn lemma_after_first_line_shorter(text: Seq<char>)
    requires
        text.len() > 0,
    ensures
        after_first_line(text).len() < text.len(),
{
    lemma_line_end(text);
}

/// A search takes the first line where it matches, and then goes on with
/// what follows that line.
pub proof fn lemma_matching_lines_step(query: Seq<char>, content: Seq<char>, case_sensitive: bool)
    requires
        content.len() > 0,
    ensures
        matching_lines(query, content, case_sensitive) == (if line_matches(
            first_line(content),
            query,
            case_sensitive,
        ) {
            seq![first_line(content)]
        } else {
            Seq::empty()
        }) + matching_lines(query, after_first_line(content), case_sensitive),
{
    lines(after_first_line(content)).lemma_filter_prepend(
        first_line(content),
        is_match(query, case_sensitive),
    );
}

/// A search of the empty text finds nothing.
pub proof fn lemma_matching_lines_empty(query: Seq<char>, content: Seq<char>, case_sensitive: bool)
    requires
        content.len() == 0,
    ensures
        matching_lines(query, content, case_sensitive) == Seq::<Seq<char>>::empty(),
{
    reveal(Seq::filter);
}

} // verus!
