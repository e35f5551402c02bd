//! What holds of every search, whatever the query and the text.

use crate::text::{
    after_first_line, contains, first_line, is_match, lemma_line_end, lemma_line_end_is, line_end,
    line_matches, lines, matching_lines, occurs_at,
};
use vstd::prelude::*;

verus! {

/// The positions at which a filter finds what it keeps: `at[k]` is where the
/// `k`-th kept item stands in `items`. They rise, so the kept items stand in
/// the order they had, and no position whose item passes the test is left
/// out.
pub proof fn lemma_filter_positions<A>(items: Seq<A>, test: spec_fn(A) -> bool) -> (at: Seq<int>)
    ensures
        at.len() == items.filter(test).len(),
        forall|k: int|
            0 <= k < at.len() ==> 0 <= #[trigger] at[k] < items.len() && items[at[k]]
                == items.filter(test)[k],
        forall|j: int, k: int| 0 <= j < k < at.len() ==> at[j] < at[k],
        forall|i: int| 0 <= i < items.len() && test(items[i]) ==> at.contains(i),
    decreases items.len(),
{
    reveal(Seq::filter);
    if items.len() == 0 {
        Seq::empty()
    } else {
        let front = items.drop_last();
        let front_at = lemma_filter_positions(front, test);
        let at = if test(items.last()) {
            front_at.push(items.len() - 1)
        } else {
            front_at
        };
        assert forall|i: int| 0 <= i < items.len() && test(items[i]) implies at.contains(i) by {
            if i < items.len() - 1 {
                assert(front[i] == items[i]);
                assert(front_at.contains(i));
                let k = choose|k: int| 0 <= k < front_at.len() && front_at[k] == i;
                assert(at[k] == i);
            } else {
                assert(at[at.len() - 1] == i);
            }
        }
        at
    }
}

/// Where every item that passes `narrow` also passes `wide`, filtering by
/// `narrow` is filtering by `wide` first and by `narrow` after.
pub proof fn lemma_filter_within<A>(
    items: Seq<A>,
    narrow: spec_fn(A) -> bool,
    wide: spec_fn(A) -> bool,
)
    requires
        forall|i: int| 0 <= i < items.len() && narrow(items[i]) ==> wide(items[i]),
    ensures
        items.filter(narrow) == items.filter(wide).filter(narrow),
        items.filter(narrow).len() <= items.filter(wide).len(),
    decreases items.len(),
{
    reveal(Seq::filter);
    if items.len() != 0 {
        let front = items.drop_last();
        assert forall|i: int| 0 <= i < front.len() && narrow(front[i]) implies wide(front[i]) by {
            assert(front[i] == items[i]);
        }
        lemma_filter_within(front, narrow, wide);
        if wide(items.last()) {
            let kept = front.filter(wide);
            assert(kept.push(items.last()).drop_last() =~= kept);
        }
    }
    items.filter(wide).lemma_filter_len(narrow);
}

/// No line holds a line feed.
pub proof fn lemma_lines_hold_no_line_feed(text: Seq<char>)
    ensures
        forall|k: int, j: int|
            0 <= k < lines(text).len() && 0 <= j < lines(text)[k].len() ==> #[trigger] lines(
                text,
            )[k][j] != '\n',
    decreases text.len(),
{
    if text.len() > 0 {
        let rest = after_first_line(text);
        lemma_line_end(text);
        lemma_lines_hold_no_line_feed(rest);
        assert forall|k: int, j: int|
            0 <= k < lines(text).len() && 0 <= j < lines(text)[k].len() implies #[trigger] lines(
            text,
        )[k][j] != '\n' by {
            if k == 0 {
                assert(first_line(text)[j] == text[j]);
            } else {
                assert(lines(text)[k] == lines(rest)[k - 1]);
            }
        }
    }
}

/// Every line is a contiguous part of the text.
pub proof fn lemma_lines_are_parts(text: Seq<char>)
    ensures
        forall|k: int| 0 <= k < lines(text).len() ==> contains(text, #[trigger] lines(text)[k]),
    decreases text.len(),
{
    if text.len() > 0 {
        let rest = after_first_line(text);
        let end = line_end(text) as int;
        lemma_line_end(text);
        lemma_lines_are_parts(rest);
        assert forall|k: int| 0 <= k < lines(text).len() implies contains(
            text,
            #[trigger] lines(text)[k],
        ) by {
            let line = lines(text)[k];
            if k == 0 {
                assert(text.subrange(0, line.len() as int) =~= line);
                assert(occurs_at(text, line, 0));
            } else {
                assert(line == lines(rest)[k - 1]);
                let at = choose|at: int| occurs_at(rest, line, at);
                assert(text.subrange(end + 1 + at, end + 1 + at + line.len()) =~= rest.subrange(
                    at,
                    at + line.len(),
                ));
                assert(occurs_at(text, line, end + 1 + at));
            }
        }
    }
}

/// A line feed at the end of a text ends its last line and starts no new
/// one: behind a text that does not itself end in a line feed or a carriage
/// return, it leaves the lines as they are.
pub proof fn lemma_final_line_feed(text: Seq<char>)
    requires
        text.len() > 0,
        text.last() != '\n',
        text.last() != '\r',
    ensures
        lines(text.push('\n')) == lines(text),
    decreases text.len(),
{
    let ended = text.push('\n');
    let end = line_end(text) as int;
    lemma_line_end(text);
    assert forall|k: int| 0 <= k < end implies ended[k] != '\n' by {
        assert(ended[k] == text[k]);
    }
    assert(ended[end] == '\n');
    lemma_line_end_is(ended, end);
    assert(first_line(ended) =~= first_line(text));
    if end == text.len() {
        assert(after_first_line(ended) =~= Seq::<char>::empty());
        assert(after_first_line(text) =~= Seq::<char>::empty());
    } else {
        let rest = after_first_line(text);
        assert(after_first_line(ended) =~= rest.push('\n'));
        assert(rest.last() == text.last());
        lemma_final_line_feed(rest);
    }
}

/// Every line that a search finds is a match: searched as written, it holds
/// the query; searched without regard to case, its lower-case form holds
/// the lower-case form of the query.
pub proof fn lemma_found_lines_match(query: Seq<char>, content: Seq<char>, case_sensitive: bool)
    ensures
        forall|k: int|
            0 <= k < matching_lines(query, content, case_sensitive).len() ==> line_matches(
                #[trigger] matching_lines(query, content, case_sensitive)[k],
                query,
                case_sensitive,
            ),
{
    let found = matching_lines(query, content, case_sensitive);
    assert forall|k: int| 0 <= k < found.len() implies line_matches(
        #[trigger] found[k],
        query,
        case_sensitive,
    ) by {
        lines(content).lemma_filter_pred(is_match(query, case_sensitive), k);
    }
}

/// Every line that a search as written finds holds the query as a
/// contiguous part.
pub proof fn lemma_found_lines_hold_query(query: Seq<char>, content: Seq<char>)
    ensures
        forall|k: int|
            0 <= k < matching_lines(query, content, true).len() ==> contains(
                #[trigger] matching_lines(query, content, true)[k],
                query,
            ),
{
    lemma_found_lines_match(query, content, true);
}

/// A search finds no more lines than the text has.
pub proof fn lemma_found_lines_bounded(query: Seq<char>, content: Seq<char>, case_sensitive: bool)
    ensures
        matching_lines(query, content, case_sensitive).len() <= lines(content).len(),
{
    lines(content).lemma_filter_len(is_match(query, case_sensitive));
}

/// The lines that a search finds stand in the order of the text: there are
/// rising positions `at` in the lines of the text such that the `k`-th found
/// line is the line at `at[k]`, and every line that matches is at one of
/// them. So the result is the matching lines, all of them, each once for
/// each time it stands in the text, and none moved.
pub proof fn lemma_found_lines_in_order(
    query: Seq<char>,
    content: Seq<char>,
    case_sensitive: bool,
) -> (at: Seq<int>)
    ensures
        at.len() == matching_lines(query, content, case_sensitive).len(),
        forall|k: int|
            0 <= k < at.len() ==> 0 <= #[trigger] at[k] < lines(content).len() && lines(
                content,
            )[at[k]] == matching_lines(query, content, case_sensitive)[k],
        forall|j: int, k: int| 0 <= j < k < at.len() ==> at[j] < at[k],
        forall|i: int|
            0 <= i < lines(content).len() && line_matches(
                #[trigger] lines(content)[i],
                query,
                case_sensitive,
            ) ==> at.contains(i),
{
    lemma_filter_positions(lines(content), is_match(query, case_sensitive))
}

/// A search without regard to case finds every line that the search as
/// written finds, in the same order, and so at least as many, wherever
/// lower-casing keeps the query inside the lines that hold it. It need not:
/// what lower-casing makes of a letter can depend on the letters around it,
/// and those of the line are not those of the query.
pub proof fn lemma_ignoring_case_finds_more(query: Seq<char>, content: Seq<char>)
    requires
        forall|i: int|
            0 <= i < lines(content).len() && contains(#[trigger] lines(content)[i], query)
                ==> line_matches(lines(content)[i], query, false),
    ensures
        matching_lines(query, content, true) == matching_lines(query, content, false).filter(
            is_match(query, true),
        ),
        matching_lines(query, content, true).len() <= matching_lines(query, content, false).len(),
{
    lemma_filter_within(lines(content), is_match(query, true), is_match(query, false));
}

} // verus!
