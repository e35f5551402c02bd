//! The search itself: the lines of a text that hold a query.

use crate::config::Config;
use crate::encoding::{
    lemma_contains_encoded, lemma_encode_injective, lemma_first_line_feed,
    lemma_last_carriage_return, CARRIAGE_RETURN, LINE_FEED,
};
use crate::folding::{lowercase, to_lowercase};
use crate::laws::lemma_found_lines_bounded;
use crate::text;
use crate::text::{
    after_first_line, first_line, lemma_after_first_line_shorter, lemma_matching_lines_empty,
    lemma_matching_lines_step, line_end, line_matches, lines, matching_lines, occurs_at,
};
use vstd::prelude::*;
use vstd::string::*;

verus! {

/// Whether `needle` stands in `haystack` from position `at` on.
fn occurs_at_bytes(haystack: &[u8], needle: &[u8], at: usize) -> (found: bool)
    requires
        at + needle@.len() <= haystack@.len(),
    ensures
        found == occurs_at(haystack@, needle@, at as int),
{
    let hay_len = haystack.len();
    let needle_len = needle.len();
    let mut k: usize = 0;
    while k < needle_len
        invariant
            k <= needle_len == needle@.len(),
            at + needle_len <= hay_len == haystack@.len(),
            forall|j: int| 0 <= j < k ==> haystack@[at + j] == needle@[j],
        decreases needle_len - k,
    {
        if haystack[at + k] != needle[k] {
            assert(haystack@.subrange(at as int, at + needle@.len())[k as int] != needle@[k as int]);
            return false;
        }
        k += 1;
    }
    assert(haystack@.subrange(at as int, at + needle@.len()) =~= needle@);
    true
}

/// Whether the bytes of `needle` stand somewhere in `haystack`, one after
/// the other.
fn contains_bytes(haystack: &[u8], needle: &[u8]) -> (found: bool)
    ensures
        found == text::contains(haystack@, needle@),
{
    if needle.len() == 0 {
        assert(occurs_at(haystack@, needle@, 0)) by {
            assert(haystack@.subrange(0, 0) =~= needle@);
        }
        return true;
    }
    if needle.len() > haystack.len() {
        return false;
    }
    let last: usize = haystack.len() - needle.len();
    let mut at: usize = 0;
    while at <= last
        invariant
            at <= last + 1,
            0 < needle@.len(),
            last + needle@.len() == haystack@.len() <= usize::MAX,
            forall|i: int| 0 <= i < at ==> !occurs_at(haystack@, needle@, i),
        decreases last + 1 - at,
    {
        if occurs_at_bytes(haystack, needle, at) {
            return true;
        }
        at += 1;
    }
    false
}

/// Whether `haystack` holds `needle` as a contiguous part. The empty string
/// is part of every string.
pub fn contains(haystack: &str, needle: &str) -> (found: bool)
    ensures
        found == text::contains(haystack@, needle@),
{
    proof {
        lemma_contains_encoded(haystack@, needle@);
    }
    contains_bytes(haystack.as_bytes(), needle.as_bytes())
}

/// Splits `text` into its first line, without the line ending, and what
/// follows that line.
fn split_first_line<'a>(text: &'a str) -> (parts: (&'a str, &'a str))
    ensures
        parts.0@ == first_line(text@),
        parts.1@ == after_first_line(text@),
{
    let bytes = text.as_bytes();
    let len = bytes.len();
    let mut end: usize = 0;
    while end < len && bytes[end] != LINE_FEED
        invariant
            end <= len,
            len == bytes@.len(),
            forall|k: int| 0 <= k < end ==> bytes@[k] != LINE_FEED,
        decreases len - end,
    {
        end += 1;
    }
    let ghost chars = text@;
    proof {
        lemma_first_line_feed(chars, end as int);
    }
    let ghost head_chars = chars.subrange(0, line_end(chars) as int);
    if end == len {
        proof {
            reveal_strlit("");
        }
        return (text, "");
    }
    let (head, rest) = text.split_at(end);
    let (_, tail) = rest.split_at(1);
    proof {
        assert(bytes@.subrange(end as int, len as int).subrange(1, len - end) =~= bytes@.subrange(
            end + 1,
            len as int,
        ));
        lemma_encode_injective(head@, head_chars);
        lemma_encode_injective(tail@, after_first_line(chars));
    }
    if end > 0 {
        proof {
            lemma_last_carriage_return(head_chars);
        }
        if bytes[end - 1] == CARRIAGE_RETURN {
            let (line, _) = head.split_at(end - 1);
            proof {
                lemma_encode_injective(line@, head_chars.drop_last());
                assert(head_chars.drop_last() =~= first_line(chars));
            }
            return (line, tail);
        }
    }
    (head, tail)
}

/// The lines of `content` that hold `query`, in the order in which they
/// stand in `content`. Each is a slice of `content`.
pub fn search<'a>(query: &str, content: &'a str) -> (found: Vec<&'a str>)
    ensures
        found.deep_view() == matching_lines(query@, content@, true),
        forall|i: int| 0 <= i < found@.len() ==> text::contains(#[trigger] found@[i]@, query@),
        found@.len() <= lines(content@).len(),
{
    let mut found: Vec<&'a str> = Vec::new();
    let mut rest = content;
    while !rest.is_empty()
        invariant
            matching_lines(query@, content@, true) == found.deep_view() + matching_lines(
                query@,
                rest@,
                true,
            ),
            forall|i: int| 0 <= i < found@.len() ==> text::contains(#[trigger] found@[i]@, query@),
        decreases rest@.len(),
    {
        let (line, tail) = split_first_line(rest);
        proof {
            lemma_matching_lines_step(query@, rest@, true);
            lemma_after_first_line_shorter(rest@);
        }
        let ghost before = found.deep_view();
        if contains(line, query) {
            found.push(line);
            assert(found.deep_view() =~= before + seq![line@]);
        }
        rest = tail;
    }
    proof {
        lemma_matching_lines_empty(query@, rest@, true);
        lemma_found_lines_bounded(query@, content@, true);
    }
    found
}

/// The lines of `content` whose lower-case form holds the lower-case form of
/// `query`, in the order in which they stand in `content`. Each is a slice
/// of `content`, as it is written there.
pub fn search_case_insensitive<'a>(query: &str, content: &'a str) -> (found: Vec<&'a str>)
    ensures
        found.deep_view() == matching_lines(query@, content@, false),
        forall|i: int|
            0 <= i < found@.len() ==> text::contains(
                lowercase(#[trigger] found@[i]@),
                lowercase(query@),
            ),
        found@.len() <= lines(content@).len(),
{
    let lowered_query = to_lowercase(query);
    let mut found: Vec<&'a str> = Vec::new();
    let mut rest = content;
    while !rest.is_empty()
        invariant
            lowered_query@ == lowercase(query@),
            matching_lines(query@, content@, false) == found.deep_view() + matching_lines(
                query@,
                rest@,
                false,
            ),
            forall|i: int|
                0 <= i < found@.len() ==> text::contains(
                    lowercase(#[trigger] found@[i]@),
                    lowercase(query@),
                ),
        decreases rest@.len(),
    {
        let (line, tail) = split_first_line(rest);
        proof {
            lemma_matching_lines_step(query@, rest@, false);
            lemma_after_first_line_shorter(rest@);
        }
        let ghost before = found.deep_view();
        let lowered = to_lowercase(line);
        if contains(lowered.as_str(), lowered_query.as_str()) {
            found.push(line);
            assert(found.deep_view() =~= before + seq![line@]);
        }
        rest = tail;
    }
    proof {
        lemma_matching_lines_empty(query@, rest@, false);
        lemma_found_lines_bounded(query@, content@, false);
    }
    found
}

/// The search that `config` asks for, in `contents`: the lines that hold
/// its query, compared as written where case counts and in lower case where
/// it does not, in the order in which they stand in `contents`.
pub fn run<'a>(config: &Config, contents: &'a str) -> (found: Vec<&'a str>)
    ensures
        found.deep_view() == matching_lines(config.query@, contents@, config.case_sensitive),
        forall|i: int|
            0 <= i < found@.len() ==> line_matches(
                #[trigger] found@[i]@,
                config.query@,
                config.case_sensitive,
            ),
        found@.len() <= lines(contents@).len(),
{
    if config.case_sensitive {
        search(config.query.as_str(), contents)
    } else {
        search_case_insensitive(config.query.as_str(), contents)
    }
}

} // verus!
