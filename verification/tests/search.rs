use minigrep::search::contains;
use minigrep::{run, search, search_case_insensitive, Config};

fn config(query: &str, case_sensitive: bool) -> Config {
    Config { query: String::from(query), filename: String::from("poem.txt"), case_sensitive }
}

#[test]
fn case_sensitive() {
    let query = "duct";
    let contents = "\
Rust:
safe, fast, productive.
Pick three.
Duct tape.";
    assert_eq!(vec!["safe, fast, productive."], search(query, contents));
}

#[test]
fn case_insensitive() {
    let query = "rUsT";
    let contents = "\
Rust:
safe, fast, productive.
Pick three.
Trust me.";

    assert_eq!(
        vec!["Rust:", "Trust me."],
        search_case_insensitive(query, contents)
    );
}

#[test]
fn case_insensitive_finds_only_the_line_with_the_word() {
    let contents = "Rust:\nsafe, fast, productive.\nPick three.\nDuct tape.";
    assert_eq!(vec!["Rust:"], search_case_insensitive("rUsT", contents));
}

#[test]
fn every_found_line_holds_the_query() {
    let contents = "one fish\ntwo fish\nred herring\nblue fish\n";
    let found = search("fish", contents);
    assert_eq!(found.len(), 3);
    for line in found {
        assert!(line.contains("fish"));
    }
}

#[test]
fn ignoring_case_finds_what_case_finds_and_more() {
    let contents = "To be\nor not TO be\nthat is the question\nto BE";
    let exact = search("To", contents);
    let folded = search_case_insensitive("To", contents);
    assert_eq!(exact, vec!["To be"]);
    assert_eq!(folded, vec!["To be", "or not TO be", "to BE"]);
    assert!(exact.len() <= folded.len());
    for line in &exact {
        assert!(folded.contains(line));
    }
}

#[test]
fn found_lines_keep_the_order_of_the_text() {
    let contents = "b1\na\nb2\nb1\nc\nb3";
    assert_eq!(search("b", contents), vec!["b1", "b2", "b1", "b3"]);
}

#[test]
fn equal_lines_are_all_kept() {
    assert_eq!(search("x", "x\nx\ny\nx"), vec!["x", "x", "x"]);
}

#[test]
fn found_lines_are_slices_of_the_text() {
    let contents = String::from("alpha\nbeta\ngamma");
    let found = search("a", &contents);
    assert_eq!(found, vec!["alpha", "beta", "gamma"]);
    let start = contents.as_ptr() as usize;
    assert_eq!(found[0].as_ptr() as usize, start);
    assert_eq!(found[1].as_ptr() as usize, start + 6);
    assert_eq!(found[2].as_ptr() as usize, start + 11);
}

#[test]
fn empty_text_has_no_lines() {
    assert_eq!(search("", ""), Vec::<&str>::new());
    assert_eq!(search("a", ""), Vec::<&str>::new());
    assert_eq!(search_case_insensitive("", ""), Vec::<&str>::new());
}

#[test]
fn empty_query_finds_every_line() {
    assert_eq!(search("", "a\n\nb"), vec!["a", "", "b"]);
    assert_eq!(search_case_insensitive("", "a\n\nb"), vec!["a", "", "b"]);
}

#[test]
fn final_line_feed_adds_no_line() {
    assert_eq!(search("", "a\nb\n"), vec!["a", "b"]);
    assert_eq!(search("", "a\nb"), vec!["a", "b"]);
    assert_eq!(search("", "\n"), vec![""]);
    assert_eq!(search("", "a\n\n"), vec!["a", ""]);
}

#[test]
fn carriage_return_before_line_feed_is_part_of_the_line_ending() {
    assert_eq!(search("", "a\r\nb\r\n"), vec!["a", "b"]);
    assert_eq!(search("a", "a\r\nb\r\n"), vec!["a"]);
    assert_eq!(search("\r", "a\r\nb"), Vec::<&str>::new());
    assert_eq!(search("", "\r\n"), vec![""]);
    assert_eq!(search("", "a\r\r\n"), vec!["a\r"]);
}

#[test]
fn carriage_return_elsewhere_belongs_to_the_line() {
    assert_eq!(search("", "a\rb\nc\r"), vec!["a\rb", "c\r"]);
    assert_eq!(search("\r", "a\rb\nc"), vec!["a\rb"]);
}

#[test]
fn query_never_matches_across_lines() {
    assert_eq!(search("a\nb", "a\nb"), Vec::<&str>::new());
    assert_eq!(search("ab", "a\nb"), Vec::<&str>::new());
}

#[test]
fn query_longer_than_every_line_finds_nothing() {
    assert_eq!(search("abcd", "abc\nbcd"), Vec::<&str>::new());
}

#[test]
fn whole_line_and_line_ends_match() {
    assert_eq!(search("abc", "abc\nxabc\nabcx\nab c"), vec!["abc", "xabc", "abcx"]);
}

#[test]
fn characters_of_several_bytes() {
    let contents = "na\u{ef}ve caf\u{e9}\n\u{65e5}\u{672c}\u{8a9e}\n\u{1f980} crab\nplain";
    assert_eq!(search("\u{e9}", contents), vec!["na\u{ef}ve caf\u{e9}"]);
    assert_eq!(search("\u{672c}", contents), vec!["\u{65e5}\u{672c}\u{8a9e}"]);
    assert_eq!(search("\u{1f980} c", contents), vec!["\u{1f980} crab"]);
    assert_eq!(search("\u{e8}", contents), Vec::<&str>::new());
    assert_eq!(search("\u{c9}", contents), Vec::<&str>::new());
    assert_eq!(search_case_insensitive("\u{c9}", contents), vec!["na\u{ef}ve caf\u{e9}"]);
}

#[test]
fn lower_casing_is_done_line_by_line() {
    // A capital sigma at the end of a word becomes a final sigma, alone it
    // becomes a plain one: here case finds the line and ignoring case does not.
    let contents = "\u{391}\u{3a3}";
    assert_eq!(search("\u{3a3}", contents), vec![contents]);
    assert_eq!(search_case_insensitive("\u{3a3}", contents), Vec::<&str>::new());
    assert_eq!(search_case_insensitive("\u{391}\u{3a3}", contents), vec![contents]);
}

#[test]
fn found_lines_are_as_written_when_case_is_ignored() {
    assert_eq!(search_case_insensitive("hello", "HeLLo World\nbye"), vec!["HeLLo World"]);
}

#[test]
fn contains_finds_a_part_anywhere() {
    assert!(contains("haystack", "hay"));
    assert!(contains("haystack", "yst"));
    assert!(contains("haystack", "stack"));
    assert!(contains("haystack", "haystack"));
    assert!(contains("haystack", ""));
    assert!(contains("", ""));
}

#[test]
fn contains_rejects_what_is_not_a_part() {
    assert!(!contains("haystack", "hat"));
    assert!(!contains("haystack", "haystacks"));
    assert!(!contains("haystack", "Hay"));
    assert!(!contains("", "a"));
    assert!(!contains("aab", "aba"));
    assert!(contains("aaab", "aab"));
}

#[test]
fn run_searches_as_written_where_case_counts() {
    let contents = "Rust:\nsafe, fast, productive.\nPick three.\nDuct tape.";
    assert_eq!(run(&config("duct", true), contents), vec!["safe, fast, productive."]);
    assert_eq!(run(&config("Duct", true), contents), vec!["Duct tape."]);
}

#[test]
fn run_ignores_case_where_it_does_not_count() {
    let contents = "Rust:\nsafe, fast, productive.\nPick three.\nDuct tape.";
    assert_eq!(
        run(&config("duct", false), contents),
        vec!["safe, fast, productive.", "Duct tape."]
    );
    assert_eq!(run(&config("RUST", false), contents), vec!["Rust:"]);
}

fn texts_up_to(alphabet: &[char], length: usize) -> Vec<String> {
    let mut all = vec![String::new()];
    let mut last = vec![String::new()];
    for _ in 0..length {
        let mut next = Vec::new();
        for text in &last {
            for letter in alphabet {
                let mut longer = text.clone();
                longer.push(*letter);
                next.push(longer);
            }
        }
        all.extend(next.iter().cloned());
        last = next;
    }
    all
}

#[test]
fn search_agrees_with_lines_and_contains_of_std() {
    let queries = ["", "a", "B", "b", "aB", "\r", "\n", "a\r", "\u{e9}", "\u{e9}a", "aa"];
    for content in texts_up_to(&['a', 'B', '\n', '\r', '\u{e9}'], 5) {
        for query in queries {
            let expected: Vec<&str> = content.lines().filter(|line| line.contains(query)).collect();
            assert_eq!(search(query, &content), expected, "{:?} in {:?}", query, content);
        }
    }
}

#[test]
fn search_case_insensitive_agrees_with_lines_and_to_lowercase_of_std() {
    let queries = ["", "a", "B", "b", "Ab", "\r", "\u{c9}", "\u{e9}A", "\u{3a3}", "\u{3c3}"];
    for content in texts_up_to(&['a', 'B', '\n', '\r', '\u{c9}', '\u{3a3}'], 4) {
        for query in queries {
            let lowered = query.to_lowercase();
            let expected: Vec<&str> =
                content.lines().filter(|line| line.to_lowercase().contains(&lowered)).collect();
            assert_eq!(
                search_case_insensitive(query, &content),
                expected,
                "{:?} in {:?}",
                query,
                content
            );
        }
    }
}

#[test]
fn contains_agrees_with_contains_of_std() {
    let texts = texts_up_to(&['a', 'b', '\u{e9}', '\u{20ac}'], 4);
    let needles = texts_up_to(&['a', 'b', '\u{e9}', '\u{20ac}'], 2);
    for text in &texts {
        for needle in &needles {
            assert_eq!(
                contains(text, needle),
                text.contains(needle.as_str()),
                "{:?} in {:?}",
                needle,
                text
            );
        }
    }
}
