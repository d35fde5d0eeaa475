use eijiro_parser::{load, lookup, parse, print_found, save, search, DictError, Field};

const CORPUS: &str = "■fa : 1\n■fo : 2\n■fob : 3\n■focus : 4\n■foo : 5\n■food : 6\n■foul : 7\n\
■foo : 8\n■café : 9\n■cafe : 10\n■caffè : 11";

fn headwords(found: &[(String, &Vec<Field>)]) -> Vec<String> {
    found.iter().map(|(h, _)| h.clone()).collect()
}

fn bodies(found: &[(String, &Vec<Field>)]) -> Vec<Vec<String>> {
    found
        .iter()
        .map(|(_, g)| g.iter().map(|f| f.explanation.body.clone()).collect())
        .collect()
}

#[test]
fn exact_search_finds_the_headword_alone() {
    let dict = parse(CORPUS).unwrap();
    let found = search(&dict, "foo", 0).unwrap();
    assert_eq!(headwords(&found), vec!["foo"]);
    assert_eq!(bodies(&found), vec![vec!["5", "8"]]);
    let found = search(&dict, "café", 0).unwrap();
    assert_eq!(headwords(&found), vec!["café"]);
    assert_eq!(bodies(&found), vec![vec!["9"]]);
}

#[test]
fn exact_search_finds_nothing_for_other_texts() {
    let dict = parse(CORPUS).unwrap();
    for query in ["", "f", "fooo", "Foo", "caf", "cafe\u{301}", "zzz", "cafè"] {
        assert!(search(&dict, query, 0).unwrap().is_empty(), "{:?}", query);
    }
}

#[test]
fn search_finds_what_is_within_the_budget() {
    let dict = parse(CORPUS).unwrap();
    let found = search(&dict, "foo", 1).unwrap();
    assert_eq!(headwords(&found), vec!["fo", "fob", "foo", "food"]);
    assert_eq!(bodies(&found), vec![vec!["2"], vec!["3"], vec!["5", "8"], vec!["6"]]);
    let found = search(&dict, "foo", 2).unwrap();
    assert_eq!(headwords(&found), vec!["fa", "fo", "fob", "foo", "food", "foul"]);
    let found = search(&dict, "foo", 3).unwrap();
    assert_eq!(headwords(&found), vec!["fa", "fo", "fob", "focus", "foo", "food", "foul"]);
}

#[test]
fn edits_are_counted_in_characters() {
    let dict = parse(CORPUS).unwrap();
    // One character replaced, though it takes two bytes.
    assert_eq!(headwords(&search(&dict, "cafe", 1).unwrap()), vec!["cafe", "café"]);
    assert_eq!(headwords(&search(&dict, "caffe", 1).unwrap()), vec!["cafe", "caffè"]);
    assert_eq!(headwords(&search(&dict, "cafe", 2).unwrap()), vec!["cafe", "caffè", "café"]);
    assert_eq!(headwords(&search(&dict, "", 2).unwrap()), vec!["fa", "fo"]);
    assert_eq!(headwords(&search(&dict, "café", 0).unwrap()), vec!["café"]);
    assert_eq!(headwords(&search(&dict, "caffè", 0).unwrap()), vec!["caffè"]);
}

fn distance(a: &str, b: &str) -> usize {
    let a: Vec<char> = a.chars().collect();
    let b: Vec<char> = b.chars().collect();
    let mut row: Vec<usize> = (0..=b.len()).collect();
    for i in 1..=a.len() {
        let mut next = vec![i];
        for j in 1..=b.len() {
            let replace = row[j - 1] + if a[i - 1] == b[j - 1] { 0 } else { 1 };
            next.push(replace.min(row[j] + 1).min(next[j - 1] + 1));
        }
        row = next;
    }
    row[b.len()]
}

fn words(letters: &[&str], length: usize) -> Vec<String> {
    let mut all = vec![String::new()];
    let mut last = vec![String::new()];
    for _ in 0..length {
        let mut next = Vec::new();
        for word in &last {
            for letter in letters {
                next.push(format!("{}{}", word, letter));
            }
        }
        all.extend(next.iter().cloned());
        last = next;
    }
    all
}

fn corpus_of(headwords: &[String]) -> String {
    headwords
        .iter()
        .filter(|h| !h.is_empty())
        .map(|h| format!("■{} : x", h))
        .collect::<Vec<_>>()
        .join("\n")
}

#[test]
fn distance_counts_edits() {
    assert_eq!(distance("", ""), 0);
    assert_eq!(distance("abc", ""), 3);
    assert_eq!(distance("", "é"), 1);
    assert_eq!(distance("kitten", "sitting"), 3);
    assert_eq!(distance("ab", "ba"), 2);
    assert_eq!(distance("café", "cafe"), 1);
}

#[test]
fn plain_queries_find_all_within_the_budget() {
    let keys = words(&["a", "b", "é"], 3);
    let dict = parse(&corpus_of(&keys)).unwrap();
    for query in words(&["a", "b", "c"], 3) {
        for budget in 0..4u32 {
            let mut expected: Vec<String> = keys
                .iter()
                .filter(|k| !k.is_empty() && distance(&query, k) <= budget as usize)
                .cloned()
                .collect();
            expected.sort();
            let found = headwords(&search(&dict, &query, budget).unwrap());
            assert_eq!(found, expected, "{:?} {}", query, budget);
        }
    }
}

#[test]
fn plain_queries_find_wide_headwords_within_the_budget() {
    let keys = words(&["a", "é", "一", "\u{10000}"], 3);
    let dict = parse(&corpus_of(&keys)).unwrap();
    for query in words(&["a", "b"], 3) {
        for budget in 0..4u32 {
            let mut expected: Vec<String> = keys
                .iter()
                .filter(|k| !k.is_empty() && distance(&query, k) <= budget as usize)
                .cloned()
                .collect();
            expected.sort();
            let found = headwords(&search(&dict, &query, budget).unwrap());
            assert_eq!(found, expected, "{:?} {}", query, budget);
        }
    }
}

#[test]
fn other_queries_find_all_within_the_budget() {
    let keys = words(&["a", "é", "è"], 3);
    let dict = parse(&corpus_of(&keys)).unwrap();
    for query in words(&["a", "é", "è", "一"], 3) {
        for budget in 0..4u32 {
            let mut expected: Vec<String> = keys
                .iter()
                .filter(|k| !k.is_empty() && distance(&query, k) <= budget as usize)
                .cloned()
                .collect();
            expected.sort();
            let found = headwords(&search(&dict, &query, budget).unwrap());
            assert_eq!(found, expected, "{:?} {}", query, budget);
        }
    }
}

#[test]
fn characters_that_share_a_byte_do_not_hide_each_other() {
    let dict = parse("■éè : 1\n■é : 2\n■è : 3\n■e : 4\n■caffè : 5\n■café : 6").unwrap();
    assert_eq!(headwords(&search(&dict, "éè", 0).unwrap()), vec!["éè"]);
    assert_eq!(headwords(&search(&dict, "éè", 1).unwrap()), vec!["è", "é", "éè"]);
    assert_eq!(headwords(&search(&dict, "éè", 2).unwrap()), vec!["e", "è", "é", "éè"]);
    assert_eq!(headwords(&search(&dict, "é", 1).unwrap()), vec!["e", "è", "é", "éè"]);
    assert_eq!(headwords(&search(&dict, "caffé", 1).unwrap()), vec!["caffè", "café"]);
    assert_eq!(bodies(&search(&dict, "èé", 1).unwrap()), vec![vec!["3"], vec!["2"]]);
}

#[test]
fn a_larger_budget_finds_no_less() {
    let dict = parse(CORPUS).unwrap();
    for query in ["foo", "cafe", "x", "", "focus", "café", "éè", "caffè"] {
        let mut before: Vec<String> = Vec::new();
        for budget in 0..4 {
            let now = headwords(&search(&dict, query, budget).unwrap());
            for headword in &before {
                assert!(now.contains(headword), "{:?} {}", query, budget);
            }
            before = now;
        }
    }
}

#[test]
fn headwords_come_in_ascending_order_of_bytes() {
    let dict = parse(CORPUS).unwrap();
    for query in ["foo", "cafe", ""] {
        for budget in 0..5 {
            let found = headwords(&search(&dict, query, budget).unwrap());
            for pair in found.windows(2) {
                assert!(pair[0].as_bytes() < pair[1].as_bytes());
            }
        }
    }
    let all = headwords(&search(&dict, "", 10).unwrap());
    assert_eq!(
        all,
        vec!["cafe", "caffè", "café", "fa", "fo", "fob", "focus", "foo", "food", "foul"]
    );
}

#[test]
fn search_in_an_empty_dictionary_finds_nothing() {
    let dict = parse("").unwrap();
    assert!(search(&dict, "foo", 2).unwrap().is_empty());
    assert!(search(&dict, "", 0).unwrap().is_empty());
}

#[test]
fn search_in_a_loaded_dictionary() {
    let dict = load(&save(&parse(CORPUS).unwrap())).unwrap();
    let found = search(&dict, "foo", 1).unwrap();
    assert_eq!(headwords(&found), vec!["fo", "fob", "foo", "food"]);
    assert_eq!(bodies(&found), vec![vec!["2"], vec!["3"], vec!["5", "8"], vec!["6"]]);
}

#[test]
fn too_large_automaton_is_an_invalid_query() {
    let dict = parse(CORPUS).unwrap();
    let query = "a".repeat(600);
    assert_eq!(search(&dict, &query, 1).err(), Some(DictError::InvalidQuery));
    let query = "ab".repeat(20);
    assert_eq!(search(&dict, &query, 3).err(), Some(DictError::InvalidQuery));
    assert!(search(&dict, &"a".repeat(300), 1).is_ok());
    assert!(search(&dict, "abcdefgh", 1).is_ok());
    assert_eq!(search(&dict, "a", u32::MAX).err(), Some(DictError::InvalidQuery));
    assert_eq!(search(&dict, "é", u32::MAX).err(), Some(DictError::InvalidQuery));
    assert_eq!(search(&dict, "é", u32::MAX - 1).err(), Some(DictError::InvalidQuery));
    assert!(search(&dict, "", u32::MAX).is_err());
    // A query of other characters is searched for by length: the budget and
    // the length of the query together must stay small.
    assert_eq!(search(&dict, &"é".repeat(600), 1).err(), Some(DictError::InvalidQuery));
    assert_eq!(search(&dict, "é", 600).err(), Some(DictError::InvalidQuery));
    assert!(search(&dict, &"é".repeat(100), 3).unwrap().is_empty());
    assert_eq!(headwords(&search(&dict, "café", 300).unwrap()).len(), 10);
}

#[test]
fn long_exact_query_is_invalid() {
    let dict = parse(CORPUS).unwrap();
    // Each character of four bytes takes four states of the automaton.
    let query = "\u{10000}".repeat(2_600);
    assert_eq!(search(&dict, &query, 0).err(), Some(DictError::InvalidQuery));
    let query = "\u{10000}".repeat(1_000);
    assert!(search(&dict, &query, 0).unwrap().is_empty());
}

#[test]
fn found_fields_are_printed_in_order() {
    let dict = parse("■b {n} : 2\n■a : 1◆c■e\n■b : 3").unwrap();
    let found = search(&dict, "a", 1).unwrap();
    assert_eq!(
        print_found(&found),
        vec!["a {} : 1\u{e2}\u{2014}\u{2020}c\n        e", "b {} : 3", "b {n} : 2"]
    );
    assert_eq!(print_found(&search(&dict, "zzz", 1).unwrap()), Vec::<String>::new());
}

#[test]
fn lookup_builds_searches_and_prints() {
    let corpus = "■b {n} : 2\n■a : 1\n■b : 3";
    assert_eq!(lookup(corpus, "b", 0), Ok(vec!["b {} : 3".to_string(), "b {n} : 2".to_string()]));
    assert_eq!(
        lookup(corpus, "b", 1),
        Ok(vec!["a {} : 1".to_string(), "b {} : 3".to_string(), "b {n} : 2".to_string()])
    );
    assert_eq!(lookup(corpus, "x", 0), Ok(vec![]));
    assert_eq!(lookup("", "x", 2), Ok(vec![]));
    assert_eq!(
        lookup("■a : 1\n■b : \n■c", "a", 0),
        Err(DictError::MalformedEntry { line: 1 })
    );
    assert_eq!(lookup(corpus, &"a".repeat(600), 1), Err(DictError::InvalidQuery));
    assert_eq!(
        lookup("x■a : 1", &"a".repeat(600), 1),
        Err(DictError::MalformedEntry { line: 0 })
    );
}
