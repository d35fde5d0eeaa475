use eijiro_parser::order::{
    rank_bytes, rank_complements, rank_entry, rank_example, rank_examples, rank_explanation,
    rank_field, rank_ident, rank_text, Rank,
};
use eijiro_parser::sort::sort_entries;
use eijiro_parser::{Complement, Entry, Example, Explanation, Field};
use std::cmp::Ordering;

fn rank_of(ordering: Ordering) -> Rank {
    match ordering {
        Ordering::Less => Rank::Before,
        Ordering::Equal => Rank::Same,
        Ordering::Greater => Rank::After,
    }
}

fn complements(bodies: &[&str]) -> Vec<Complement> {
    bodies.iter().map(|b| Complement { body: b.to_string() }).collect()
}

fn texts() -> Vec<&'static str> {
    vec!["", "a", "ab", "b", "B", "é", "e", "z", "一", "\u{10000}", "\u{ffff}", "ab ", "a\u{0}"]
}

fn lists() -> Vec<Vec<Complement>> {
    vec![
        complements(&[]),
        complements(&[""]),
        complements(&["a"]),
        complements(&["a", ""]),
        complements(&["a", "b"]),
        complements(&["b"]),
        complements(&["é", "a"]),
    ]
}

fn examples() -> Vec<Example> {
    let mut out = Vec::new();
    for sentence in ["", "a", "b"] {
        for list in lists().into_iter().take(4) {
            out.push(Example { sentence: sentence.to_string(), complements: list });
        }
    }
    out
}

fn fields() -> Vec<Field> {
    let mut out = Vec::new();
    let all = examples();
    for ident in [None, Some(""), Some("1"), Some("2")] {
        for body in ["", "x", "y"] {
            for list in lists().into_iter().take(3) {
                for examples in [vec![], vec![0], vec![1], vec![0, 1], vec![5, 2]] {
                    out.push(Field {
                        ident: ident.map(|s| s.to_string()),
                        explanation: Explanation {
                            body: body.to_string(),
                            complements: complements(
                                &list.iter().map(|c| c.body.as_str()).collect::<Vec<_>>(),
                            ),
                        },
                        examples: examples
                            .iter()
                            .map(|&i| Example {
                                sentence: all[i].sentence.clone(),
                                complements: complements(
                                    &all[i]
                                        .complements
                                        .iter()
                                        .map(|c| c.body.as_str())
                                        .collect::<Vec<_>>(),
                                ),
                            })
                            .collect(),
                    });
                }
            }
        }
    }
    out
}

#[test]
fn texts_are_ranked_by_their_bytes() {
    for a in texts() {
        for b in texts() {
            assert_eq!(rank_text(a, b), rank_of(a.cmp(b)), "{:?} {:?}", a, b);
            assert_eq!(rank_bytes(a.as_bytes(), b.as_bytes()), rank_of(a.as_bytes().cmp(b.as_bytes())));
        }
    }
    assert_eq!(rank_text("a", "b"), Rank::Before);
    assert_eq!(rank_text("b", "a"), Rank::After);
    assert_eq!(rank_text("a", "a"), Rank::Same);
    assert_eq!(rank_text("a", "ab"), Rank::Before);
    assert_eq!(rank_text("Z", "a"), Rank::Before);
    assert_eq!(rank_text("z", "é"), Rank::Before);
    assert_eq!(rank_bytes(&[1, 2], &[1, 2, 0]), Rank::Before);
    assert_eq!(rank_bytes(&[255], &[1, 2, 0]), Rank::After);
}

#[test]
fn lists_are_ranked_item_by_item() {
    for a in lists() {
        for b in lists() {
            assert_eq!(rank_complements(&a, &b), rank_of(a.cmp(&b)), "{:?} {:?}", a, b);
        }
    }
    let all = examples();
    for a in &all {
        for b in &all {
            assert_eq!(rank_example(a, b), rank_of(a.cmp(b)), "{:?} {:?}", a, b);
        }
    }
    let one = vec![Example { sentence: "a".to_string(), complements: vec![] }];
    let two = vec![
        Example { sentence: "a".to_string(), complements: vec![] },
        Example { sentence: "".to_string(), complements: vec![] },
    ];
    assert_eq!(rank_examples(&one, &two), Rank::Before);
    assert_eq!(rank_examples(&two, &one), Rank::After);
    assert_eq!(rank_examples(&two, &two), Rank::Same);
    assert_eq!(rank_examples(&vec![], &one), Rank::Before);
}

#[test]
fn tags_and_explanations_are_ranked() {
    let none: Option<String> = None;
    let empty = Some("".to_string());
    let one = Some("1".to_string());
    assert_eq!(rank_ident(&none, &none), Rank::Same);
    assert_eq!(rank_ident(&none, &empty), Rank::Before);
    assert_eq!(rank_ident(&empty, &none), Rank::After);
    assert_eq!(rank_ident(&empty, &one), Rank::Before);
    assert_eq!(rank_ident(&one, &one), Rank::Same);
    let a = Explanation { body: "a".to_string(), complements: complements(&["z"]) };
    let b = Explanation { body: "b".to_string(), complements: complements(&[]) };
    let c = Explanation { body: "a".to_string(), complements: complements(&["z", "a"]) };
    assert_eq!(rank_explanation(&a, &b), Rank::Before);
    assert_eq!(rank_explanation(&a, &c), Rank::Before);
    assert_eq!(rank_explanation(&c, &a), Rank::After);
    assert_eq!(rank_explanation(&b, &b), Rank::Same);
}

#[test]
fn fields_are_ranked_as_their_parts_in_turn() {
    let all = fields();
    assert!(all.len() > 100);
    for a in &all {
        for b in &all {
            assert_eq!(rank_field(a, b), rank_of(a.cmp(b)), "{:?} {:?}", a, b);
        }
    }
}

fn entries() -> Vec<Entry> {
    let all = fields();
    let mut out = Vec::new();
    let mut line = 1000;
    for (i, headword) in ["b", "a", "é", "ab", "a", "", "b", "a"].iter().enumerate() {
        for k in 0..12 {
            let field = &all[(i * 37 + k * 11) % all.len()];
            line = (line * 7 + 3) % 1009;
            out.push(Entry {
                headword: headword.to_string(),
                field: Field {
                    ident: field.ident.clone(),
                    explanation: Explanation {
                        body: field.explanation.body.clone(),
                        complements: complements(
                            &field
                                .explanation
                                .complements
                                .iter()
                                .map(|c| c.body.as_str())
                                .collect::<Vec<_>>(),
                        ),
                    },
                    examples: vec![],
                },
                line: line % 5,
            });
        }
    }
    out
}

#[test]
fn entries_are_ranked_by_headword_field_and_line() {
    let all = entries();
    for a in &all {
        for b in &all {
            assert_eq!(rank_entry(a, b), rank_of(a.cmp(b)));
        }
    }
}

#[test]
fn sorting_puts_entries_in_ascending_order() {
    let mut expected = entries();
    expected.sort();
    let sorted = sort_entries(entries());
    assert_eq!(sorted, expected);
    assert_eq!(sort_entries(vec![]), vec![]);
    let sorted = sort_entries(expected);
    let mut again = entries();
    again.sort();
    assert_eq!(sorted, again);
}

#[test]
fn sorting_keeps_every_entry() {
    let entry = |headword: &str, line: usize| Entry {
        headword: headword.to_string(),
        field: Field {
            ident: None,
            explanation: Explanation { body: String::new(), complements: vec![] },
            examples: vec![],
        },
        line,
    };
    let sorted = sort_entries(vec![entry("b", 1), entry("a", 1), entry("b", 0), entry("a", 1)]);
    assert_eq!(sorted, vec![entry("a", 1), entry("a", 1), entry("b", 0), entry("b", 1)]);
    assert_eq!(sort_entries(vec![entry("x", 3)]), vec![entry("x", 3)]);
}
