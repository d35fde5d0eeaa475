use eijiro_parser::{
    parse_complements, parse_examples, parse_field, Complement, DictError, Example, Explanation,
    Field,
};
use regex::Regex;

fn complements(bodies: &[&str]) -> Vec<Complement> {
    bodies.iter().map(|b| Complement { body: b.to_string() }).collect()
}

fn field(
    ident: Option<&str>,
    body: &str,
    notes: &[&str],
    examples: &[(&str, &[&str])],
) -> Field {
    Field {
        ident: ident.map(|s| s.to_string()),
        explanation: Explanation { body: body.to_string(), complements: complements(notes) },
        examples: examples
            .iter()
            .map(|(s, c)| Example { sentence: s.to_string(), complements: complements(c) })
            .collect(),
    }
}

fn parsed(line: &str) -> Option<(String, Field)> {
    parse_field(line).ok()
}

#[test]
fn entry_with_tag_and_complement() {
    let line = "■autocompletion {名} : 《コ》〔入力文字の〕自動補完、オートコンプリート◆【参考】autocomplete";
    let (headword, f) = parse_field(line).unwrap();
    assert_eq!(headword, "autocompletion");
    assert_eq!(f.ident, Some("名".to_string()));
    assert_eq!(f.explanation.body, "《コ》〔入力文字の〕自動補完、オートコンプリート");
    assert_eq!(f.explanation.complements, complements(&["【参考】autocomplete"]));
    assert_eq!(f.examples, vec![]);
}

#[test]
fn entry_with_complements_and_examples() {
    let (headword, f) = parse_field("■xxx : aaa◆bbb◆ccc■ddd◆eee■fff").unwrap();
    assert_eq!(headword, "xxx");
    assert_eq!(f, field(None, "aaa", &["bbb", "ccc"], &[("ddd", &["eee"]), ("fff", &[])]));
}

#[test]
fn lines_without_an_entry_are_malformed() {
    for line in [
        "",
        "xxx : aaa",
        "■xxx",
        "■xxx :",
        "■xxx: aaa",
        "■xxx :aaa",
        "■ : aaa",
        "■",
        "■x {t}: a",
        "■x\n : a",
        "■x {t\n} : a",
        " : ",
        "◆x : a",
        "■xxx : ",
        "■x : ◆n",
        "■x : ■s",
        "■x {t} : ",
        "xx■a : b",
        " ■a : b",
        "■\n■x : a",
        "■y\n■x : a",
    ] {
        assert_eq!(
            parse_field(line),
            Err(DictError::MalformedEntry { line: 0 }),
            "{:?}",
            line
        );
    }
}

#[test]
fn braces_without_a_tag_belong_to_the_headword() {
    assert_eq!(parsed("■ {t} : a"), Some((" {t}".to_string(), field(None, "a", &[], &[]))));
    assert_eq!(parsed("■x {} : a"), Some(("x {}".to_string(), field(None, "a", &[], &[]))));
}

#[test]
fn headword_may_hold_markers() {
    assert_eq!(parsed("■■x : a"), Some(("■x".to_string(), field(None, "a", &[], &[]))));
    assert_eq!(parsed("■a■b : c"), Some(("a■b".to_string(), field(None, "c", &[], &[]))));
}

#[test]
fn explanation_ends_the_headword_where_it_first_can() {
    // The headword is not read longer to find an explanation behind it.
    assert_eq!(parsed("■a : ◆x : y"), None);
    assert_eq!(parsed("■a :  : y"), Some(("a".to_string(), field(None, " : y", &[], &[]))));
}

#[test]
fn headword_is_short_and_tag_is_long() {
    assert_eq!(parsed("■a : b : c"), Some(("a".to_string(), field(None, "b : c", &[], &[]))));
    assert_eq!(
        parsed("■a {b} : c {d} : e"),
        Some(("a".to_string(), field(Some("b} : c {d"), "e", &[], &[])))
    );
    assert_eq!(
        parsed("■a   {b} : c"),
        Some(("a".to_string(), field(Some("b"), "c", &[], &[])))
    );
    assert_eq!(
        parsed("■a {b {c} : d"),
        Some(("a".to_string(), field(Some("b {c"), "d", &[], &[])))
    );
    assert_eq!(
        parsed("■a {b}  : c : d"),
        Some(("a {b} ".to_string(), field(None, "c : d", &[], &[])))
    );
    assert_eq!(
        parsed("■a{b} : c"),
        Some(("a{b}".to_string(), field(None, "c", &[], &[])))
    );
    assert_eq!(
        parsed("■a {■} : c"),
        Some(("a".to_string(), field(Some("■"), "c", &[], &[])))
    );
    assert_eq!(
        parsed("■a : {b} : c"),
        Some(("a".to_string(), field(None, "{b} : c", &[], &[])))
    );
    assert_eq!(
        parsed("■a {b} : c\n} : d"),
        Some(("a".to_string(), field(Some("b"), "c\n} : d", &[], &[])))
    );
}

#[test]
fn markers_without_a_body_end_the_lists() {
    assert_eq!(parsed("■x : a◆◆b"), Some(("x".to_string(), field(None, "a", &[], &[]))));
    assert_eq!(parsed("■x : a◆b◆"), Some(("x".to_string(), field(None, "a", &["b"], &[]))));
    assert_eq!(
        parsed("■x : a◆◆b■c"),
        Some(("x".to_string(), field(None, "a", &[], &[])))
    );
    assert_eq!(
        parsed("■x : a■■b"),
        Some(("x".to_string(), field(None, "a", &[], &[("b", &[])])))
    );
    assert_eq!(
        parsed("■x : a■b◆◆c■d"),
        Some(("x".to_string(), field(None, "a", &[], &[("b", &[]), ("d", &[])])))
    );
    assert_eq!(parsed("■x : a■"), Some(("x".to_string(), field(None, "a", &[], &[]))));
    assert_eq!(
        parsed("■x : a■◆b■c"),
        Some(("x".to_string(), field(None, "a", &[], &[("c", &[])])))
    );
}

#[test]
fn examples_end_with_their_line() {
    assert_eq!(
        parsed("■x : a\nb◆c\nd■e\nf■g"),
        Some(("x".to_string(), field(None, "a\nb", &["c\nd"], &[("e", &[])])))
    );
    assert_eq!(parsed("■x : a■\nb"), Some(("x".to_string(), field(None, "a", &[], &[]))));
    assert_eq!(
        parsed("■x : a■b◆c\nd"),
        Some(("x".to_string(), field(None, "a", &[], &[("b", &["c"])])))
    );
}

#[test]
fn complements_are_found_anywhere_in_a_text() {
    assert_eq!(parse_complements(""), vec![]);
    assert_eq!(parse_complements("abc"), vec![]);
    assert_eq!(parse_complements("◆a◆b"), complements(&["a", "b"]));
    assert_eq!(parse_complements("x◆a◆◆b■c◆d◆"), complements(&["a", "b", "d"]));
}

#[test]
fn examples_are_found_anywhere_in_a_text() {
    assert_eq!(parse_examples(""), vec![]);
    assert_eq!(parse_examples("◆a"), vec![]);
    assert_eq!(
        parse_examples("x■a◆b◆c■■d◆◆e■f"),
        vec![
            Example { sentence: "a".to_string(), complements: complements(&["b", "c"]) },
            Example { sentence: "d".to_string(), complements: vec![] },
            Example { sentence: "f".to_string(), complements: vec![] },
        ]
    );
}

struct Patterns {
    field: Regex,
    example: Regex,
    complement: Regex,
}

impl Patterns {
    fn new() -> Patterns {
        Patterns {
            field: Regex::new(
                r#"■(?P<item>.+?)(?: +\{(?P<ident>.+)\})? : (?P<exp>[^◆■]*)(?P<complements>(?:◆[^◆■]+)*)(?P<examples>(■.+)*)"#,
            )
            .unwrap(),
            example: Regex::new(r#"■([^◆■]+)(?P<complements>(◆[^◆■]+)+)?"#).unwrap(),
            complement: Regex::new(r#"◆([^◆■]+)"#).unwrap(),
        }
    }

    fn complements(&self, text: &str) -> Vec<Complement> {
        self.complement
            .captures_iter(text)
            .map(|m| Complement { body: m.get(1).unwrap().as_str().to_string() })
            .collect()
    }

    fn examples(&self, text: &str) -> Vec<Example> {
        self.example
            .captures_iter(text)
            .map(|m| Example {
                sentence: m.get(1).unwrap().as_str().to_string(),
                complements: m
                    .name("complements")
                    .map(|m| self.complements(m.as_str()))
                    .unwrap_or(Vec::new()),
            })
            .collect()
    }

    /// What the pattern of a field reads, where it reads from the start of
    /// the line and finds an explanation.
    fn field(&self, text: &str) -> Option<(String, Field)> {
        let cap = self.field.captures(text)?;
        if cap.get(0).unwrap().start() != 0 || cap["exp"].is_empty() {
            return None;
        }
        Some((
            cap["item"].to_string(),
            Field {
                ident: cap.name("ident").map(|m| m.as_str().to_string()),
                explanation: Explanation {
                    body: cap["exp"].to_string(),
                    complements: self.complements(&cap["complements"]),
                },
                examples: self.examples(&cap["examples"]),
            },
        ))
    }
}

const TOKENS: [&str; 9] = ["■", "◆", " ", ":", "{", "}", "a", "\n", " : "];

fn each_text(prefix: &str, length: usize, check: &mut dyn FnMut(&str)) {
    check(prefix);
    if length > 0 {
        for token in TOKENS {
            let mut next = prefix.to_string();
            next.push_str(token);
            each_text(&next, length - 1, check);
        }
    }
}

fn is_body(text: &str) -> bool {
    !text.is_empty() && !text.contains('■') && !text.contains('◆')
}

fn well_shaped(headword: &str, f: &Field) -> bool {
    !headword.is_empty()
        && !headword.contains('\n')
        && !f.explanation.body.is_empty()
        && f.ident.iter().all(|t| !t.is_empty() && !t.contains('\n'))
        && !f.explanation.body.contains('■')
        && !f.explanation.body.contains('◆')
        && f.explanation.complements.iter().all(|c| is_body(&c.body))
        && f.examples.iter().all(|e| {
            is_body(&e.sentence)
                && !e.sentence.contains('\n')
                && e.complements.iter().all(|c| is_body(&c.body) && !c.body.contains('\n'))
        })
}

fn agree_from(prefix: &str, length: usize) {
    let patterns = Patterns::new();
    let mut count = 0usize;
    each_text(prefix, length, &mut |text| {
        count += 1;
        let read = parsed(text);
        assert_eq!(read, patterns.field(text), "{:?}", text);
        if let Some((headword, f)) = read {
            assert!(well_shaped(&headword, &f), "{:?}", text);
        }
    });
    assert!(count > 1000);
}

#[test]
fn lines_agree_with_the_patterns() {
    agree_from("", 5);
}

#[test]
fn plain_entries_agree_with_the_patterns() {
    agree_from("■a : ", 5);
}

#[test]
fn tagged_entries_agree_with_the_patterns() {
    agree_from("■a {", 5);
}

#[test]
fn headwords_agree_with_the_patterns() {
    agree_from("■a", 5);
}

#[test]
fn bodies_agree_with_the_patterns() {
    agree_from("■a {a} : a◆a■a", 5);
}

#[test]
fn lists_agree_with_the_patterns() {
    let patterns = Patterns::new();
    each_text("", 5, &mut |text| {
        assert_eq!(parse_complements(text), patterns.complements(text), "{:?}", text);
        assert_eq!(parse_examples(text), patterns.examples(text), "{:?}", text);
    });
}

fn line_of(headword: &str, f: &Field) -> String {
    let mut line = format!("■{}", headword);
    if let Some(ident) = &f.ident {
        line += &format!(" {{{}}}", ident);
    }
    line += " : ";
    line += &f.explanation.body;
    for c in &f.explanation.complements {
        line += &format!("◆{}", c.body);
    }
    for e in &f.examples {
        line += &format!("■{}", e.sentence);
        for c in &e.complements {
            line += &format!("◆{}", c.body);
        }
    }
    line
}

#[test]
fn written_lines_are_read_back() {
    let headwords =
        ["a", "awkward silence", "x:y", "a}b", "名", "a :b", "a{b}", "{", "a: b", "■", "a : b", "a {b", "a ", "a :", " :", "  "];
    let idents = [None, Some("1"), Some("名"), Some("a} : b"), Some("{"), Some(" ")];
    let bodies = ["", "aaa", "a {b} c", "multi\nline", " : ", "} : "];
    let notes: [&[&str]; 3] = [&[], &["bbb"], &["b", "c c", ":"]];
    let examples: [&[(&str, &[&str])]; 4] =
        [&[], &[("ddd", &[])], &[("ddd", &["eee"]), ("fff", &[])], &[("d", &["e", "f"])]];
    let mut count = 0;
    for headword in headwords {
        for ident in idents {
            for body in bodies {
                for list in notes {
                    for shown in examples {
                        if body.is_empty() || ident.is_some() && body.contains("} : ") {
                            continue;
                        }
                        if headword.contains(" : ")
                            || headword.contains(" {")
                            || ident.is_some() && headword.ends_with(' ')
                            || headword.ends_with(" :") && headword.chars().count() > 2
                        {
                            continue;
                        }
                        let f = field(ident, body, list, shown);
                        let line = line_of(headword, &f);
                        assert_eq!(parsed(&line), Some((headword.to_string(), f)), "{:?}", line);
                        let entries = line.matches('■').count();
                        let marks = line.matches('◆').count();
                        if !ident.unwrap_or("").contains('■') && !headword.contains('■') {
                            assert_eq!(entries, 1 + shown.len());
                            assert_eq!(
                                marks,
                                list.len() + shown.iter().map(|e| e.1.len()).sum::<usize>()
                            );
                        }
                        count += 1;
                    }
                }
            }
        }
    }
    assert!(count > 1000);
}

#[test]
fn headword_that_ends_in_space_and_colon_is_read_shorter() {
    assert_eq!(parsed("■a : : e◆c■s"), Some(("a".to_string(), field(None, ": e", &["c"], &[("s", &[])]))));
    assert_eq!(
        parsed("■a b : {t} : e◆c"),
        Some(("a b".to_string(), field(None, "{t} : e", &["c"], &[])))
    );
    assert_eq!(parsed("■a  : : e"), Some(("a ".to_string(), field(None, ": e", &[], &[]))));
    assert_eq!(parsed("■ : : e"), Some((" :".to_string(), field(None, "e", &[], &[]))));
}
