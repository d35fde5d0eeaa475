use eijiro_parser::{parse, Dict};
use eijiro_parser::{Complement, Example, Explanation, Field};
use fst::Streamer;

fn kv_vec(dict: &Dict) -> Vec<(String, &Vec<Field>)> {
    let mut ret = Vec::new();
    let mut stream = dict.keys().stream();
    while let Some((k, idx)) = stream.next() {
        let k = std::str::from_utf8(k).unwrap();
        ret.push((k.to_string(), &dict.fields()[idx as usize]));
    }
    ret
}

fn new_field(
    ident: Option<&str>,
    exp: &str,
    exp_coms: Vec<&str>,
    examples: Vec<(&str, Vec<&str>)>,
) -> Field {
    Field {
        ident: ident.map(|s| s.to_string()),
        explanation: Explanation {
            body: exp.to_string(),
            complements: exp_coms
                .into_iter()
                .map(|s| Complement { body: s.to_string() })
                .collect(),
        },
        examples: examples
            .into_iter()
            .map(|(s, c)| Example {
                sentence: s.to_string(),
                complements: c
                    .into_iter()
                    .map(|c| Complement { body: c.to_string() })
                    .collect(),
            })
            .collect(),
    }
}

#[test]
fn test_01() {
    let s = "■autocompletion {名} : 《コ》〔入力文字の〕自動補完、オートコンプリート◆【参考】autocomplete";
    let dict = parse(s).unwrap();
    assert_eq!(
        kv_vec(&dict),
        vec![(
            "autocompletion".to_string(),
            &vec![new_field(
                Some("名"),
                "《コ》〔入力文字の〕自動補完、オートコンプリート",
                vec!["【参考】autocomplete"],
                vec![]
            )]
        )]
    )
}

#[test]
fn test_02() {
    let s =
        "■selfie {名} : 〈話〉セルフィー、自撮り（の）写真◆自分で撮影した自分の写真◆【複】selfies";
    let dict = parse(s).unwrap();
    assert_eq!(
        kv_vec(&dict),
        vec![(
            "selfie".to_string(),
            &vec![new_field(
                Some("名"),
                "〈話〉セルフィー、自撮り（の）写真",
                vec!["自分で撮影した自分の写真", "【複】selfies"],
                vec![]
            )]
        )]
    )
}

#[test]
fn test_03() {
    let s = "■awkward silence {1} : 《an ～》気まずい［ぎこちない］沈黙◆「会話が不自然に途切れた気まずい時間」を指す。1回・2回と数えられるので可算。■・There was an awkward silence for a few seconds. 数秒間の気まずい沈黙がありました。■・There was an awkward silence for a moment. ちょっとの間、気まずい沈黙がありました。／一瞬、微妙な空気が流れた。";
    let dict = parse(s).unwrap();
    assert_eq!(
        kv_vec(&dict),
        vec![(
            "awkward silence".to_string(),
            &vec![new_field(
                Some("1"),
                "《an ～》気まずい［ぎこちない］沈黙",
                vec!["「会話が不自然に途切れた気まずい時間」を指す。1回・2回と数えられるので可算。"],
                vec![
                    ("・There was an awkward silence for a few seconds. 数秒間の気まずい沈黙がありました。", vec![]),
                    ("・There was an awkward silence for a moment. ちょっとの間、気まずい沈黙がありました。／一瞬、微妙な空気が流れた。", vec![])
                ]
            )]
        )]
    )
}

#[test]
fn test_04() {
    let s = "■awkward silence {2} : 気まずい沈黙状態◆「誰もしゃべらない状態」を表す。不可算。■・We stared at each other in awkward silence. 私たちは、気まずいムードで黙って顔を見合わせました。";
    let dict = parse(s).unwrap();
    assert_eq!(
        kv_vec(&dict),
        vec![(
            "awkward silence".to_string(),
            &vec![new_field(
                Some("2"),
                "気まずい沈黙状態",
                vec!["「誰もしゃべらない状態」を表す。不可算。"],
                vec![("・We stared at each other in awkward silence. 私たちは、気まずいムードで黙って顔を見合わせました。", vec![])]
            )]
        )]
    )
}

#[test]
fn test_05() {
    let s = "■xxx : aaa◆bbb◆ccc■ddd◆eee■fff";
    let dict = parse(s).unwrap();
    assert_eq!(
        kv_vec(&dict),
        vec![(
            "xxx".to_string(),
            &vec![new_field(
                None,
                "aaa",
                vec!["bbb", "ccc"],
                vec![("ddd", vec!["eee"]), ("fff", vec![])]
            )]
        )]
    )
}

#[test]
fn serde() {
    let s = "■xxx : aaa◆bbb◆ccc■ddd◆eee■fff";
    let dict = parse(s).unwrap();
    let bytes = eijiro_parser::save(&dict);
    let dict = eijiro_parser::load(&bytes).unwrap();
    assert_eq!(
        kv_vec(&dict),
        vec![(
            "xxx".to_string(),
            &vec![new_field(
                None,
                "aaa",
                vec!["bbb", "ccc"],
                vec![("ddd", vec!["eee"]), ("fff", vec![])]
            )]
        )]
    )
}

#[test]
fn lines_with_one_headword_share_a_group() {
    let s = "■awkward silence {2} : second\n■zebra : animal\n■awkward silence {1} : first\n";
    let dict = parse(s).unwrap();
    assert_eq!(
        kv_vec(&dict),
        vec![
            (
                "awkward silence".to_string(),
                &vec![
                    new_field(Some("1"), "first", vec![], vec![]),
                    new_field(Some("2"), "second", vec![], vec![]),
                ]
            ),
            ("zebra".to_string(), &vec![new_field(None, "animal", vec![], vec![])]),
        ]
    );
}

#[test]
fn equal_fields_keep_the_order_of_their_lines() {
    let s = "■a : x\n■a : x\n■a {t} : w\n■a : w";
    let dict = parse(s).unwrap();
    assert_eq!(
        kv_vec(&dict),
        vec![(
            "a".to_string(),
            &vec![
                new_field(None, "w", vec![], vec![]),
                new_field(None, "x", vec![], vec![]),
                new_field(None, "x", vec![], vec![]),
                new_field(Some("t"), "w", vec![], vec![]),
            ]
        )]
    );
}

#[test]
fn headwords_are_ordered_by_their_bytes() {
    let s = "■b : 2\n■é : 4\n■B : 1\n■ab : 3\n■a : 0\n■■ : 5";
    let dict = parse(s).unwrap();
    let keys: Vec<String> = kv_vec(&dict).into_iter().map(|(k, _)| k).collect();
    assert_eq!(keys, vec!["B", "a", "ab", "b", "é", "■"]);
    assert_eq!(dict.fields().len(), 6);
    assert_eq!(dict.fields()[0][0].explanation.body, "1");
    assert_eq!(dict.fields()[5][0].explanation.body, "5");
}

#[test]
fn empty_corpus_gives_an_empty_dictionary() {
    let dict = parse("").unwrap();
    assert!(kv_vec(&dict).is_empty());
    assert!(dict.fields().is_empty());
}

#[test]
fn first_malformed_line_is_reported() {
    let r = parse("■a : x\nno entry here\n■b : y\nnor here");
    assert_eq!(r.err(), Some(eijiro_parser::DictError::MalformedEntry { line: 1 }));
    let r = parse("■a : x\n\n■b : y");
    assert_eq!(r.err(), Some(eijiro_parser::DictError::MalformedEntry { line: 1 }));
    let r = parse("oops");
    assert_eq!(r.err(), Some(eijiro_parser::DictError::MalformedEntry { line: 0 }));
}

#[test]
fn line_ends_are_left_out_of_entries() {
    let dict = parse("■a : x\r\n■b : y\r\n").unwrap();
    assert_eq!(
        kv_vec(&dict),
        vec![
            ("a".to_string(), &vec![new_field(None, "x", vec![], vec![])]),
            ("b".to_string(), &vec![new_field(None, "y", vec![], vec![])]),
        ]
    );
    let dict = parse("■a : x\r").unwrap();
    assert_eq!(
        kv_vec(&dict),
        vec![("a".to_string(), &vec![new_field(None, "x\r", vec![], vec![])])]
    );
    let dict = parse("■a : x\r\r\n").unwrap();
    assert_eq!(
        kv_vec(&dict),
        vec![("a".to_string(), &vec![new_field(None, "x\r", vec![], vec![])])]
    );
}

#[test]
fn build_sorts_and_groups_entries() {
    let entry = |headword: &str, body: &str, line: usize| eijiro_parser::Entry {
        headword: headword.to_string(),
        field: new_field(None, body, vec![], vec![]),
        line,
    };
    let dict = eijiro_parser::build(vec![
        entry("b", "2", 0),
        entry("a", "9", 1),
        entry("b", "1", 2),
        entry("a", "9", 0),
    ])
    .unwrap();
    assert_eq!(
        kv_vec(&dict),
        vec![
            (
                "a".to_string(),
                &vec![new_field(None, "9", vec![], vec![]), new_field(None, "9", vec![], vec![])]
            ),
            (
                "b".to_string(),
                &vec![new_field(None, "1", vec![], vec![]), new_field(None, "2", vec![], vec![])]
            ),
        ]
    );
    assert_eq!(dict.keys().get("a"), Some(0));
    assert_eq!(dict.keys().get("b"), Some(1));
}

#[test]
fn index_takes_headwords_in_ascending_order_only() {
    let list = |headwords: &[&str]| headwords.iter().map(|h| h.to_string()).collect::<Vec<_>>();
    let index = eijiro_parser::build_index(&list(&["", "a", "ab", "b", "é"])).unwrap();
    assert_eq!(index.len(), 5);
    assert_eq!(index.get(""), Some(0));
    assert_eq!(index.get("ab"), Some(2));
    assert_eq!(index.get("é"), Some(4));
    assert_eq!(index.get("c"), None);
    assert_eq!(eijiro_parser::build_index(&list(&[])).unwrap().len(), 0);
    for headwords in [&["a", "a"][..], &["b", "a"], &["a", "b", "b"], &["a", "c", "b"], &["é", "z"]] {
        assert_eq!(
            eijiro_parser::build_index(&list(headwords)).err(),
            Some(eijiro_parser::DictError::DuplicateInsertion),
            "{:?}",
            headwords
        );
    }
}

fn each_corpus(prefix: &str, length: usize, check: &mut dyn FnMut(&str)) {
    check(prefix);
    if length > 0 {
        for token in ["■a : x", "■b {t} : y■z", "\n", "\r", "\r\n", "w"] {
            let mut next = prefix.to_string();
            next.push_str(token);
            each_corpus(&next, length - 1, check);
        }
    }
}

#[test]
fn corpus_is_read_line_by_line() {
    let mut count = 0;
    each_corpus("", 5, &mut |text| {
        count += 1;
        let mut entries = Vec::new();
        let mut failed = None;
        for (line, shown) in text.lines().enumerate() {
            match eijiro_parser::parse_field(shown) {
                Ok((headword, field)) => entries.push(eijiro_parser::Entry { headword, field, line }),
                Err(_) => {
                    failed = Some(eijiro_parser::DictError::MalformedEntry { line });
                    break;
                }
            }
        }
        match parse(text) {
            Ok(dict) => {
                assert_eq!(failed, None, "{:?}", text);
                let expected = eijiro_parser::build(entries).unwrap();
                assert_eq!(kv_vec(&dict), kv_vec(&expected), "{:?}", text);
            }
            Err(e) => assert_eq!(Some(e), failed, "{:?}", text),
        }
    });
    assert!(count > 5000);
}
