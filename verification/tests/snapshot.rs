use eijiro_parser::{load, parse, save, Dict, DictError, Field};
use fst::Streamer;

type PlainField = (Option<String>, (String, Vec<String>), Vec<(String, Vec<String>)>);
type PlainDict = (Vec<u8>, Vec<Vec<PlainField>>);

fn plain_field(field: &Field) -> PlainField {
    (
        field.ident.clone(),
        (
            field.explanation.body.clone(),
            field.explanation.complements.iter().map(|c| c.body.clone()).collect(),
        ),
        field
            .examples
            .iter()
            .map(|e| (e.sentence.clone(), e.complements.iter().map(|c| c.body.clone()).collect()))
            .collect(),
    )
}

fn plain(dict: &Dict) -> PlainDict {
    (
        dict.keys().as_fst().as_bytes().to_vec(),
        dict.fields().iter().map(|g| g.iter().map(plain_field).collect()).collect(),
    )
}

fn listing(dict: &Dict) -> Vec<(Vec<u8>, Vec<PlainField>)> {
    let mut out = Vec::new();
    let mut stream = dict.keys().stream();
    while let Some((k, idx)) = stream.next() {
        out.push((k.to_vec(), dict.fields()[idx as usize].iter().map(plain_field).collect()));
    }
    out
}

const CORPUS: &str = "■selfie {名} : 〈話〉セルフィー◆自分で撮影した自分の写真◆【複】selfies\n\
■xxx : aaa◆bbb◆ccc■ddd◆eee■fff\n\
■awkward silence {2} : 気まずい沈黙状態■・We stared.\n\
■awkward silence {1} : 《an ～》気まずい沈黙◆可算。■・There was an awkward silence.◆note\n\
■empty : x";

#[test]
fn saved_dictionary_loads_as_it_was() {
    let dict = parse(CORPUS).unwrap();
    let bytes = save(&dict);
    let loaded = load(&bytes).unwrap();
    assert_eq!(plain(&loaded), plain(&dict));
    assert_eq!(listing(&loaded), listing(&dict));
    assert_eq!(listing(&loaded).len(), 4);
    assert_eq!(save(&loaded), bytes);
}

#[test]
fn empty_dictionary_loads_as_it_was() {
    let dict = parse("").unwrap();
    let bytes = save(&dict);
    let loaded = load(&bytes).unwrap();
    assert!(listing(&loaded).is_empty());
    assert!(loaded.fields().is_empty());
}

#[test]
fn bytes_behind_a_snapshot_are_ignored() {
    let dict = parse(CORPUS).unwrap();
    let mut bytes = save(&dict);
    bytes.extend_from_slice(&[1, 2, 3, 255]);
    let loaded = load(&bytes).unwrap();
    assert_eq!(plain(&loaded), plain(&dict));
}

#[test]
fn snapshot_has_the_layout_of_its_parts() {
    let dict = parse("■a {t} : b◆c■d").unwrap();
    let blob = dict.keys().as_fst().as_bytes().to_vec();
    let mut expected = Vec::new();
    expected.extend_from_slice(&(blob.len() as u64).to_le_bytes());
    expected.extend_from_slice(&blob);
    expected.extend_from_slice(&[1, 0, 0, 0, 0, 0, 0, 0]); // one group
    expected.extend_from_slice(&[1, 0, 0, 0, 0, 0, 0, 0]); // of one field
    expected.extend_from_slice(&[1]); // with a tag
    expected.extend_from_slice(&[1, 0, 0, 0, 0, 0, 0, 0, b't']);
    expected.extend_from_slice(&[1, 0, 0, 0, 0, 0, 0, 0, b'b']);
    expected.extend_from_slice(&[1, 0, 0, 0, 0, 0, 0, 0]); // one complement
    expected.extend_from_slice(&[1, 0, 0, 0, 0, 0, 0, 0, b'c']);
    expected.extend_from_slice(&[1, 0, 0, 0, 0, 0, 0, 0]); // one example
    expected.extend_from_slice(&[1, 0, 0, 0, 0, 0, 0, 0, b'd']);
    expected.extend_from_slice(&[0, 0, 0, 0, 0, 0, 0, 0]); // without complements
    assert_eq!(save(&dict), expected);

    let dict = parse("■é : b").unwrap();
    let bytes = save(&dict);
    let table = &bytes[bytes.len() - 42..];
    let mut expected = Vec::new();
    expected.extend_from_slice(&[1, 0, 0, 0, 0, 0, 0, 0]);
    expected.extend_from_slice(&[1, 0, 0, 0, 0, 0, 0, 0]);
    expected.extend_from_slice(&[0]); // no tag
    expected.extend_from_slice(&[1, 0, 0, 0, 0, 0, 0, 0, b'b']);
    expected.extend_from_slice(&[0; 16]); // no complements, no examples
    assert_eq!(table, &expected[..]);
}

#[test]
fn snapshot_is_what_bincode_writes() {
    let dict = parse(CORPUS).unwrap();
    let bytes = save(&dict);
    assert_eq!(bincode::serialize(&plain(&dict)).unwrap(), bytes);
    let read: PlainDict = bincode::deserialize(&bytes).unwrap();
    assert_eq!(read, plain(&dict));
}

#[test]
fn what_bincode_writes_loads() {
    let dict = parse(CORPUS).unwrap();
    let bytes = bincode::serialize(&plain(&dict)).unwrap();
    let loaded = load(&bytes).unwrap();
    assert_eq!(listing(&loaded), listing(&dict));
}

#[test]
fn cut_snapshots_are_corrupt() {
    let dict = parse("■a {t} : b◆c■d◆e\n■f : g").unwrap();
    let bytes = save(&dict);
    for cut in 0..bytes.len() {
        assert_eq!(load(&bytes[..cut]).err(), Some(DictError::CorruptSnapshot), "{}", cut);
    }
    assert!(load(&bytes).is_ok());
}

fn with_groups(dict: &Dict, groups: Vec<Vec<PlainField>>) -> Vec<u8> {
    bincode::serialize(&(dict.keys().as_fst().as_bytes().to_vec(), groups)).unwrap()
}

#[test]
fn index_is_not_looked_into() {
    let dict = parse("■a : x\n■b : y").unwrap();
    let groups = plain(&dict).1;
    // A table that does not fit the index loads as it is.
    let fewer = vec![groups[0].clone()];
    let loaded = load(&with_groups(&dict, fewer.clone())).unwrap();
    assert_eq!(plain(&loaded), (plain(&dict).0, fewer));
    let index = fst::Map::from_iter(vec![("a", 1u64), ("b", 0)]).unwrap();
    let blob = index.as_fst().as_bytes().to_vec();
    let bytes = bincode::serialize(&(blob.clone(), groups.clone())).unwrap();
    assert_eq!(plain(&load(&bytes).unwrap()), (blob, groups.clone()));
    // An index from another builder with the same entries loads as the same dictionary.
    let index = fst::Map::from_iter(vec![("a", 0u64), ("b", 1)]).unwrap();
    let bytes = bincode::serialize(&(index.as_fst().as_bytes().to_vec(), groups.clone())).unwrap();
    assert_eq!(listing(&load(&bytes).unwrap()), listing(&dict));
    assert_eq!(bytes, save(&dict));
}

#[test]
fn damaged_index_is_corrupt() {
    let dict = parse("■a : x\n■b : y").unwrap();
    let bytes = save(&dict);
    let blob_len = dict.keys().as_fst().as_bytes().len();
    // A flipped bit in the body of the index breaks its checksum.
    let mut flipped = bytes.clone();
    flipped[8 + blob_len / 2] ^= 0x10;
    assert_eq!(load(&flipped).err(), Some(DictError::CorruptSnapshot));
    // An unknown format version.
    let mut version = bytes.clone();
    version[8] = 99;
    assert_eq!(load(&version).err(), Some(DictError::CorruptSnapshot));
    // An index that is too short to be one.
    let short = bincode::serialize(&(vec![0u8; 10], Vec::<Vec<PlainField>>::new())).unwrap();
    assert_eq!(load(&short).err(), Some(DictError::CorruptSnapshot));
    assert_eq!(load(&[]).err(), Some(DictError::CorruptSnapshot));
}

#[test]
fn damaged_table_is_corrupt() {
    let dict = parse("■a {t} : b").unwrap();
    let bytes = save(&dict);
    let n = bytes.len();
    // The table is: 8 + 8 bytes of counts, the tag byte, the tag, the body, two counts.
    let tag = n - (1 + 9 + 9 + 16);
    assert_eq!(bytes[tag], 1);
    let mut bad_tag = bytes.clone();
    bad_tag[tag] = 2;
    assert_eq!(load(&bad_tag).err(), Some(DictError::CorruptSnapshot));
    let mut bad_text = bytes.clone();
    assert_eq!(bad_text[tag + 9], b't');
    bad_text[tag + 9] = 0xff;
    assert_eq!(load(&bad_text).err(), Some(DictError::CorruptSnapshot));
    let mut long_text = bytes.clone();
    long_text[tag + 1 + 7] = 0x80;
    assert_eq!(load(&long_text).err(), Some(DictError::CorruptSnapshot));
    let mut many_examples = bytes.clone();
    many_examples[n - 8] = 1;
    assert_eq!(load(&many_examples).err(), Some(DictError::CorruptSnapshot));
    let mut many_groups = bytes.clone();
    many_groups[tag - 16] = 2;
    assert_eq!(load(&many_groups).err(), Some(DictError::CorruptSnapshot));
}

fn opens(blob: &[u8]) -> bool {
    if blob.len() < 36 {
        return false;
    }
    let number = |at: usize| u64::from_le_bytes(blob[at..at + 8].try_into().unwrap());
    let version = number(0);
    if version < 1 || version > 3 {
        return false;
    }
    let (end, empty) = if version <= 2 { (blob.len(), 32) } else { (blob.len() - 4, 36) };
    !(number(end - 8) == 0 && blob.len() != empty)
}

#[test]
fn index_bytes_open_by_length_version_and_root() {
    let mut count = 0;
    for len in [0usize, 8, 35, 36, 37, 40, 44, 60] {
        for version in [0u64, 1, 2, 3, 4, 1 << 40] {
            for root in [0u64, 1, 15, 16, 36, 1 << 33] {
                for fill in [0u8, 255] {
                    let mut blob = vec![fill; len];
                    if len >= 8 {
                        blob[..8].copy_from_slice(&version.to_le_bytes());
                    }
                    for end in [len, len.saturating_sub(4)] {
                        if end >= 16 {
                            let mut bytes = blob.clone();
                            bytes[end - 8..end].copy_from_slice(&root.to_le_bytes());
                            bytes[end - 16..end - 8].copy_from_slice(&7u64.to_le_bytes());
                            assert_eq!(
                                fst::Map::new(bytes.clone()).is_ok(),
                                opens(&bytes),
                                "{:?}",
                                bytes
                            );
                            count += 1;
                        }
                    }
                    assert_eq!(fst::Map::new(blob.clone()).is_ok(), opens(&blob), "{:?}", blob);
                }
            }
        }
    }
    assert!(count > 300);
    let dict = parse("■a : x").unwrap();
    assert!(opens(dict.keys().as_fst().as_bytes()));
    assert!(opens(parse("").unwrap().keys().as_fst().as_bytes()));
}
