use gamo::rule::Word;
use gamo::voc::{Buckets, Voc};
use gamo::wmap::WordMap;

#[test]
fn store_test() {
    let store = Voc::store();
    for rank in Word::min()..Word::max() {
        assert_eq!(store.get(&rank), Some(&vec![]));
    }
}

#[test]
fn store_spans_full_range() {
    let store = Voc::store();
    assert!(store.get(&(Word::min() - 1)).is_none());
    assert!(store.get(&(Word::max() + 1)).is_none());
    let mut keys = 0;
    for rank in 0..100usize {
        if let Some(list) = store.get(&rank) {
            assert!(list.is_empty());
            keys += 1;
        }
    }
    assert_eq!(keys, Word::max() - Word::min() + 1);
}

#[test]
fn buckets_route_by_exact_length() {
    let mut b = Buckets::new(2, 25);
    b.push_word("aa".to_string());
    b.push_word("bbb".to_string());
    b.push_word("cc".to_string());
    assert_eq!(b.get(&2), Some(&vec!["aa".to_string(), "cc".to_string()]));
    assert_eq!(b.get(&3), Some(&vec!["bbb".to_string()]));
    assert_eq!(b.get(&4), Some(&vec![]));
}

#[test]
fn insert_queues_bucket_files() {
    let mas = gamo::start("aparter");
    let book: WordMap<String> = WordMap::new();
    let writers = Voc::insert(
        &vec!["aa".to_string(), "bbb".to_string()],
        "F",
        &book,
        &mas,
    );
    // two queued entries per length in 2..=25
    assert_eq!(writers.len(), 48);
    // no record files: the example-block store is empty
    assert!(writers[0].is_none());
    let on2 = writers[1].as_ref().unwrap();
    assert_eq!(on2.path, "aparter/parts/F-2.on");
    assert_eq!(on2.content, "aa\n");
    let on3 = writers[3].as_ref().unwrap();
    assert_eq!(on3.path, "aparter/parts/F-3.on");
    assert_eq!(on3.content, "bbb\n");
    // an empty bucket queues nothing
    assert!(writers[5].is_none());
}

#[test]
fn direct_data_splits_by_pattern() {
    let mut voc = Voc::new(vec![
        "working".to_string(),
        "dog".to_string(),
        "evening".to_string(),
    ]);
    voc.direct_data("ing", true);
    assert_eq!(voc.matching, vec!["working".to_string(), "evening".to_string()]);
    assert_eq!(voc.simple, vec!["dog".to_string()]);
    // an empty pattern routes everything to the simple category
    let mut voc2 = Voc::new(vec!["working".to_string()]);
    voc2.direct_data("", true);
    assert!(voc2.matching.is_empty());
    assert_eq!(voc2.simple, vec!["working".to_string()]);
}

#[test]
fn intake_file_always_queued() {
    let mas = gamo::start("aparter");
    let empty: Vec<String> = Vec::new();
    let w = Voc::write("word.on", &empty, &mas).unwrap();
    assert_eq!(w.path, "aparter/word.on");
    assert_eq!(w.content, "\n");
    assert!(Voc::write("match.on", &empty, &mas).is_none());
    let some = Voc::write("match.on", &vec!["ab".to_string()], &mas).unwrap();
    assert_eq!(some.path, "aparter/parts/match.on");
    assert_eq!(some.content, "ab\n");
}

#[test]
fn word_map_lookup() {
    let mut m: WordMap<String> = WordMap::new();
    assert!(m.get("aa").is_none());
    m.insert("aa".to_string(), "one".to_string());
    m.insert("bb".to_string(), "two".to_string());
    m.insert("aa".to_string(), "three".to_string());
    assert_eq!(m.get("aa"), Some(&"three".to_string()));
    assert_eq!(m.get("bb"), Some(&"two".to_string()));
    assert!(!m.contains_key("cc"));
}
