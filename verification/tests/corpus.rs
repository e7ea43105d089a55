use gamo::booktore::{
    build_corpus, compose_sentence, get_content_single_file, get_insertion_sort,
    get_popularity_sort, get_sentence_end, get_sentence_start, get_system_sort, get_word_file,
    init, init_get_system, palabras_content, parse_content, stitch_words_sentences,
    write_to_file, write_to_file_system,
};
use gamo::imap::{im_get, im_len};
use gamo::wmap::WordMap;
use gamo::Config;

fn tokens() -> Vec<String> {
    ["the", "quick", "brown", "fox", "jumps", "over", "a", "lazy", "dog", "today", "now"]
        .iter()
        .map(|s| s.to_string())
        .collect()
}

#[test]
fn occurrence_map_positions() {
    let inner = parse_content("a b a c a".to_string());
    let slot = im_get(&inner.store, "a").unwrap();
    assert_eq!(inner.positions[slot], vec![0, 2, 4]);
    let slot_b = im_get(&inner.store, "b").unwrap();
    assert_eq!(inner.positions[slot_b], vec![1]);
    assert!(im_get(&inner.store, "z").is_none());
}

#[test]
fn indexing_normalizes_tokens() {
    let inner = parse_content("Hello HELLO hello!".to_string());
    let slot = im_get(&inner.store, "hello").unwrap();
    assert_eq!(inner.positions[slot], vec![0, 1, 2]);
    // the raw tokens stay as they were
    assert_eq!(inner.list[0], "Hello");
}

#[test]
fn failed_normalization_contributes_no_entry() {
    let inner = parse_content("!!! x1x aa 123".to_string());
    // punctuation-only and digit-only tokens normalize to "", and
    // "x1x" keeps an inner digit: none of them gets an index entry
    assert!(im_get(&inner.store, "").is_none());
    assert!(im_get(&inner.store, "x1x").is_none());
    assert_eq!(im_len(&inner.store), 1);
    let slot = im_get(&inner.store, "aa").unwrap();
    assert_eq!(inner.positions[slot], vec![2]);
    // the raw tokens all stay in the token sequence
    assert_eq!(inner.list.len(), 4);
}

#[test]
fn out_of_range_occurrence_yields_empty() {
    let toks = tokens();
    assert_eq!(stitch_words_sentences(99, &toks, 3, 9, 50), "");
    assert_eq!(stitch_words_sentences(toks.len(), &toks, 3, 9, 50), "");
}

#[test]
fn context_window_around_occurrence() {
    let toks = tokens();
    assert_eq!(get_sentence_start(&toks, 3, 3), "the quick brown");
    assert_eq!(get_sentence_start(&toks, 0, 3), "");
    assert_eq!(get_sentence_start(&toks, 1, 3), "the");
    assert_eq!(get_sentence_end(&toks, 4, 9), "jumps over a lazy dog today now");
    assert_eq!(get_sentence_end(&toks, 99, 9), "");
}

#[test]
fn sentence_for_fox() {
    let toks = tokens();
    let s = stitch_words_sentences(3, &toks, 3, 9, 50);
    assert_eq!(s, "the quick brown, fox jumps over a lazy dog today now \n");
    assert!(s.contains("fox"));
}

#[test]
fn budget_truncates_greedily() {
    assert_eq!(compose_sentence("aaaaa bbbbb", 8), "aaaaa");
    assert_eq!(compose_sentence("aaaaa bbbbb", 10), "aaaaa bbbbb");
    assert_eq!(compose_sentence("aaaaa bbbbb ccccc", 12), "aaaaa bbbbb");
    assert_eq!(compose_sentence("", 50), "");
    // separators do not count toward the budget
    assert_eq!(compose_sentence("aa bb cc", 6), "aa bb cc");
}

#[test]
fn empty_corpus() {
    let inner = parse_content(String::new());
    assert!(inner.list.is_empty());
    assert!(get_popularity_sort(&inner).is_empty());
    let cfg = Config::standard();
    let (store, ranking) = init("", "aa\n", &cfg);
    assert_eq!(ranking, "");
    assert!(store.get("aa").is_none());
}

#[test]
fn budget_boundary_inclusive() {
    // a token landing exactly on the budget is kept
    assert_eq!(compose_sentence("aaaaa bbbbb", 5), "aaaaa");
    assert_eq!(compose_sentence("aaaa", 4), "aaaa");
    assert_eq!(compose_sentence("aaaaa", 4), "");
}

#[test]
fn popularity_rank_order() {
    let inner = parse_content("aa aa aa bb aa cc aa cc cc".to_string());
    let ranked = get_popularity_sort(&inner);
    let names: Vec<&str> = ranked.iter().map(|p| p.0.as_str()).collect();
    assert_eq!(names, vec!["aa", "cc", "bb"]);
    assert_eq!(ranked[0].1.len(), 5);
    assert_eq!(ranked[1].1.len(), 3);
    assert_eq!(ranked[2].1.len(), 1);
}

#[test]
fn popularity_rank_ties_keep_order() {
    let inner = parse_content("bb aa cc aa bb cc".to_string());
    let ranked = get_popularity_sort(&inner);
    let names: Vec<&str> = ranked.iter().map(|p| p.0.as_str()).collect();
    // all counts equal: first-encounter order is kept
    assert_eq!(names, vec!["bb", "aa", "cc"]);
}

#[test]
fn popularity_rank_filters_short_and_invalid() {
    let inner = parse_content("a a a x1x aa".to_string());
    let ranked = get_popularity_sort(&inner);
    let names: Vec<&str> = ranked.iter().map(|p| p.0.as_str()).collect();
    // one-letter words and non-alphabetic words are dropped whatever
    // their count
    assert_eq!(names, vec!["aa"]);
    let system = get_system_sort(&inner);
    assert_eq!(system.len(), ranked.len());
}

#[test]
fn insertion_order_listing() {
    let inner = parse_content("bb aa bb".to_string());
    let all = get_insertion_sort(&inner);
    let names: Vec<&str> = all.iter().map(|p| p.0.as_str()).collect();
    assert_eq!(names, vec!["bb", "aa"]);
    assert_eq!(all[0].1, vec![0, 2]);
}

#[test]
fn word_file_ranking() {
    let inner = parse_content("aa bb aa cc".to_string());
    let words = vec!["bb".to_string(), "aa".to_string(), "zz".to_string()];
    let ranked = get_word_file(&inner, &words);
    let names: Vec<&str> = ranked.iter().map(|p| p.0.as_str()).collect();
    // unknown words are dropped; the rest sort by descending count
    assert_eq!(names, vec!["aa", "bb"]);
    assert_eq!(palabras_content(&ranked), "aa\nbb");
}

#[test]
fn word_list_file_parsing() {
    let words = get_content_single_file("aa\n\n  bb  \ncc");
    assert_eq!(words, vec!["aa".to_string(), "bb".to_string(), "cc".to_string()]);
    assert!(get_content_single_file("").is_empty());
}

#[test]
fn corpus_is_space_joined() {
    let docs = vec!["one two".to_string(), "three".to_string()];
    assert_eq!(build_corpus(&docs), "one two three");
}

#[test]
fn record_files() {
    let mut store: WordMap<String> = WordMap::new();
    store.insert("aa".to_string(), "X\n".to_string());
    let list = vec!["aa".to_string(), "bb".to_string()];
    let w = write_to_file("out.off", &list, &store).unwrap();
    assert_eq!(w.path, "out.off");
    assert_eq!(w.content, "1: aa\nX\n");
    let empty: WordMap<String> = WordMap::new();
    assert!(write_to_file("out.off", &list, &empty).is_none());

    let mut sys: WordMap<(usize, String)> = WordMap::new();
    sys.insert("bb".to_string(), (7, "Y\n".to_string()));
    let w2 = write_to_file_system("sys.off", &list, &sys).unwrap();
    assert_eq!(w2.content, "2: bb\nY\n");
}

#[test]
fn init_builds_blocks() {
    let cfg = Config::standard();
    let (store, ranking) = init("x aa y aa", "aa\n", &cfg);
    assert_eq!(ranking, "aa");
    let block = store.get("aa").unwrap();
    assert_eq!(block.as_str(), "x, aa y aa \nx aa y, aa\n");
    assert!(store.get("x").is_none());
}

#[test]
fn rank_by_stored_counts() {
    let mut sys: WordMap<(usize, String)> = WordMap::new();
    sys.insert("aa".to_string(), (2, String::new()));
    sys.insert("bb".to_string(), (5, String::new()));
    let list = vec![
        "aa".to_string(),
        "zz".to_string(),
        "bb".to_string(),
        "yy".to_string(),
    ];
    let ranked = gamo::booktore::rank_by_count(list, &sys);
    // unknown words count zero and keep their relative order
    assert_eq!(
        ranked,
        vec![
            "bb".to_string(),
            "aa".to_string(),
            "zz".to_string(),
            "yy".to_string()
        ]
    );
}

#[test]
fn built_category_contents() {
    let list = vec!["aa".to_string(), "bb".to_string()];
    assert_eq!(gamo::build_contents(&list, false), "aa\nbb\n");
    assert_eq!(gamo::build_contents(&list, true), "1,aa,s\n2,bb,s\n");
    assert_eq!(gamo::build_contents(&Vec::new(), true), "");
}

#[test]
fn init_get_system_counts() {
    let cfg = Config::standard();
    let (store, ranking) = init_get_system("aa bb aa", &cfg);
    assert_eq!(ranking, "aa\nbb");
    let (count, block) = store.get("aa").unwrap();
    assert_eq!(*count, 2);
    assert!(block.ends_with('\n'));
    assert_eq!(store.get("bb").unwrap().0, 1);
}
