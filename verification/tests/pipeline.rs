use gamo::mas::{update_off, Mas};
use gamo::parse::{App, Forbid, Parse, WordSet};
use gamo::wmap::WordMap;
use gamo::Config;

#[test]
fn lines_parses_and_dedups() {
    let list = Parse::lines("The quick THE done a quick", false);
    assert_eq!(
        list,
        vec!["the".to_string(), "quick".to_string(), "done".to_string()]
    );
}

#[test]
fn lines_rejects_out_of_rule_tokens() {
    let long = "a".repeat(26);
    let input = format!("ok1ok {} z xy", long);
    let list = Parse::lines(&input, false);
    // "ok1ok" keeps an inner digit and is invalid; the long word and
    // the one-letter word fall outside the length bounds
    assert_eq!(list, vec!["xy".to_string()]);
}

#[test]
fn sort_popular_keeps_list_without_reorder() {
    let list = vec!["bb".to_string(), "aa".to_string(), "bb".to_string()];
    assert_eq!(Parse::sort_popular(list.clone(), false), list);
}

#[test]
fn sort_popular_orders_by_frequency() {
    let list = vec![
        "aa".to_string(),
        "bb".to_string(),
        "bb".to_string(),
        "cc".to_string(),
        "bb".to_string(),
        "cc".to_string(),
    ];
    let ranked = Parse::sort_popular(list, true);
    assert_eq!(
        ranked,
        vec!["bb".to_string(), "cc".to_string(), "aa".to_string()]
    );
}

#[test]
fn forbid_unions_both_lists() {
    let a = vec!["aa".to_string()];
    let b = vec!["bb".to_string()];
    let set = Forbid::start(WordSet::new(), &a, &b);
    assert!(set.contains("aa"));
    assert!(set.contains("bb"));
    assert!(!set.contains("cc"));
}

#[test]
fn integrity_check_reports_every_missing_word() {
    let mut app = App::new("alpha beta".to_string(), "gamma delta beta".to_string());
    let res = app.start(&Vec::new(), true, false);
    assert_eq!(res, Err(vec!["gamma".to_string(), "delta".to_string()]));
}

#[test]
fn integrity_check_passes_on_subset() {
    let mut app = App::new("alpha beta".to_string(), "beta".to_string());
    let res = app.start(&Vec::new(), true, false);
    assert_eq!(res, Ok(vec!["alpha".to_string()]));
}

#[test]
fn integrity_check_can_be_disabled() {
    let mut app = App::new("alpha".to_string(), "zz".to_string());
    let res = app.start(&Vec::new(), false, false);
    assert_eq!(res, Ok(vec!["alpha".to_string()]));
}

#[test]
fn filtering_removes_forbidden_words() {
    let mut app = App::new("alpha beta ceta".to_string(), "beta".to_string());
    let not_allow = vec!["ceta".to_string()];
    let res = app.start(&not_allow, true, false);
    assert_eq!(res, Ok(vec!["alpha".to_string()]));
}

#[test]
fn update_off_filters_and_sorts_by_length() {
    let out = update_off(vec!["aa".to_string()], "bbb aa cc", false);
    assert_eq!(out, "cc\nbbb");
    let empty = update_off(Vec::new(), "", false);
    assert_eq!(empty, "");
}

#[test]
fn layout_paths() {
    let mas = gamo::start(" aparter \n");
    assert_eq!(mas.root, "aparter");
    assert_eq!(mas.path_on, "aparter/word.on");
    assert_eq!(mas.path_off, "aparter/word.off");
    assert_eq!(mas.path_parts, "aparter/parts");
    let other = gamo::start("plain");
    assert_eq!(other.root, "");
    assert_eq!(other.path_on, "word.on");
}

#[test]
fn process_full_run() {
    let mas = Mas::new().setup("aparter");
    let book: WordMap<String> = WordMap::new();
    let cfg = Config::standard();
    let res = mas.process("alpha beta", "beta", Vec::new(), &book, &cfg);
    let (list, writers, off_new) = res.unwrap();
    assert_eq!(list, vec!["alpha".to_string()]);
    // the canonical intake file holds the accepted list
    let intake = writers[0].as_ref().unwrap();
    assert_eq!(intake.path, "aparter/word.on");
    assert_eq!(intake.content, "alpha\n");
    // no match pattern: the matching category stays empty
    assert!(writers[1].is_none());
    // "alpha" lands in the length-5 simple bucket
    let found = writers.iter().flatten().any(|w| {
        w.path == "aparter/parts/F-5.on" && w.content == "alpha\n"
    });
    assert!(found);
    assert_eq!(off_new, "beta");
}

#[test]
fn process_aborts_on_missing_excluded_word() {
    let mas = Mas::new().setup("aparter");
    let book: WordMap<String> = WordMap::new();
    let cfg = Config::standard();
    let res = mas.process("alpha", "zz", Vec::new(), &book, &cfg);
    assert_eq!(res, Err(vec!["zz".to_string()]));
}

#[test]
fn standard_configuration() {
    let cfg = Config::standard();
    assert_eq!(cfg.min_len, 2);
    assert_eq!(cfg.max_len, 25);
    assert_eq!(cfg.match_pattern, "");
    assert!(cfg.anchor_end);
    assert!(!cfg.reorder_by_frequency);
    assert!(cfg.require_superset_check);
    assert_eq!(cfg.context_left, 3);
    assert_eq!(cfg.context_right, 9);
    assert_eq!(cfg.right_char_budget, 50);
    assert_eq!(cfg.occurrences_per_word, 3);
}
