//! A vocabulary-building corpus toolkit.
//!
//! Candidate words are canonicalized, filtered against forbidden sets,
//! classified by affix, and partitioned into per-length buckets; a text
//! corpus is indexed by word so that bounded context sentences can be
//! stitched around each occurrence, ranked by frequency.

pub mod booktore;
pub mod mas;
pub mod imap;
pub mod order;
pub mod parse;
pub mod rule;
pub mod text;
pub mod tokens;
pub mod wmap;

pub mod voc;

use vstd::prelude::*;

verus! {

/// The compiled-in options of the pipeline, made explicit.
pub struct Config {
    pub min_len: usize,
    pub max_len: usize,
    pub match_pattern: String,
    pub anchor_end: bool,
    pub reorder_by_frequency: bool,
    pub require_superset_check: bool,
    pub context_left: usize,
    pub context_right: usize,
    pub right_char_budget: usize,
    pub occurrences_per_word: usize,
}

impl Config {
    /// The standard configuration: length bounds 2 to 25, no match
    /// pattern (suffix-anchored), no frequency reorder, superset check
    /// on, 3 left and 9 right context tokens, a 50-character right
    /// budget, 3 occurrences per word.
    pub fn standard() -> (r: Config)
        ensures
            r.min_len == 2,
            r.max_len == 25,
            r.match_pattern@ == Seq::<char>::empty(),
            r.anchor_end == true,
            r.reorder_by_frequency == false,
            r.require_superset_check == true,
            r.context_left == 3,
            r.context_right == 9,
            r.right_char_budget == 50,
            r.occurrences_per_word == 3,
    {
        Config {
            min_len: 2,
            max_len: 25,
            match_pattern: String::new(),
            anchor_end: true,
            reorder_by_frequency: false,
            require_superset_check: true,
            context_left: 3,
            context_right: 9,
            right_char_budget: 50,
            occurrences_per_word: 3,
        }
    }
}

/// One line of a built category file: the bare word, or the word
/// numbered with its one-based rank.
pub open spec fn build_line(w: Seq<char>, rank: int, keys: bool) -> Seq<char> {
    if keys {
        tokens::dec_str(rank as nat) + seq![','] + w + seq![',', 's', '\n']
    } else {
        w + seq!['\n']
    }
}

/// The content of a built category file: one line per word, in order.
pub open spec fn build_contents_spec(ws: Seq<Seq<char>>, keys: bool) -> Seq<char>
    decreases ws.len(),
{
    if ws.len() == 0 {
        Seq::empty()
    } else {
        build_contents_spec(ws.drop_last(), keys) + build_line(ws.last(), ws.len() as int, keys)
    }
}

/// Build a category file's content: each word on its own line, bare or
/// numbered with its one-based rank.
pub fn build_contents(list: &Vec<String>, keys: bool) -> (r: String)
    ensures
        r@ == build_contents_spec(list@.map_values(|t: String| t@), keys),
{
    let ghost ws = list@.map_values(|t: String| t@);
    let mut acc = String::new();
    proof {
        assert(ws.take(0) =~= Seq::<Seq<char>>::empty());
        reveal_strlit(",");
        reveal_strlit(",s\n");
        reveal_strlit("\n");
        assert(","@ =~= seq![',']);
        assert(",s\n"@ =~= seq![',', 's', '\n']);
        assert("\n"@ =~= seq!['\n']);
    }
    let n = list.len();
    for i in 0..n
        invariant
            n == list@.len(),
            ws == list@.map_values(|t: String| t@),
            ws.len() == list@.len(),
            acc@ == build_contents_spec(ws.take(i as int), keys),
    {
        proof {
            assert(ws.take(i as int + 1).drop_last() =~= ws.take(i as int));
            assert(ws.take(i as int + 1).last() == ws[i as int]);
            assert(ws[i as int] == list@[i as int]@);
            reveal_strlit(",");
            reveal_strlit(",s\n");
            reveal_strlit("\n");
            assert(","@ =~= seq![',']);
            assert(",s\n"@ =~= seq![',', 's', '\n']);
            assert("\n"@ =~= seq!['\n']);
        }
        if keys {
            let num = tokens::usize_dec(i + 1);
            acc.append(num.as_str());
            acc.append(",");
            acc.append(list[i].as_str());
            acc.append(",s\n");
        } else {
            acc.append(list[i].as_str());
            acc.append("\n");
        }
        proof {
            assert(acc@ =~= build_contents_spec(ws.take(i as int + 1), keys));
        }
    }
    proof {
        assert(ws.take(ws.len() as int) =~= ws);
    }
    acc
}

/// Set up the folder layout for the run of the given name.
pub fn start(name: &str) -> (r: mas::Mas)
    ensures
        r.root@ == (if text::trim_spec(name@) == "aparter"@ {
            text::trim_spec(name@)
        } else {
            Seq::<char>::empty()
        }),
        r.path_on@ == mas::path_join_spec(r.root@, "word.on"@),
        r.path_off@ == mas::path_join_spec(r.root@, "word.off"@),
        r.path_parts@ == mas::path_join_spec(r.root@, "parts"@),
{
    let trimmed = text::trim(name);
    mas::Mas::new().setup(trimmed)
}

} // verus!
