//! The filtering pipeline's root object: the folder layout it writes
//! into, and the pure computation of one run.

use vstd::prelude::*;
use crate::order::lemma_filter_push;
use crate::parse::{
    add_all, lemma_lines_spec_accept, lines_of, missing_words, words_set, App, Parse, WordSet,
};
use crate::text::{matches_pattern, str_eq, trim, trim_spec};
use crate::tokens::{join_sep, join_with};
use crate::voc::{buckets_spec, collect_spec, owriter_view, write_spec, Voc, Writer};
use crate::wmap::WordMap;
use crate::Config;

verus! {

/// Joining a file name onto a base path with a single separator; an
/// empty base yields the bare name.
pub open spec fn path_join_spec(base: Seq<char>, name: Seq<char>) -> Seq<char> {
    if base.len() == 0 {
        name
    } else {
        base + seq!['/'] + name
    }
}

/// Join a file name onto a base path.
pub fn path_join(base: &str, name: &str) -> (r: String)
    ensures
        r@ == path_join_spec(base@, name@),
{
    if base.unicode_len() == 0 {
        return name.to_owned();
    }
    let mut out = base.to_owned();
    proof {
        reveal_strlit("/");
        assert("/"@ =~= seq!['/']);
    }
    out.append("/");
    out.append(name);
    proof {
        assert(out@ =~= path_join_spec(base@, name@));
    }
    out
}

/// `x` placed into the already-sorted `s`, after all words at most as
/// long as `x`.
pub open spec fn insert_asc(x: Seq<char>, s: Seq<Seq<char>>) -> Seq<Seq<char>>
    decreases s.len(),
{
    if s.len() == 0 {
        seq![x]
    } else if s[0].len() <= x.len() {
        seq![s[0]] + insert_asc(x, s.drop_first())
    } else {
        seq![x] + s
    }
}

/// The words of `s` sorted by ascending length, stably.
pub open spec fn sort_by_len(s: Seq<Seq<char>>) -> Seq<Seq<char>>
    decreases s.len(),
{
    if s.len() == 0 {
        Seq::empty()
    } else {
        insert_asc(s.last(), sort_by_len(s.drop_last()))
    }
}

proof fn lemma_insert_asc_at(x: Seq<char>, s: Seq<Seq<char>>, p: int)
    requires
        0 <= p <= s.len(),
        forall|k: int| 0 <= k < p ==> (#[trigger] s[k]).len() <= x.len(),
        p < s.len() ==> s[p].len() > x.len(),
    ensures
        insert_asc(x, s) == s.insert(p, x),
    decreases p,
{
    if p == 0 {
        if s.len() == 0 {
            assert(insert_asc(x, s) =~= s.insert(0, x));
        } else {
            assert(s[0].len() > x.len());
            assert(seq![x] + s =~= s.insert(0, x));
        }
    } else {
        assert(s[0].len() <= x.len());
        assert(forall|k: int|
            0 <= k < p - 1 ==> (#[trigger] s.drop_first()[k]).len() == s[k + 1].len() && s[k
                + 1].len() <= x.len());
        if p < s.len() {
            assert(s.drop_first()[p - 1].len() == s[p].len());
        }
        lemma_insert_asc_at(x, s.drop_first(), p - 1);
        assert(seq![s[0]] + s.drop_first().insert(p - 1, x) =~= s.insert(p, x));
    }
}

/// Sort words by ascending length, stably.
pub fn sort_words_by_len(list: Vec<String>) -> (r: Vec<String>)
    ensures
        r@.map_values(|t: String| t@) == sort_by_len(list@.map_values(|t: String| t@)),
{
    let ghost full = list@.map_values(|t: String| t@);
    let mut out: Vec<String> = Vec::new();
    proof {
        assert(out@.map_values(|t: String| t@) =~= Seq::<Seq<char>>::empty());
        assert(full.take(0) =~= Seq::<Seq<char>>::empty());
    }
    let n = list.len();
    for idx in 0..n
        invariant
            n == list@.len(),
            full == list@.map_values(|t: String| t@),
            full.len() == list@.len(),
            out@.map_values(|t: String| t@) == sort_by_len(full.take(idx as int)),
            out@.len() == idx,
    {
        let x = list[idx].clone();
        let xl = x.as_str().unicode_len();
        let mut p: usize = 0;
        while p < out.len() && out[p].as_str().unicode_len() <= xl
            invariant
                0 <= p <= out@.len(),
                xl == x@.len(),
                forall|k: int| 0 <= k < p ==> (#[trigger] out@[k])@.len() <= x@.len(),
            decreases out@.len() - p,
        {
            p = p + 1;
        }
        proof {
            let sorted = out@.map_values(|t: String| t@);
            assert(sorted.len() == out@.len());
            assert forall|k: int| 0 <= k < p implies (#[trigger] sorted[k]).len()
                <= x@.len() by {
                assert(sorted[k] == out@[k]@);
            }
            if p < out@.len() {
                assert(sorted[p as int] == out@[p as int]@);
            }
            lemma_insert_asc_at(x@, sorted, p as int);
            assert(out@.insert(p as int, x).map_values(|t: String| t@) =~= sorted.insert(
                p as int,
                x@,
            ));
            assert(full.take(idx as int).push(full[idx as int]) =~= full.take(idx as int + 1));
            assert(full.take(idx as int + 1).drop_last() =~= full.take(idx as int));
            assert(full.take(idx as int + 1).last() == full[idx as int]);
            assert(full[idx as int] == x@) by {
                assert(full[idx as int] == list@[idx as int]@);
            }
        }
        out.insert(p, x);
    }
    proof {
        assert(full.take(list@.len() as int) =~= full);
    }
    out
}

/// The refreshed excluded-list content: its words minus those of
/// `list`, sorted by ascending length, one per line.
pub fn update_off(list: Vec<String>, off_content: &str, reorder: bool) -> (r: String)
    ensures
        r@ == join_sep(
            sort_by_len(
                lines_of(off_content@, reorder).filter(
                    |w: Seq<char>| !words_set(list@).contains(w),
                ),
            ),
            '\n',
        ),
{
    let store = add_all(WordSet::new(), &list);
    proof {
        assert(store@ =~= words_set(list@));
    }
    let off_words = Parse::lines(off_content, reorder);
    let ghost ows = off_words@.map_values(|t: String| t@);
    let ghost pred = |w: Seq<char>| !words_set(list@).contains(w);
    let mut acc: Vec<String> = Vec::new();
    proof {
        assert(ows.take(0) =~= Seq::<Seq<char>>::empty());
        assert(ows.take(0).filter(pred) =~= Seq::<Seq<char>>::empty());
        assert(acc@.map_values(|t: String| t@) =~= Seq::<Seq<char>>::empty());
    }
    let n = off_words.len();
    for i in 0..n
        invariant
            n == off_words@.len(),
            store@ == words_set(list@),
            ows == off_words@.map_values(|t: String| t@),
            ows.len() == off_words@.len(),
            pred == (|w: Seq<char>| !words_set(list@).contains(w)),
            acc@.map_values(|t: String| t@) == ows.take(i as int).filter(pred),
    {
        let w = &off_words[i];
        let barred = store.contains(w.as_str());
        proof {
            assert(ows[i as int] == off_words@[i as int]@);
            assert(ows.take(i as int + 1) =~= ows.take(i as int).push(ows[i as int]));
            lemma_filter_push(ows.take(i as int), ows[i as int], pred);
        }
        if !barred {
            let ghost apre = acc@;
            acc.push(w.clone());
            proof {
                assert(acc@.map_values(|t: String| t@) =~= apre.map_values(|t: String| t@).push(
                    ows[i as int],
                ));
            }
        }
    }
    proof {
        assert(ows.take(ows.len() as int) =~= ows);
        reveal_strlit("\n");
        assert("\n"@ =~= seq!['\n']);
    }
    let sorted = sort_words_by_len(acc);
    join_with(&sorted, "\n")
}

/// The folder layout of one run.
#[derive(Clone)]
pub struct Mas {
    pub root: String,
    pub path_on: String,
    pub path_off: String,
    pub path_parts: String,
}

impl Mas {
    pub fn new() -> (r: Self)
        ensures
            r.root@ == Seq::<char>::empty(),
            r.path_on@ == Seq::<char>::empty(),
            r.path_off@ == Seq::<char>::empty(),
            r.path_parts@ == Seq::<char>::empty(),
    {
        Mas {
            root: String::new(),
            path_on: String::new(),
            path_off: String::new(),
            path_parts: String::new(),
        }
    }

    /// The root folder for the given run name: the dedicated folder for
    /// the aparter run, the current root otherwise.
    pub fn get_path(self, name: &str) -> (r: String)
        ensures
            r@ == (if name@ == "aparter"@ {
                name@
            } else {
                self.root@
            }),
    {
        if str_eq(name, "aparter") {
            name.to_owned()
        } else {
            self.root
        }
    }

    /// The candidate-list file under the root.
    pub fn get_path_on(self) -> (r: String)
        ensures
            r@ == path_join_spec(self.root@, "word.on"@),
    {
        path_join(self.root.as_str(), "word.on")
    }

    /// The excluded-list file under the root.
    pub fn get_path_off(self) -> (r: String)
        ensures
            r@ == path_join_spec(self.root@, "word.off"@),
    {
        path_join(self.root.as_str(), "word.off")
    }

    /// The per-length output folder under the root.
    pub fn get_path_parts(self) -> (r: String)
        ensures
            r@ == path_join_spec(self.root@, "parts"@),
    {
        path_join(self.root.as_str(), "parts")
    }

    /// The full queue of files of one run over the accepted list: the
    /// canonical intake file, the matching-category list, and the
    /// per-length bucket files of each category (the affix categories
    /// are not routed by the default split and stay empty).
    pub open spec fn classified_writers(
        accepted: Seq<Seq<char>>,
        pattern: Seq<char>,
        anchor_end: bool,
        book: Map<Seq<char>, Seq<char>>,
        root: Seq<char>,
        parts: Seq<char>,
    ) -> Seq<Option<(Seq<char>, Seq<char>)>> {
        let matching = accepted.filter(|w: Seq<char>| matches_pattern(w, pattern, anchor_end));
        let simple = accepted.filter(|w: Seq<char>| !matches_pattern(w, pattern, anchor_end));
        let none: Seq<Seq<char>> = Seq::empty();
        seq![
            write_spec("word.on"@, accepted, root, parts),
            write_spec("match.on"@, matching, root, parts),
        ] + collect_spec(buckets_spec(none, 2, 25), "N"@, book, root, parts, 2, 25)
            + collect_spec(buckets_spec(none, 2, 25), "O"@, book, root, parts, 2, 25)
            + collect_spec(buckets_spec(none, 2, 25), "P"@, book, root, parts, 2, 25)
            + collect_spec(buckets_spec(simple, 2, 25), "F"@, book, root, parts, 2, 25)
    }

    /// One full filtering run over in-memory contents: parse and filter
    /// the candidate list against the excluded list and `not_allow`,
    /// fail with every offending excluded word if the integrity check
    /// is on and fails, otherwise classify the accepted words, queue
    /// every output file, and refresh the excluded-list content.
    pub fn process(
        &self,
        on_content: &str,
        off_content: &str,
        not_allow: Vec<String>,
        book_data: &WordMap<String>,
        cfg: &Config,
    ) -> (r: Result<(Vec<String>, Vec<Option<Writer>>, String), Vec<String>>)
        ensures
            ({
                let on_ws = lines_of(on_content@, cfg.reorder_by_frequency);
                let off_ws = lines_of(off_content@, cfg.reorder_by_frequency);
                let barred = words_set(not_allow@) + Set::new(
                    |w: Seq<char>| off_ws.contains(w),
                );
                let accepted = on_ws.filter(|w: Seq<char>| !barred.contains(w));
                &&& (r is Err <==> cfg.require_superset_check && missing_words(
                    off_ws,
                    on_ws,
                ).len() > 0)
                &&& (r matches Err(e) ==> e@.map_values(|t: String| t@) == missing_words(
                    off_ws,
                    on_ws,
                ))
                &&& (r matches Ok(t) ==> t.0@.map_values(|t2: String| t2@) == accepted
                    && t.1@.map_values(|o: Option<Writer>| owriter_view(o))
                    == Mas::classified_writers(
                    accepted,
                    cfg.match_pattern@,
                    cfg.anchor_end,
                    book_data@,
                    self.root@,
                    self.path_parts@,
                ) && t.2@ == join_sep(
                    sort_by_len(
                        off_ws.filter(|w: Seq<char>| !words_set(not_allow@).contains(w)),
                    ),
                    '\n',
                ))
            }),
    {
        let ghost on_ws = lines_of(on_content@, cfg.reorder_by_frequency);
        let ghost off_ws = lines_of(off_content@, cfg.reorder_by_frequency);
        let ghost barred = words_set(not_allow@) + Set::new(|w: Seq<char>| off_ws.contains(w));
        let mut app = App::new(on_content.to_owned(), off_content.to_owned());
        let res = app.start(&not_allow, cfg.require_superset_check, cfg.reorder_by_frequency);
        let list = match res {
            Ok(l) => l,
            Err(e) => {
                return Err(e);
            },
        };
        proof {
            assert(app.store@ =~= barred);
            assert(list@.map_values(|t2: String| t2@) == on_ws.filter(
                |w: Seq<char>| !barred.contains(w),
            ));
            if cfg.reorder_by_frequency {
                lemma_lines_spec_accept(
                    crate::parse::popularity_order(
                        crate::tokens::tokens_of(on_content@, crate::tokens::Sep::Any),
                    ),
                    Set::empty(),
                );
            } else {
                lemma_lines_spec_accept(
                    crate::tokens::tokens_of(on_content@, crate::tokens::Sep::Any),
                    Set::empty(),
                );
            }
            crate::order::lemma_filter_sub(on_ws, |w: Seq<char>| !barred.contains(w));
            assert forall|k: int| 0 <= k < list@.len() implies 2 <= (
            #[trigger] list@[k])@.len() <= 25 by {
                let lv = list@.map_values(|t2: String| t2@);
                assert(lv[k] == list@[k]@);
                assert(on_ws.contains(lv[k]));
                let j = choose|j: int| 0 <= j < on_ws.len() && #[trigger] on_ws[j] == lv[k];
                assert(crate::parse::accept_word(on_ws[j]));
            }
        }
        let mut voc = Voc::new(list);
        voc.direct_data(cfg.match_pattern.as_str(), cfg.anchor_end);
        proof {
            let accepted = on_ws.filter(|w: Seq<char>| !barred.contains(w));
            let spred = |w: Seq<char>| !matches_pattern(w, cfg.match_pattern@, cfg.anchor_end);
            assert(voc.simple@.map_values(|t2: String| t2@) =~= accepted.filter(spred));
            crate::order::lemma_filter_sub(accepted, spred);
            assert forall|k: int| 0 <= k < voc.simple@.len() implies 2 <= (
            #[trigger] voc.simple@[k])@.len() <= 25 by {
                let sv = voc.simple@.map_values(|t2: String| t2@);
                assert(sv[k] == voc.simple@[k]@);
                assert(accepted.contains(sv[k]));
                let j = choose|j: int| 0 <= j < accepted.len() && #[trigger] accepted[j] == sv[k];
                crate::order::lemma_filter_sub(on_ws, |w: Seq<char>| !barred.contains(w));
                assert(on_ws.contains(accepted[j]));
                let j2 = choose|j2: int|
                    0 <= j2 < on_ws.len() && #[trigger] on_ws[j2] == accepted[j];
                assert(crate::parse::accept_word(on_ws[j2]));
            }
        }
        let ghost pre_writer = voc.writer@.map_values(|o: Option<Writer>| owriter_view(o));
        voc.compose(book_data, self);
        let off_new = update_off(not_allow, off_content, cfg.reorder_by_frequency);
        proof {
            let accepted = on_ws.filter(|w: Seq<char>| !barred.contains(w));
            let none: Seq<Seq<char>> = Seq::empty();
            assert(pre_writer =~= Seq::<Option<(Seq<char>, Seq<char>)>>::empty());
            assert(voc.list@.map_values(|t2: String| t2@) == accepted);
            assert(voc.matching@.map_values(|t2: String| t2@) =~= accepted.filter(
                |w: Seq<char>| matches_pattern(w, cfg.match_pattern@, cfg.anchor_end),
            ));
            assert(voc.simple@.map_values(|t2: String| t2@) =~= accepted.filter(
                |w: Seq<char>| !matches_pattern(w, cfg.match_pattern@, cfg.anchor_end),
            ));
            assert(voc.ed@.map_values(|t2: String| t2@) =~= none);
            assert(voc.ing@.map_values(|t2: String| t2@) =~= none);
            assert(voc.plural@.map_values(|t2: String| t2@) =~= none);
            assert(voc.writer@.map_values(|o: Option<Writer>| owriter_view(o))
                =~= Mas::classified_writers(
                accepted,
                cfg.match_pattern@,
                cfg.anchor_end,
                book_data@,
                self.root@,
                self.path_parts@,
            ));
        }
        Ok((voc.list, voc.writer, off_new))
    }

    /// Resolve every path of the layout from the run name.
    pub fn setup(self, name: &str) -> (r: Self)
        ensures
            r.root@ == (if name@ == "aparter"@ {
                name@
            } else {
                self.root@
            }),
            r.path_on@ == path_join_spec(r.root@, "word.on"@),
            r.path_off@ == path_join_spec(r.root@, "word.off"@),
            r.path_parts@ == path_join_spec(r.root@, "parts"@),
    {
        let root = self.get_path(name);
        let path_on = path_join(root.as_str(), "word.on");
        let path_off = path_join(root.as_str(), "word.off");
        let path_parts = path_join(root.as_str(), "parts");
        Mas { root, path_on, path_off, path_parts }
    }
}

} // verus!
