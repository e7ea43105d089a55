//! Classification and length-bucketing of accepted words, and the
//! queue of files to be written.

use vstd::prelude::*;
use crate::text::{matches_pattern, str_eq, Str};
use crate::tokens::{dec_str, join_sep, join_with, usize_dec};
use crate::mas::{path_join_spec, path_join, Mas};
use crate::wmap::WordMap;
use crate::booktore::{records_spec, write_to_file};
use crate::order::lemma_filter_push;

verus! {

/// A file to be written: its path and its full content.
#[derive(Debug, PartialEq, Eq)]
pub struct Writer {
    pub path: String,
    pub content: String,
}

impl Writer {
    pub fn new(path: String, content: String) -> (r: Self)
        ensures
            r.path@ == path@,
            r.content@ == content@,
    {
        Writer { path, content }
    }
}

/// The path and content of a queued file, if one is queued.
pub open spec fn owriter_view(o: Option<Writer>) -> Option<(Seq<char>, Seq<char>)> {
    match o {
        Some(w) => Some((w.path@, w.content@)),
        None => None,
    }
}

/// Per-length buckets over a contiguous range of lengths, each holding
/// its words in insertion order.
pub struct Buckets {
    min: usize,
    lists: Vec<Vec<String>>,
}

impl View for Buckets {
    type V = Map<int, Seq<Seq<char>>>;

    closed spec fn view(&self) -> Map<int, Seq<Seq<char>>> {
        Map::new(
            |k: int| self.min <= k < self.min + self.lists@.len(),
            |k: int| self.lists@[k - self.min]@.map_values(|t: String| t@),
        )
    }
}

impl Buckets {
    /// Buckets for every length from `min` to `max` inclusive, each
    /// empty.
    pub fn new(min: usize, max: usize) -> (r: Buckets)
        requires
            min <= max < usize::MAX,
        ensures
            r@.dom() =~= Set::new(|k: int| min <= k <= max),
            forall|k: int| min <= k <= max ==> #[trigger] r@[k] == Seq::<Seq<char>>::empty(),
    {
        let mut lists: Vec<Vec<String>> = Vec::new();
        let count = max - min + 1;
        for i in 0..count
            invariant
                lists@.len() == i,
                forall|k: int| 0 <= k < i ==> (#[trigger] lists@[k])@.len() == 0,
        {
            lists.push(Vec::new());
        }
        let r = Buckets { min, lists };
        proof {
            assert(r@.dom() =~= Set::new(|k: int| min <= k <= max));
            assert forall|k: int| min <= k <= max implies #[trigger] r@[k] == Seq::<
                Seq<char>,
            >::empty() by {
                assert(r.lists@[k - min]@.len() == 0);
                assert(r@[k] =~= Seq::<Seq<char>>::empty());
            }
        }
        r
    }

    /// The bucket for length `rank`, if `rank` is within the range.
    pub fn get(&self, rank: &usize) -> (r: Option<&Vec<String>>)
        ensures
            r is Some <==> self@.dom().contains(*rank as int),
            r matches Some(v) ==> v@.map_values(|t: String| t@) == self@[*rank as int],
    {
        if *rank >= self.min && *rank - self.min < self.lists.len() {
            Some(&self.lists[*rank - self.min])
        } else {
            None
        }
    }

    /// Append `w` to the bucket of its character length.
    pub fn push_word(&mut self, w: String)
        requires
            old(self)@.dom().contains(w@.len() as int),
        ensures
            final(self)@ == old(self)@.insert(
                w@.len() as int,
                old(self)@[w@.len() as int].push(w@),
            ),
    {
        let len = w.as_str().unicode_len();
        let idx = len - self.min;
        let mut lst = self.lists[idx].clone();
        let ghost pre = self.lists@;
        lst.push(w);
        self.lists.set(idx, lst);
        proof {
            assert forall|k: int|
                final(self)@.dom().contains(k) <==> old(self)@.insert(
                    w@.len() as int,
                    old(self)@[w@.len() as int].push(w@),
                ).dom().contains(k) by {}
            assert(final(self)@ =~= old(self)@.insert(
                w@.len() as int,
                old(self)@[w@.len() as int].push(w@),
            )) by {
                assert forall|k: int| final(self)@.dom().contains(k) implies final(self)@[k]
                    == old(self)@.insert(
                    w@.len() as int,
                    old(self)@[w@.len() as int].push(w@),
                )[k] by {
                    if k == w@.len() as int {
                        assert(self.lists@[k - self.min]@.map_values(|t: String| t@)
                            =~= pre[k - self.min]@.map_values(|t: String| t@).push(w@));
                    } else {
                        assert(self.lists@[k - self.min] == pre[k - self.min]);
                    }
                }
            }
        }
    }
}

/// The words of `ws` whose character length is exactly `k`, in order.
pub open spec fn of_len(ws: Seq<Seq<char>>, k: int) -> Seq<Seq<char>> {
    ws.filter(|w: Seq<char>| w.len() == k)
}

/// The buckets obtained by routing every word of `ws` to its exact
/// length, over the inclusive length range `min` to `max`.
pub open spec fn buckets_spec(ws: Seq<Seq<char>>, min: int, max: int) -> Map<int, Seq<Seq<char>>> {
    Map::new(|k: int| min <= k <= max, |k: int| of_len(ws, k))
}

/// The queued file for the word list `name`: under the root for the
/// canonical intake file, under the parts folder otherwise; queued only
/// when the list is non-empty (the intake file is always queued).
pub open spec fn write_spec(
    name: Seq<char>,
    ws: Seq<Seq<char>>,
    root: Seq<char>,
    parts: Seq<char>,
) -> Option<(Seq<char>, Seq<char>)> {
    let path = if name == "word.on"@ {
        path_join_spec(root, name)
    } else {
        path_join_spec(parts, name)
    };
    if ws.len() > 0 || name == "word.on"@ {
        Some((path, join_sep(ws, '\n') + seq!['\n']))
    } else {
        None
    }
}

/// The bucket file name for category `letter` and length `rank`.
pub open spec fn bucket_name(letter: Seq<char>, rank: int, off: bool) -> Seq<char> {
    letter + seq!['-'] + dec_str(rank as nat) + (if off {
        seq!['.', 'o', 'f', 'f']
    } else {
        seq!['.', 'o', 'n']
    })
}

/// The queued files for the buckets from length `lo` to `hi`: for each
/// length, the record file of its words' example blocks, then the bare
/// word-list file.
pub open spec fn collect_spec(
    b: Map<int, Seq<Seq<char>>>,
    letter: Seq<char>,
    book: Map<Seq<char>, Seq<char>>,
    root: Seq<char>,
    parts: Seq<char>,
    lo: int,
    hi: int,
) -> Seq<Option<(Seq<char>, Seq<char>)>>
    decreases hi + 1 - lo,
{
    if lo > hi {
        Seq::empty()
    } else {
        let ws = b[lo];
        let off = if records_spec(ws, book).len() > 0 {
            Some(
                (
                    path_join_spec(parts, bucket_name(letter, lo, true)),
                    join_sep(records_spec(ws, book), '\n'),
                ),
            )
        } else {
            None
        };
        seq![off, write_spec(bucket_name(letter, lo, false), ws, root, parts)] + collect_spec(
            b,
            letter,
            book,
            root,
            parts,
            lo + 1,
            hi,
        )
    }
}

/// `collect_spec` grows at the back as the range grows.
proof fn lemma_collect_snoc(
    b: Map<int, Seq<Seq<char>>>,
    letter: Seq<char>,
    book: Map<Seq<char>, Seq<char>>,
    root: Seq<char>,
    parts: Seq<char>,
    lo: int,
    hi: int,
)
    requires
        lo <= hi,
    ensures
        collect_spec(b, letter, book, root, parts, lo, hi) == collect_spec(
            b,
            letter,
            book,
            root,
            parts,
            lo,
            hi - 1,
        ) + collect_spec(b, letter, book, root, parts, hi, hi),
    decreases hi - lo,
{
    if lo == hi {
        assert(collect_spec(b, letter, book, root, parts, lo, hi - 1) =~= Seq::<
            Option<(Seq<char>, Seq<char>)>,
        >::empty());
        assert(collect_spec(b, letter, book, root, parts, lo, hi - 1) + collect_spec(
            b,
            letter,
            book,
            root,
            parts,
            hi,
            hi,
        ) =~= collect_spec(b, letter, book, root, parts, hi, hi));
    } else {
        lemma_collect_snoc(b, letter, book, root, parts, lo + 1, hi);
        let ws = b[lo];
        let off = if records_spec(ws, book).len() > 0 {
            Some(
                (
                    path_join_spec(parts, bucket_name(letter, lo, true)),
                    join_sep(records_spec(ws, book), '\n'),
                ),
            )
        } else {
            None
        };
        let head = seq![off, write_spec(bucket_name(letter, lo, false), ws, root, parts)];
        assert(head + (collect_spec(b, letter, book, root, parts, lo + 1, hi - 1) + collect_spec(
            b,
            letter,
            book,
            root,
            parts,
            hi,
            hi,
        )) =~= (head + collect_spec(b, letter, book, root, parts, lo + 1, hi - 1)) + collect_spec(
            b,
            letter,
            book,
            root,
            parts,
            hi,
            hi,
        ));
    }
}

/// The classified word lists of one run, and the queue of files to
/// write.
pub struct Voc {
    pub list: Vec<String>,
    pub ing: Vec<String>,
    pub ed: Vec<String>,
    pub plural: Vec<String>,
    pub simple: Vec<String>,
    pub matching: Vec<String>,
    pub writer: Vec<Option<Writer>>,
}

impl Voc {
    pub fn new(list: Vec<String>) -> (r: Self)
        ensures
            r.list == list,
            r.ing@.len() == 0,
            r.ed@.len() == 0,
            r.plural@.len() == 0,
            r.simple@.len() == 0,
            r.matching@.len() == 0,
            r.writer@.len() == 0,
    {
        Voc {
            list,
            ing: Vec::new(),
            ed: Vec::new(),
            plural: Vec::new(),
            simple: Vec::new(),
            matching: Vec::new(),
            writer: Vec::new(),
        }
    }

    /// Queue the file for the word list `name`.
    pub fn write(name: &str, list: &Vec<String>, mas: &Mas) -> (r: Option<Writer>)
        ensures
            owriter_view(r) == write_spec(
                name@,
                list@.map_values(|t: String| t@),
                mas.root@,
                mas.path_parts@,
            ),
    {
        let is_intake = str_eq(name, "word.on");
        proof {
            reveal_strlit("word.on");
        }
        let path = if is_intake {
            path_join(mas.root.as_str(), name)
        } else {
            path_join(mas.path_parts.as_str(), name)
        };
        if list.len() > 0 || is_intake {
            proof {
                reveal_strlit("\n");
                assert("\n"@ =~= seq!['\n']);
            }
            let mut content = join_with(list, "\n");
            content.append("\n");
            Some(Writer::new(path, content))
        } else {
            None
        }
    }

    /// Split the accepted list into the pattern-matching words and the
    /// simple words, keeping order.
    pub fn direct_data(&mut self, pattern: &str, anchor_end: bool)
        ensures
            final(self).matching@.map_values(|t: String| t@) == old(self).matching@.map_values(
                |t: String| t@,
            ) + old(self).list@.map_values(|t: String| t@).filter(
                |w: Seq<char>| matches_pattern(w, pattern@, anchor_end),
            ),
            final(self).simple@.map_values(|t: String| t@) == old(self).simple@.map_values(
                |t: String| t@,
            ) + old(self).list@.map_values(|t: String| t@).filter(
                |w: Seq<char>| !matches_pattern(w, pattern@, anchor_end),
            ),
            final(self).list == old(self).list,
            final(self).ing == old(self).ing,
            final(self).ed == old(self).ed,
            final(self).plural == old(self).plural,
            final(self).writer == old(self).writer,
    {
        let ghost ws = self.list@.map_values(|t: String| t@);
        let ghost mpred = |w: Seq<char>| matches_pattern(w, pattern@, anchor_end);
        let ghost spred = |w: Seq<char>| !matches_pattern(w, pattern@, anchor_end);
        let ghost m0 = self.matching@.map_values(|t: String| t@);
        let ghost s0 = self.simple@.map_values(|t: String| t@);
        proof {
            assert(ws.take(0) =~= Seq::<Seq<char>>::empty());
            assert(ws.take(0).filter(mpred) =~= Seq::<Seq<char>>::empty());
            assert(ws.take(0).filter(spred) =~= Seq::<Seq<char>>::empty());
            assert(m0 + ws.take(0).filter(mpred) =~= m0);
            assert(s0 + ws.take(0).filter(spred) =~= s0);
        }
        let n = self.list.len();
        for i in 0..n
            invariant
                n == self.list@.len(),
                ws == self.list@.map_values(|t: String| t@),
                ws.len() == self.list@.len(),
                mpred == (|w: Seq<char>| matches_pattern(w, pattern@, anchor_end)),
                spred == (|w: Seq<char>| !matches_pattern(w, pattern@, anchor_end)),
                self.matching@.map_values(|t: String| t@) == m0 + ws.take(i as int).filter(mpred),
                self.simple@.map_values(|t: String| t@) == s0 + ws.take(i as int).filter(spred),
                self.list == old(self).list,
                m0 == old(self).matching@.map_values(|t: String| t@),
                s0 == old(self).simple@.map_values(|t: String| t@),
                self.ing == old(self).ing,
                self.ed == old(self).ed,
                self.plural == old(self).plural,
                self.writer == old(self).writer,
        {
            let word = self.list[i].clone();
            proof {
                assert(ws.take(i as int + 1) =~= ws.take(i as int).push(ws[i as int]));
                assert(ws[i as int] == self.list@[i as int]@);
                lemma_filter_push(ws.take(i as int), ws[i as int], mpred);
                lemma_filter_push(ws.take(i as int), ws[i as int], spred);
            }
            if Str::is_match(word.as_str(), pattern, anchor_end) {
                let ghost mp = self.matching@;
                self.matching.push(word);
                proof {
                    assert(self.matching@.map_values(|t: String| t@) =~= mp.map_values(
                        |t: String| t@,
                    ).push(ws[i as int]));
                    assert(m0 + ws.take(i as int).filter(mpred).push(ws[i as int]) =~= (m0
                        + ws.take(i as int).filter(mpred)).push(ws[i as int]));
                    assert(s0 + ws.take(i as int + 1).filter(spred) == s0 + ws.take(
                        i as int,
                    ).filter(spred));
                }
            } else {
                let ghost sp = self.simple@;
                self.simple.push(word);
                proof {
                    assert(self.simple@.map_values(|t: String| t@) =~= sp.map_values(
                        |t: String| t@,
                    ).push(ws[i as int]));
                    assert(s0 + ws.take(i as int).filter(spred).push(ws[i as int]) =~= (s0
                        + ws.take(i as int).filter(spred)).push(ws[i as int]));
                    assert(m0 + ws.take(i as int + 1).filter(mpred) == m0 + ws.take(
                        i as int,
                    ).filter(mpred));
                }
            }
        }
        proof {
            assert(ws.take(ws.len() as int) =~= ws);
        }
    }

    /// The pre-populated empty buckets for every accepted length.
    pub fn store() -> (r: Buckets)
        ensures
            r@.dom() =~= Set::new(|k: int| 2 <= k <= 25),
            forall|k: int| 2 <= k <= 25 ==> #[trigger] r@[k] == Seq::<Seq<char>>::empty(),
    {
        Buckets::new(crate::rule::Word::min(), crate::rule::Word::max())
    }

    /// Queue, for every length bucket of `list`, the record file of its
    /// words' example blocks and the bare word-list file.
    pub fn collect(
        store: &Buckets,
        letter: &str,
        book_data: &WordMap<String>,
        mas: &Mas,
    ) -> (r: Vec<Option<Writer>>)
        requires
            store@.dom() =~= Set::new(|k: int| 2 <= k <= 25),
        ensures
            r@.map_values(|o: Option<Writer>| owriter_view(o)) == collect_spec(
                store@,
                letter@,
                book_data@,
                mas.root@,
                mas.path_parts@,
                2,
                25,
            ),
    {
        let mut out: Vec<Option<Writer>> = Vec::new();
        proof {
            assert(out@.map_values(|o: Option<Writer>| owriter_view(o)) =~= Seq::<
                Option<(Seq<char>, Seq<char>)>,
            >::empty());
            assert(collect_spec(
                store@,
                letter@,
                book_data@,
                mas.root@,
                mas.path_parts@,
                2,
                1,
            ) =~= Seq::<Option<(Seq<char>, Seq<char>)>>::empty());
        }
        let mut rank: usize = 2;
        while rank <= 25
            invariant
                2 <= rank <= 26,
                store@.dom() =~= Set::new(|k: int| 2 <= k <= 25),
                out@.map_values(|o: Option<Writer>| owriter_view(o)) == collect_spec(
                    store@,
                    letter@,
                    book_data@,
                    mas.root@,
                    mas.path_parts@,
                    2,
                    rank - 1,
                ),
            decreases 26 - rank,
        {
            let lst = Buckets::get(store, &rank).unwrap();
            let num = usize_dec(rank);
            let mut off_name = letter.to_owned();
            let mut on_name = letter.to_owned();
            proof {
                reveal_strlit("-");
                reveal_strlit(".off");
                reveal_strlit(".on");
                assert("-"@ =~= seq!['-']);
                assert(".off"@ =~= seq!['.', 'o', 'f', 'f']);
                assert(".on"@ =~= seq!['.', 'o', 'n']);
            }
            off_name.append("-");
            off_name.append(num.as_str());
            off_name.append(".off");
            on_name.append("-");
            on_name.append(num.as_str());
            on_name.append(".on");
            proof {
                assert(off_name@ =~= bucket_name(letter@, rank as int, true));
                assert(on_name@ =~= bucket_name(letter@, rank as int, false));
            }
            let off_path = path_join(mas.path_parts.as_str(), off_name.as_str());
            let off_writer = write_to_file(off_path.as_str(), lst, book_data);
            let on_writer = Voc::write(on_name.as_str(), lst, mas);
            let ghost opre = out@;
            out.push(off_writer);
            out.push(on_writer);
            proof {
                lemma_collect_snoc(
                    store@,
                    letter@,
                    book_data@,
                    mas.root@,
                    mas.path_parts@,
                    2,
                    rank as int,
                );
                let pair = collect_spec(
                    store@,
                    letter@,
                    book_data@,
                    mas.root@,
                    mas.path_parts@,
                    rank as int,
                    rank as int,
                );
                assert(pair.len() == 2) by {
                    assert(collect_spec(
                        store@,
                        letter@,
                        book_data@,
                        mas.root@,
                        mas.path_parts@,
                        rank as int + 1,
                        rank as int,
                    ) =~= Seq::<Option<(Seq<char>, Seq<char>)>>::empty());
                }
                assert(out@.map_values(|o: Option<Writer>| owriter_view(o)) =~= collect_spec(
                    store@,
                    letter@,
                    book_data@,
                    mas.root@,
                    mas.path_parts@,
                    2,
                    rank as int,
                )) by {
                    let lhs = out@.map_values(|o: Option<Writer>| owriter_view(o));
                    let prev = opre.map_values(|o: Option<Writer>| owriter_view(o));
                    let ws = store@[rank as int];
                    assert(lst@.map_values(|t: String| t@) == ws);
                    assert forall|m: int| 0 <= m < lhs.len() implies lhs[m] == (prev + pair)[m] by {
                        if m < opre.len() {
                            assert(out@[m] == opre[m]);
                            assert(prev[m] == owriter_view(opre[m]));
                        } else if m == opre.len() {
                            assert(out@[m] == off_writer);
                            assert(pair[0] == (if records_spec(ws, book_data@).len() > 0 {
                                Some(
                                    (
                                        path_join_spec(
                                            mas.path_parts@,
                                            bucket_name(letter@, rank as int, true),
                                        ),
                                        join_sep(records_spec(ws, book_data@), '\n'),
                                    ),
                                )
                            } else {
                                None
                            }));
                        } else {
                            assert(out@[m] == on_writer);
                            assert(pair[1] == write_spec(
                                bucket_name(letter@, rank as int, false),
                                ws,
                                mas.root@,
                                mas.path_parts@,
                            ));
                        }
                    }
                    assert(lhs.len() == (prev + pair).len());
                }
            }
            rank = rank + 1;
        }
        out
    }

    /// Bucket every word of `list` by its exact length and queue the
    /// bucket files.
    pub fn insert(
        list: &Vec<String>,
        letter: &str,
        book_data: &WordMap<String>,
        mas: &Mas,
    ) -> (r: Vec<Option<Writer>>)
        requires
            forall|k: int| 0 <= k < list@.len() ==> 2 <= (#[trigger] list@[k])@.len() <= 25,
        ensures
            r@.map_values(|o: Option<Writer>| owriter_view(o)) == collect_spec(
                buckets_spec(list@.map_values(|t: String| t@), 2, 25),
                letter@,
                book_data@,
                mas.root@,
                mas.path_parts@,
                2,
                25,
            ),
    {
        let mut store = Voc::store();
        let ghost ws = list@.map_values(|t: String| t@);
        proof {
            assert(ws.take(0) =~= Seq::<Seq<char>>::empty());
            assert(store@ =~= buckets_spec(ws.take(0), 2, 25)) by {
                assert forall|k: int| 2 <= k <= 25 implies store@[k] == buckets_spec(
                    ws.take(0),
                    2,
                    25,
                )[k] by {
                    assert(of_len(ws.take(0), k) =~= Seq::<Seq<char>>::empty());
                }
                assert(store@.dom() =~= buckets_spec(ws.take(0), 2, 25).dom());
            }
        }
        for i in 0..list.len()
            invariant
                ws == list@.map_values(|t: String| t@),
                ws.len() == list@.len(),
                forall|k: int| 0 <= k < list@.len() ==> 2 <= (#[trigger] list@[k])@.len() <= 25,
                store@ == buckets_spec(ws.take(i as int), 2, 25),
        {
            let word = list[i].clone();
            let ghost bpre = store@;
            proof {
                assert(ws[i as int] == list@[i as int]@);
                assert(word@ == ws[i as int]);
                assert(2 <= word@.len() <= 25);
                assert(bpre.dom() =~= Set::new(|k: int| 2 <= k <= 25));
                assert(bpre.dom().contains(word@.len() as int));
            }
            store.push_word(word);
            proof {
                assert(ws.take(i as int + 1) =~= ws.take(i as int).push(ws[i as int]));
                assert(store@ =~= buckets_spec(ws.take(i as int + 1), 2, 25)) by {
                    assert forall|k: int| 2 <= k <= 25 implies store@[k] == buckets_spec(
                        ws.take(i as int + 1),
                        2,
                        25,
                    )[k] by {
                        lemma_filter_push(
                            ws.take(i as int),
                            ws[i as int],
                            |w: Seq<char>| w.len() == k,
                        );
                        if k == ws[i as int].len() as int {
                            assert(store@[k] == bpre[ws[i as int].len() as int].push(
                                ws[i as int],
                            ));
                        } else {
                            assert(store@[k] == bpre[k]);
                        }
                    }
                    assert(store@.dom() =~= buckets_spec(ws.take(i as int + 1), 2, 25).dom());
                }
            }
        }
        proof {
            assert(ws.take(ws.len() as int) =~= ws);
        }
        Voc::collect(&store, letter, book_data, mas)
    }

    /// Queue every file of the run: the canonical intake list, the
    /// matching-category list, and the per-length bucket files of each
    /// category.
    pub fn compose(&mut self, book_data: &WordMap<String>, mas: &Mas)
        requires
            forall|k: int|
                0 <= k < old(self).ed@.len() ==> 2 <= (#[trigger] old(self).ed@[k])@.len() <= 25,
            forall|k: int|
                0 <= k < old(self).ing@.len() ==> 2 <= (#[trigger] old(self).ing@[k])@.len()
                    <= 25,
            forall|k: int|
                0 <= k < old(self).plural@.len() ==> 2 <= (#[trigger] old(
                    self,
                ).plural@[k])@.len() <= 25,
            forall|k: int|
                0 <= k < old(self).simple@.len() ==> 2 <= (#[trigger] old(
                    self,
                ).simple@[k])@.len() <= 25,
        ensures
            final(self).writer@.map_values(|o: Option<Writer>| owriter_view(o)) == old(
                self,
            ).writer@.map_values(|o: Option<Writer>| owriter_view(o)) + seq![
                write_spec(
                    "word.on"@,
                    old(self).list@.map_values(|t: String| t@),
                    mas.root@,
                    mas.path_parts@,
                ),
                write_spec(
                    "match.on"@,
                    old(self).matching@.map_values(|t: String| t@),
                    mas.root@,
                    mas.path_parts@,
                ),
            ] + collect_spec(
                buckets_spec(old(self).ed@.map_values(|t: String| t@), 2, 25),
                "N"@,
                book_data@,
                mas.root@,
                mas.path_parts@,
                2,
                25,
            ) + collect_spec(
                buckets_spec(old(self).ing@.map_values(|t: String| t@), 2, 25),
                "O"@,
                book_data@,
                mas.root@,
                mas.path_parts@,
                2,
                25,
            ) + collect_spec(
                buckets_spec(old(self).plural@.map_values(|t: String| t@), 2, 25),
                "P"@,
                book_data@,
                mas.root@,
                mas.path_parts@,
                2,
                25,
            ) + collect_spec(
                buckets_spec(old(self).simple@.map_values(|t: String| t@), 2, 25),
                "F"@,
                book_data@,
                mas.root@,
                mas.path_parts@,
                2,
                25,
            ),
            final(self).list == old(self).list,
            final(self).matching == old(self).matching,
            final(self).simple == old(self).simple,
            final(self).ed == old(self).ed,
            final(self).ing == old(self).ing,
            final(self).plural == old(self).plural,
    {
        let w1 = Voc::write("word.on", &self.list, mas);
        let w2 = Voc::write("match.on", &self.matching, mas);
        let mut b1 = Voc::insert(&self.ed, "N", book_data, mas);
        let mut b2 = Voc::insert(&self.ing, "O", book_data, mas);
        let mut b3 = Voc::insert(&self.plural, "P", book_data, mas);
        let mut b4 = Voc::insert(&self.simple, "F", book_data, mas);
        let ghost wpre = self.writer@;
        let ghost v1 = owriter_view(w1);
        let ghost v2 = owriter_view(w2);
        let ghost s1 = b1@.map_values(|o: Option<Writer>| owriter_view(o));
        let ghost s2 = b2@.map_values(|o: Option<Writer>| owriter_view(o));
        let ghost s3 = b3@.map_values(|o: Option<Writer>| owriter_view(o));
        let ghost s4 = b4@.map_values(|o: Option<Writer>| owriter_view(o));
        let ghost r1 = b1@;
        let ghost r2 = b2@;
        let ghost r3 = b3@;
        let ghost r4 = b4@;
        self.writer.push(w1);
        self.writer.push(w2);
        self.writer.append(&mut b1);
        self.writer.append(&mut b2);
        self.writer.append(&mut b3);
        self.writer.append(&mut b4);
        proof {
            assert(self.writer@ == wpre.push(w1).push(w2) + r1 + r2 + r3 + r4) by {
                assert(self.writer@ =~= wpre.push(w1).push(w2) + r1 + r2 + r3 + r4);
            }
            assert(self.writer@.map_values(|o: Option<Writer>| owriter_view(o))
                =~= wpre.map_values(|o: Option<Writer>| owriter_view(o)) + seq![v1, v2] + s1 + s2
                + s3 + s4) by {
                let lhs = self.writer@.map_values(|o: Option<Writer>| owriter_view(o));
                let prev = wpre.map_values(|o: Option<Writer>| owriter_view(o));
                assert(s1 == r1.map_values(|o: Option<Writer>| owriter_view(o)));
                assert(s2 == r2.map_values(|o: Option<Writer>| owriter_view(o)));
                assert(s3 == r3.map_values(|o: Option<Writer>| owriter_view(o)));
                assert(s4 == r4.map_values(|o: Option<Writer>| owriter_view(o)));
                assert forall|m: int| 0 <= m < lhs.len() implies lhs[m] == (prev + seq![v1, v2]
                    + s1 + s2 + s3 + s4)[m] by {
                    assert(lhs[m] == owriter_view(self.writer@[m]));
                    if m < wpre.len() {
                        assert(self.writer@[m] == wpre[m]);
                        assert(prev[m] == owriter_view(wpre[m]));
                    } else if m < wpre.len() + 2 {
                    } else if m < wpre.len() + 2 + s1.len() {
                        assert(self.writer@[m] == r1[m - wpre.len() - 2]);
                        assert(s1[m - wpre.len() - 2] == owriter_view(r1[m - wpre.len() - 2]));
                    } else if m < wpre.len() + 2 + s1.len() + s2.len() {
                        assert(self.writer@[m] == r2[m - wpre.len() - 2 - s1.len()]);
                        assert(s2[m - wpre.len() - 2 - s1.len()] == owriter_view(
                            r2[m - wpre.len() - 2 - s1.len()],
                        ));
                    } else if m < wpre.len() + 2 + s1.len() + s2.len() + s3.len() {
                        assert(self.writer@[m] == r3[m - wpre.len() - 2 - s1.len() - s2.len()]);
                        assert(s3[m - wpre.len() - 2 - s1.len() - s2.len()] == owriter_view(
                            r3[m - wpre.len() - 2 - s1.len() - s2.len()],
                        ));
                    } else {
                        assert(self.writer@[m] == r4[m - wpre.len() - 2 - s1.len() - s2.len()
                            - s3.len()]);
                        assert(s4[m - wpre.len() - 2 - s1.len() - s2.len() - s3.len()]
                            == owriter_view(
                            r4[m - wpre.len() - 2 - s1.len() - s2.len() - s3.len()],
                        ));
                    }
                }
            }
            assert(wpre.map_values(|o: Option<Writer>| owriter_view(o)) + seq![v1, v2] + s1 + s2
                + s3 + s4 =~= wpre.map_values(|o: Option<Writer>| owriter_view(o)) + seq![
                v1,
                v2,
            ] + s1 + s2 + s3 + s4);
        }
    }
}

} // verus!
