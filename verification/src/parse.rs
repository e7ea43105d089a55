//! Candidate-list parsing: tokenization, canonicalization, rule
//! filtering, deduplication, and the forbidden-set check.

use vstd::prelude::*;
use vstd::pervasive::VecAdditionalExecFns;
use crate::text::{all_letters, normalize_spec, parse_word, str_eq, Str};
use crate::tokens::{split_words, tokens_of, Sep};
use crate::order::{pair_view, sort_desc, sort_pairs_desc};
use crate::rule;

verus! {

/// The set of (views of) the words in `l`.
pub open spec fn words_set(l: Seq<String>) -> Set<Seq<char>> {
    Set::new(|w: Seq<char>| exists|i: int| 0 <= i < l.len() && l[i]@ == w)
}

/// A set of words, deduplicated on insertion.
pub struct WordSet {
    list: Vec<String>,
}

impl View for WordSet {
    type V = Set<Seq<char>>;

    closed spec fn view(&self) -> Set<Seq<char>> {
        Set::new(
            |w: Seq<char>|
                exists|i: int| 0 <= i < self.list@.len() && self.list@[i]@ == w,
        )
    }
}

impl WordSet {
    /// The empty set.
    pub fn new() -> (r: WordSet)
        ensures
            r@ == Set::<Seq<char>>::empty(),
    {
        let r = WordSet { list: Vec::new() };
        proof {
            assert(r@ =~= Set::<Seq<char>>::empty());
        }
        r
    }

    /// Membership test.
    pub fn contains(&self, w: &str) -> (r: bool)
        ensures
            r == self@.contains(w@),
    {
        let mut i: usize = 0;
        while i < self.list.len()
            invariant
                0 <= i <= self.list@.len(),
                forall|k: int| 0 <= k < i ==> self.list@[k]@ != w@,
            decreases self.list@.len() - i,
        {
            if str_eq(self.list[i].as_str(), w) {
                return true;
            }
            i = i + 1;
        }
        false
    }

    /// Add a word.
    pub fn insert(&mut self, w: String)
        ensures
            final(self)@ == old(self)@.insert(w@),
    {
        let present = self.contains(w.as_str());
        if !present {
            let ghost pre = self.list@;
            self.list.push(w);
            proof {
                assert forall|x: Seq<char>| final(self)@.contains(x) <==> old(self)@.insert(
                    w@,
                ).contains(x) by {
                    if x == w@ {
                        assert(self.list@[pre.len() as int]@ == w@);
                    } else {
                        if old(self)@.contains(x) {
                            let i = choose|i: int| 0 <= i < pre.len() && pre[i]@ == x;
                            assert(self.list@[i]@ == x);
                        }
                        if final(self)@.contains(x) {
                            let i = choose|i: int|
                                0 <= i < self.list@.len() && self.list@[i]@ == x;
                            assert(i < pre.len());
                        }
                    }
                }
                assert(final(self)@ =~= old(self)@.insert(w@));
            }
        } else {
            proof {
                assert(old(self)@.contains(w@));
                assert(final(self)@ =~= old(self)@.insert(w@));
            }
        }
    }
}

proof fn lemma_filter_push_word(s: Seq<Seq<char>>, x: Seq<char>, pred: spec_fn(Seq<char>) -> bool)
    ensures
        s.push(x).filter(pred) == if pred(x) {
            s.filter(pred).push(x)
        } else {
            s.filter(pred)
        },
{
    reveal_with_fuel(Seq::filter, 2);
    assert(s.push(x).drop_last() =~= s);
    assert(s.push(x).last() == x);
}

/// `words_set` membership is membership among the words' views.
proof fn lemma_words_set_map(l: Seq<String>, w: Seq<char>)
    ensures
        words_set(l).contains(w) <==> l.map_values(|t: String| t@).contains(w),
{
    if words_set(l).contains(w) {
        let i = choose|i: int| 0 <= i < l.len() && l[i]@ == w;
        assert(l.map_values(|t: String| t@)[i] == w);
    }
    if l.map_values(|t: String| t@).contains(w) {
        let s = l.map_values(|t: String| t@);
        let i = choose|i: int| 0 <= i < s.len() && #[trigger] s[i] == w;
        assert(l[i]@ == w);
    }
}

/// Add every word of `l` to `acc`.
pub(crate) fn add_all(acc: WordSet, l: &Vec<String>) -> (r: WordSet)
    ensures
        r@ == acc@ + words_set(l@),
{
    let mut cur = acc;
    let ghost base = cur@;
    for i in 0..l.len()
        invariant
            cur@ == base + words_set(l@.take(i as int)),
    {
        let ghost prev = cur@;
        cur.insert(l[i].clone());
        proof {
            assert forall|x: Seq<char>|
                (base + words_set(l@.take(i as int + 1))).contains(x) <==> prev.insert(
                    l@[i as int]@,
                ).contains(x) by {
                if words_set(l@.take(i as int + 1)).contains(x) {
                    let s = l@.take(i as int + 1);
                    let k = choose|k: int| 0 <= k < s.len() && (#[trigger] s[k])@ == x;
                    if k < i {
                        assert(l@.take(i as int)[k]@ == x);
                        assert(words_set(l@.take(i as int)).contains(x));
                    } else {
                        assert(x == l@[i as int]@);
                    }
                }
                if words_set(l@.take(i as int)).contains(x) {
                    let s = l@.take(i as int);
                    let k = choose|k: int| 0 <= k < s.len() && (#[trigger] s[k])@ == x;
                    assert(l@.take(i as int + 1)[k]@ == x);
                    assert(words_set(l@.take(i as int + 1)).contains(x));
                }
                if x == l@[i as int]@ {
                    assert(l@.take(i as int + 1)[i as int]@ == x);
                    assert(words_set(l@.take(i as int + 1)).contains(x));
                }
            }
            assert(cur@ =~= base + words_set(l@.take(i as int + 1)));
        }
    }
    proof {
        assert(l@.take(l@.len() as int) =~= l@);
    }
    cur
}

/// Builder of the forbidden set: the union of the given lists' words.
pub struct Forbid;

impl Forbid {
    /// Union `store` with the words of both lists.
    pub fn start(store: WordSet, lista_a: &Vec<String>, lista_b: &Vec<String>) -> (r: WordSet)
        ensures
            r@ == store@ + words_set(lista_a@) + words_set(lista_b@),
    {
        let cur = add_all(store, lista_a);
        add_all(cur, lista_b)
    }
}

/// A word the rule filter lets through: length within bounds, all
/// lowercase English letters.
pub open spec fn accept_word(w: Seq<char>) -> bool {
    2 <= w.len() <= 25 && all_letters(w)
}

/// The canonical accepted words of the token list `ts`, first
/// occurrence first, duplicates and words in `seen` dropped.
pub open spec fn lines_spec(ts: Seq<Seq<char>>, seen: Set<Seq<char>>) -> Seq<Seq<char>>
    decreases ts.len(),
{
    if ts.len() == 0 {
        Seq::empty()
    } else {
        let w = normalize_spec(ts[0]);
        if accept_word(w) && !seen.contains(w) {
            seq![w] + lines_spec(ts.drop_first(), seen.insert(w))
        } else {
            lines_spec(ts.drop_first(), seen)
        }
    }
}

/// The canonical accepted words of `s`, after optional frequency
/// reordering of its tokens.
pub open spec fn lines_of(s: Seq<char>, reorder: bool) -> Seq<Seq<char>> {
    if reorder {
        lines_spec(popularity_order(tokens_of(s, Sep::Any)), Set::empty())
    } else {
        lines_spec(tokens_of(s, Sep::Any), Set::empty())
    }
}

/// Every word that the line parser emits passes the rule filter.
pub proof fn lemma_lines_spec_accept(ts: Seq<Seq<char>>, seen: Set<Seq<char>>)
    ensures
        forall|k: int|
            0 <= k < lines_spec(ts, seen).len() ==> accept_word(
                #[trigger] lines_spec(ts, seen)[k],
            ),
    decreases ts.len(),
{
    if ts.len() > 0 {
        let w = normalize_spec(ts[0]);
        if accept_word(w) && !seen.contains(w) {
            lemma_lines_spec_accept(ts.drop_first(), seen.insert(w));
            let r = lines_spec(ts, seen);
            assert forall|k: int| 0 <= k < r.len() implies accept_word(#[trigger] r[k]) by {
                assert(r == seq![w] + lines_spec(ts.drop_first(), seen.insert(w)));
                if k > 0 {
                    assert(r[k] == lines_spec(ts.drop_first(), seen.insert(w))[k - 1]);
                } else {
                    assert(r[0] == w);
                }
            }
        } else {
            lemma_lines_spec_accept(ts.drop_first(), seen);
            let r = lines_spec(ts, seen);
            assert forall|k: int| 0 <= k < r.len() implies accept_word(#[trigger] r[k]) by {
                assert(r[k] == lines_spec(ts.drop_first(), seen)[k]);
            }
        }
    }
}

/// The distinct tokens of `ts`, first occurrence first.
pub open spec fn firsts(ts: Seq<Seq<char>>) -> Seq<Seq<char>>
    decreases ts.len(),
{
    if ts.len() == 0 {
        Seq::empty()
    } else if ts.drop_last().contains(ts.last()) {
        firsts(ts.drop_last())
    } else {
        firsts(ts.drop_last()).push(ts.last())
    }
}

/// How often `w` occurs in `ts`.
pub open spec fn occurrences(ts: Seq<Seq<char>>, w: Seq<char>) -> nat {
    ts.filter(|t: Seq<char>| t == w).len()
}

/// Each distinct token of `ts` paired with its occurrence count, first
/// encounter first.
pub open spec fn counted(ts: Seq<Seq<char>>) -> Seq<(Seq<char>, usize)> {
    Seq::new(firsts(ts).len(), |i: int| (firsts(ts)[i], occurrences(ts, firsts(ts)[i]) as usize))
}

/// The distinct tokens of `ts` ordered by descending occurrence count,
/// ties in first-encounter order.
pub open spec fn popularity_order(ts: Seq<Seq<char>>) -> Seq<Seq<char>> {
    sort_desc(counted(ts)).map_values(|p: (Seq<char>, usize)| p.0)
}

proof fn lemma_count_zero(ts: Seq<Seq<char>>, w: Seq<char>)
    requires
        !ts.contains(w),
    ensures
        occurrences(ts, w) == 0,
    decreases ts.len(),
{
    reveal_with_fuel(Seq::filter, 2);
    let pred = |t: Seq<char>| t == w;
    if ts.len() > 0 {
        assert(!ts.drop_last().contains(w)) by {
            if ts.drop_last().contains(w) {
                let i = choose|i: int| 0 <= i < ts.drop_last().len() && ts.drop_last()[i] == w;
                assert(ts[i] == w);
            }
        }
        lemma_count_zero(ts.drop_last(), w);
        assert(ts[ts.len() - 1] != w);
        assert(!pred(ts.last()));
        assert(ts.filter(pred) == ts.drop_last().filter(pred));
    }
}

/// `firsts` keeps exactly the elements of `ts`.
pub proof fn lemma_firsts_contains(ts: Seq<Seq<char>>, w: Seq<char>)
    ensures
        firsts(ts).contains(w) <==> ts.contains(w),
    decreases ts.len(),
{
    if ts.len() > 0 {
        lemma_firsts_contains(ts.drop_last(), w);
        if ts.contains(w) {
            let i = choose|i: int| 0 <= i < ts.len() && ts[i] == w;
            if i < ts.len() - 1 {
                assert(ts.drop_last()[i] == w);
                assert(ts.drop_last().contains(w));
            }
            if ts.drop_last().contains(ts.last()) {
                assert(firsts(ts).contains(w));
            } else {
                assert(firsts(ts) == firsts(ts.drop_last()).push(ts.last()));
                if w == ts.last() {
                    assert(firsts(ts)[firsts(ts).len() - 1] == w);
                } else {
                    assert(ts.drop_last().contains(w));
                    let k = choose|k: int|
                        0 <= k < firsts(ts.drop_last()).len() && firsts(ts.drop_last())[k] == w;
                    assert(firsts(ts)[k] == w);
                }
            }
        }
        if firsts(ts).contains(w) {
            let k = choose|k: int| 0 <= k < firsts(ts).len() && firsts(ts)[k] == w;
            if ts.drop_last().contains(ts.last()) {
                assert(ts.drop_last().contains(w) ==> ts.contains(w)) by {
                    if ts.drop_last().contains(w) {
                        let i = choose|i: int|
                            0 <= i < ts.drop_last().len() && ts.drop_last()[i] == w;
                        assert(ts[i] == w);
                    }
                }
            } else {
                if k < firsts(ts.drop_last()).len() {
                    assert(firsts(ts.drop_last())[k] == w);
                    if ts.drop_last().contains(w) {
                        let i = choose|i: int|
                            0 <= i < ts.drop_last().len() && ts.drop_last()[i] == w;
                        assert(ts[i] == w);
                    }
                } else {
                    assert(w == ts.last());
                    assert(ts[ts.len() - 1] == w);
                }
            }
        }
    }
}

/// `firsts` never repeats an element.
pub proof fn lemma_firsts_distinct(ts: Seq<Seq<char>>)
    ensures
        forall|i: int, j: int|
            0 <= i < j < firsts(ts).len() ==> #[trigger] firsts(ts)[i] != #[trigger] firsts(ts)[j],
    decreases ts.len(),
{
    if ts.len() > 0 {
        lemma_firsts_distinct(ts.drop_last());
        if !ts.drop_last().contains(ts.last()) {
            let f = firsts(ts);
            let fp = firsts(ts.drop_last());
            lemma_firsts_contains(ts.drop_last(), ts.last());
            assert forall|i: int, j: int| 0 <= i < j < f.len() implies #[trigger] f[i]
                != #[trigger] f[j] by {
                if j < fp.len() {
                    assert(f[i] == fp[i] && f[j] == fp[j]);
                } else {
                    assert(f[j] == ts.last());
                    assert(f[i] == fp[i]);
                    if fp[i] == ts.last() {
                        assert(fp.contains(ts.last()));
                    }
                }
            }
        }
    }
}

pub struct Parse;

impl Parse {
    /// When `reorder` is set, replace the token list by its distinct
    /// tokens ordered by descending frequency; otherwise keep it as is.
    pub fn sort_popular(list: Vec<String>, reorder: bool) -> (r: Vec<String>)
        ensures
            !reorder ==> r == list,
            reorder ==> r@.map_values(|t: String| t@) == popularity_order(
                list@.map_values(|t: String| t@),
            ),
    {
        if !reorder {
            return list;
        }
        let ghost full = list@.map_values(|t: String| t@);
        let mut pairs: Vec<(String, usize)> = Vec::new();
        proof {
            assert(full.take(0) =~= Seq::<Seq<char>>::empty());
            assert(pairs@.map_values(|p: (String, usize)| p.0@) =~= firsts(full.take(0)));
        }
        for i in 0..list.len()
            invariant
                full == list@.map_values(|t: String| t@),
                full.len() == list@.len(),
                pairs@.map_values(|p: (String, usize)| p.0@) == firsts(full.take(i as int)),
                forall|k: int|
                    0 <= k < pairs@.len() ==> #[trigger] pairs@[k].1 == occurrences(
                        full.take(i as int),
                        pairs@[k].0@,
                    ) && pairs@[k].1 >= 1,
                forall|k1: int, k2: int|
                    0 <= k1 < k2 < pairs@.len() ==> #[trigger] pairs@[k1].0@
                        != #[trigger] pairs@[k2].0@,
        {
            let ghost pre = full.take(i as int);
            let ghost cur = full.take(i as int + 1);
            let w = &list[i];
            proof {
                assert(pre.push(full[i as int]) =~= cur);
                assert(cur.drop_last() =~= pre);
                assert(cur.last() == full[i as int]);
                assert(full[i as int] == list@[i as int]@);
            }
            // look for the token among the pairs collected so far
            let mut j: usize = 0;
            let mut found = false;
            while j < pairs.len() && !found
                invariant
                    0 <= j <= pairs@.len(),
                    found ==> j < pairs@.len() && pairs@[j as int].0@ == w@,
                    !found ==> forall|k: int| 0 <= k < j ==> #[trigger] pairs@[k].0@ != w@,
                decreases pairs@.len() - j, (if found { 0int } else { 1int }),
            {
                if str_eq(pairs[j].0.as_str(), w.as_str()) {
                    found = true;
                } else {
                    j = j + 1;
                }
            }
            proof {
                let pviews = pairs@.map_values(|p: (String, usize)| p.0@);
                if found {
                    assert(pviews[j as int] == pairs@[j as int].0@);
                    assert(pre.contains(w@)) by {
                        lemma_firsts_contains(pre, w@);
                    }
                    assert(firsts(cur) == firsts(pre));
                } else {
                    assert forall|k: int| 0 <= k < pviews.len() implies #[trigger] pviews[k]
                        != w@ by {
                        assert(pviews[k] == pairs@[k].0@);
                    }
                    assert(!pviews.contains(w@));
                    assert(!pre.contains(w@)) by {
                        lemma_firsts_contains(pre, w@);
                        if pre.contains(w@) {
                            assert(firsts(pre).contains(w@));
                        }
                    }
                    assert(firsts(cur) == firsts(pre).push(w@));
                }
                // occurrence counts step by one exactly for this token
                assert forall|x: Seq<char>| true implies occurrences(cur, x) == occurrences(
                    pre,
                    x,
                ) + (if x == w@ {
                    1int
                } else {
                    0int
                }) by {
                    let pred = |t: Seq<char>| t == x;
                    assert(cur.drop_last() =~= pre);
                    reveal_with_fuel(Seq::filter, 2);
                    assert(cur.filter(pred) == if pred(cur.last()) {
                        pre.filter(pred).push(cur.last())
                    } else {
                        pre.filter(pred)
                    });
                }
            }
            if found {
                let ghost ppre = pairs@;
                let c = pairs[j].1;
                let wclone = pairs[j].0.clone();
                proof {
                    // the count stays within usize: it is bounded by the
                    // number of tokens seen so far
                    assert(ppre[j as int].1 == occurrences(pre, ppre[j as int].0@));
                    assert(occurrences(pre, w@) <= pre.len()) by {
                        pre.lemma_filter_len(|t: Seq<char>| t == w@);
                    }
                    assert(c < usize::MAX);
                }
                pairs.set(j, (wclone, c + 1));
                proof {
                    assert(pairs@ == ppre.update(j as int, (wclone, (c + 1) as usize)));
                    assert(wclone@ == w@);
                    assert(pairs@.map_values(|p: (String, usize)| p.0@) =~= firsts(cur)) by {
                        let lhs = pairs@.map_values(|p: (String, usize)| p.0@);
                        let prev = ppre.map_values(|p: (String, usize)| p.0@);
                        assert forall|k: int| 0 <= k < lhs.len() implies lhs[k] == prev[k] by {
                            assert(lhs[k] == pairs@[k].0@);
                            assert(prev[k] == ppre[k].0@);
                        }
                    }
                    assert forall|k: int| 0 <= k < pairs@.len() implies #[trigger] pairs@[k].1
                        == occurrences(cur, pairs@[k].0@) && pairs@[k].1 >= 1 by {
                        if k == j {
                            assert(pairs@[k].0@ == w@);
                            assert(occurrences(cur, w@) == occurrences(pre, w@) + 1);
                        } else {
                            assert(pairs@[k] == ppre[k]);
                            if k < j {
                                assert(ppre[k].0@ != ppre[j as int].0@);
                            } else {
                                assert(ppre[j as int].0@ != ppre[k].0@);
                            }
                            assert(pairs@[k].0@ != w@);
                        }
                    }
                    assert forall|k1: int, k2: int|
                        0 <= k1 < k2 < pairs@.len() implies #[trigger] pairs@[k1].0@
                        != #[trigger] pairs@[k2].0@ by {
                        assert(pairs@[k1].0@ == ppre[k1].0@);
                        assert(pairs@[k2].0@ == ppre[k2].0@);
                    }
                }
            } else {
                let ghost ppre = pairs@;
                pairs.push((w.clone(), 1));
                proof {
                    assert(pairs@.len() == ppre.len() + 1);
                    assert(pairs@[ppre.len() as int].0@ == w@);
                    assert(pairs@[ppre.len() as int].1 == 1);
                    assert(forall|k: int| 0 <= k < ppre.len() ==> pairs@[k] == ppre[k]);
                    assert(pairs@.map_values(|p: (String, usize)| p.0@) =~= firsts(cur)) by {
                        let lhs = pairs@.map_values(|p: (String, usize)| p.0@);
                        let prev = ppre.map_values(|p: (String, usize)| p.0@);
                        assert forall|k: int| 0 <= k < lhs.len() implies lhs[k] == firsts(
                            pre,
                        ).push(w@)[k] by {
                            assert(lhs[k] == pairs@[k].0@);
                            if k < ppre.len() {
                                assert(prev[k] == ppre[k].0@);
                            }
                        }
                    }
                    lemma_count_zero(pre, w@);
                    assert forall|k: int| 0 <= k < pairs@.len() implies #[trigger] pairs@[k].1
                        == occurrences(cur, pairs@[k].0@) && pairs@[k].1 >= 1 by {
                        if k < ppre.len() {
                            assert(pairs@[k] == ppre[k]);
                            assert(ppre.map_values(|p: (String, usize)| p.0@)[k] == ppre[k].0@);
                            assert(firsts(pre).contains(ppre[k].0@)) by {
                                assert(firsts(pre)[k] == ppre[k].0@);
                            }
                            assert(pre.contains(ppre[k].0@)) by {
                                lemma_firsts_contains(pre, ppre[k].0@);
                            }
                            assert(ppre[k].0@ != w@);
                        } else {
                            assert(pairs@[k].0@ == w@);
                            assert(occurrences(cur, w@) == 1);
                        }
                    }
                    assert forall|k1: int, k2: int|
                        0 <= k1 < k2 < pairs@.len() implies #[trigger] pairs@[k1].0@
                        != #[trigger] pairs@[k2].0@ by {
                        if k2 < ppre.len() {
                            assert(pairs@[k1] == ppre[k1] && pairs@[k2] == ppre[k2]);
                        } else {
                            assert(pairs@[k1] == ppre[k1]);
                            assert(pairs@[k2].0@ == w@);
                            assert(ppre.map_values(|p: (String, usize)| p.0@)[k1] == ppre[k1].0@);
                            assert(firsts(pre).contains(ppre[k1].0@)) by {
                                assert(firsts(pre)[k1] == ppre[k1].0@);
                            }
                            assert(pre.contains(ppre[k1].0@)) by {
                                lemma_firsts_contains(pre, ppre[k1].0@);
                            }
                        }
                    }
                }
            }
        }
        proof {
            assert(full.take(list@.len() as int) =~= full);
            assert(pairs@.map_values(|p: (String, usize)| pair_view(p)) =~= counted(full)) by {
                let lhs = pairs@.map_values(|p: (String, usize)| pair_view(p));
                assert(pairs@.map_values(|p: (String, usize)| p.0@).len() == pairs@.len());
                assert forall|k: int| 0 <= k < pairs@.len() implies lhs[k] == counted(full)[k] by {
                    assert(lhs[k] == pair_view(pairs@[k]));
                    assert(firsts(full)[k] == pairs@.map_values(|p: (String, usize)| p.0@)[k]);
                }
            }
        }
        let sorted = sort_pairs_desc(pairs);
        let mut out: Vec<String> = Vec::new();
        let ghost sview = sorted@.map_values(|p: (String, usize)| pair_view(p));
        for i in 0..sorted.len()
            invariant
                sview == sorted@.map_values(|p: (String, usize)| pair_view(p)),
                sview.len() == sorted@.len(),
                out@.map_values(|t: String| t@) == sview.take(i as int).map_values(
                    |p: (Seq<char>, usize)| p.0,
                ),
        {
            let word = sorted[i].0.clone();
            let ghost opre = out@;
            out.push(word);
            proof {
                assert(out@.map_values(|t: String| t@) =~= sview.take(i as int + 1).map_values(
                    |p: (Seq<char>, usize)| p.0,
                )) by {
                    let lhs = out@.map_values(|t: String| t@);
                    let rhs = sview.take(i as int + 1).map_values(|p: (Seq<char>, usize)| p.0);
                    let prev = opre.map_values(|t: String| t@);
                    assert(prev.len() == i);
                    assert(out@.len() == i + 1);
                    assert forall|k: int| 0 <= k < i + 1 implies lhs[k] == rhs[k] by {
                        assert(lhs[k] == out@[k]@);
                        assert(rhs[k] == sview.take(i as int + 1)[k].0);
                        if k < i {
                            assert(out@[k] == opre[k]);
                            assert(prev[k] == opre[k]@);
                            assert(prev[k] == sview.take(i as int).map_values(
                                |p: (Seq<char>, usize)| p.0,
                            )[k]);
                        } else {
                            assert(out@[k]@ == sorted@[i as int].0@);
                            assert(sview[i as int] == pair_view(sorted@[i as int]));
                        }
                    }
                }
            }
        }
        proof {
            assert(sview.take(sorted@.len() as int) =~= sview);
        }
        out
    }

    /// Tokenize `input`, canonicalize each token, keep the words the
    /// rule filter accepts, first occurrence first, without duplicates.
    /// With `reorder`, tokens are first reordered by frequency.
    pub fn lines(input: &str, reorder: bool) -> (r: Vec<String>)
        ensures
            r@.map_values(|t: String| t@) == lines_of(input@, reorder),
    {
        let toks = Parse::sort_popular(split_words(input, Sep::Any), reorder);
        let ghost ts = toks@.map_values(|t: String| t@);
        let mut cache = WordSet::new();
        let mut list: Vec<String> = Vec::new();
        proof {
            assert(ts.skip(0) =~= ts);
            assert(list@.map_values(|t: String| t@) =~= Seq::<Seq<char>>::empty());
        }
        for i in 0..toks.len()
            invariant
                ts == toks@.map_values(|t: String| t@),
                ts.len() == toks@.len(),
                lines_spec(ts, Set::empty()) == list@.map_values(|t: String| t@) + lines_spec(
                    ts.skip(i as int),
                    cache@,
                ),
        {
            let w = parse_word(toks[i].as_str());
            proof {
                assert(toks@[i as int]@ == ts[i as int]);
                assert(ts.skip(i as int)[0] == ts[i as int]);
                assert(ts.skip(i as int).drop_first() =~= ts.skip(i as int + 1));
            }
            let long_enough = !rule::is_min(w.as_str()) && !rule::is_max(w.as_str());
            if long_enough {
                let fresh = !cache.contains(w.as_str());
                if fresh && Str::valid_english(w.as_str()) {
                    proof {
                        let prev = list@.map_values(|t: String| t@);
                        assert(prev.push(w@) + lines_spec(ts.skip(i as int + 1), cache@.insert(w@))
                            =~= prev + (seq![w@] + lines_spec(
                            ts.skip(i as int + 1),
                            cache@.insert(w@),
                        )));
                        assert(list@.push(w).map_values(|t: String| t@) =~= prev.push(w@));
                    }
                    list.push(w.clone());
                    cache.insert(w);
                }
            }
        }
        proof {
            assert(ts.skip(ts.len() as int) =~= Seq::<Seq<char>>::empty());
            assert(list@.map_values(|t: String| t@) + Seq::<Seq<char>>::empty() =~= list@.map_values(
                |t: String| t@,
            ));
        }
        list
    }
}

/// The words of `off` that are absent from `on`, in order.
pub open spec fn missing_words(off: Seq<Seq<char>>, on: Seq<Seq<char>>) -> Seq<Seq<char>> {
    off.filter(|w: Seq<char>| !on.contains(w))
}

/// One filtering pass: candidate-list content, excluded-list content,
/// and the forbidden set built from both.
pub struct App {
    pub off_content: String,
    pub on_content: String,
    pub store: WordSet,
}

impl App {
    pub fn new(on_content: String, off_content: String) -> (r: App)
        ensures
            r.on_content@ == on_content@,
            r.off_content@ == off_content@,
            r.store@ == Set::<Seq<char>>::empty(),
    {
        App { on_content, off_content, store: WordSet::new() }
    }

    /// Rebuild the forbidden set as the union of the two lists' words.
    pub fn forbid(&mut self, vocabulary_list: &Vec<String>, off_list: &Vec<String>)
        ensures
            final(self).store@ == words_set(vocabulary_list@) + words_set(off_list@),
            final(self).on_content@ == old(self).on_content@,
            final(self).off_content@ == old(self).off_content@,
    {
        let store: WordSet = WordSet::new();
        self.store = Forbid::start(store, vocabulary_list, off_list);
        proof {
            assert(Set::<Seq<char>>::empty() + words_set(vocabulary_list@) + words_set(off_list@)
                =~= words_set(vocabulary_list@) + words_set(off_list@));
        }
    }

    /// Parse both lists, check that every excluded word occurs among the
    /// candidates (collecting every offender before failing), and return
    /// the candidate words that the forbidden set does not bar.
    pub fn start(
        &mut self,
        vocabulary_list: &Vec<String>,
        require_superset: bool,
        reorder: bool,
    ) -> (r: Result<Vec<String>, Vec<String>>)
        ensures
            ({
                let on_ws = lines_of(old(self).on_content@, reorder);
                let off_ws = lines_of(old(self).off_content@, reorder);
                &&& (r is Err <==> require_superset && missing_words(off_ws, on_ws).len() > 0)
                &&& (r matches Err(e) ==> e@.map_values(|t: String| t@) == missing_words(
                    off_ws,
                    on_ws,
                ))
                &&& final(self).store@ == words_set(vocabulary_list@) + Set::new(
                    |w: Seq<char>| off_ws.contains(w),
                )
                &&& (r matches Ok(list) ==> list@.map_values(|t: String| t@) == on_ws.filter(
                    |w: Seq<char>| !final(self).store@.contains(w),
                ))
            }),
    {
        let ghost on_ws = lines_of(self.on_content@, reorder);
        let ghost off_ws = lines_of(self.off_content@, reorder);
        let off_list = Parse::lines(self.off_content.as_str(), reorder);
        self.forbid(vocabulary_list, &off_list);
        proof {
            assert(words_set(off_list@) =~= Set::new(|w: Seq<char>| off_ws.contains(w))) by {
                assert forall|w: Seq<char>|
                    words_set(off_list@).contains(w) <==> off_ws.contains(w) by {
                    lemma_words_set_map(off_list@, w);
                }
            }
        }
        let data = Parse::lines(self.on_content.as_str(), reorder);
        if require_superset {
            let on_set = add_all(WordSet::new(), &data);
            proof {
                assert(on_set@ =~= words_set(data@));
            }
            let mut errors: Vec<String> = Vec::new();
            let ghost pred = |w: Seq<char>| !on_ws.contains(w);
            proof {
                assert(off_list@.take(0) =~= Seq::<String>::empty());
                assert(errors@.map_values(|t: String| t@) =~= Seq::<Seq<char>>::empty());
                assert(Seq::<String>::empty().map_values(|t: String| t@).filter(pred)
                    =~= Seq::<Seq<char>>::empty());
            }
            for i in 0..off_list.len()
                invariant
                    pred == (|w: Seq<char>| !on_ws.contains(w)),
                    on_set@ == words_set(data@),
                    data@.map_values(|t: String| t@) == on_ws,
                    off_list@.map_values(|t: String| t@) == off_ws,
                    errors@.map_values(|t: String| t@) == off_list@.take(i as int).map_values(
                        |t: String| t@,
                    ).filter(pred),
            {
                let w = &off_list[i];
                let absent = !on_set.contains(w.as_str());
                proof {
                    lemma_words_set_map(data@, w@);
                    assert(absent == pred(w@)) by {
                        assert(on_ws == data@.map_values(|t: String| t@));
                    }
                    let tv = off_list@.take(i as int).map_values(|t: String| t@);
                    let tv1 = off_list@.take(i as int + 1).map_values(|t: String| t@);
                    assert(tv1 =~= tv.push(w@)) by {
                        assert(off_list@.take(i as int + 1) =~= off_list@.take(i as int).push(
                            off_list@[i as int],
                        ));
                    }
                    lemma_filter_push_word(tv, w@, pred);
                }
                if absent {
                    let ghost epre = errors@;
                    errors.push(w.clone());
                    proof {
                        assert(errors@.map_values(|t: String| t@) =~= epre.map_values(
                            |t: String| t@,
                        ).push(w@));
                    }
                }
            }
            proof {
                assert(off_list@.take(off_list@.len() as int) =~= off_list@);
                assert(errors@.map_values(|t: String| t@) == missing_words(off_ws, on_ws));
            }
            if errors.len() > 0 {
                proof {
                    assert(missing_words(off_ws, on_ws).len() > 0);
                }
                return Err(errors);
            }
        }
        let mut out: Vec<String> = Vec::new();
        let ghost fpred = |w: Seq<char>| !self.store@.contains(w);
        proof {
            assert(data@.take(0) =~= Seq::<String>::empty());
            assert(Seq::<String>::empty().map_values(|t: String| t@).filter(fpred) =~= Seq::<
                Seq<char>,
            >::empty());
            assert(out@.map_values(|t: String| t@) =~= Seq::<Seq<char>>::empty());
        }
        for i in 0..data.len()
            invariant
                fpred == (|w: Seq<char>| !self.store@.contains(w)),
                data@.map_values(|t: String| t@) == on_ws,
                out@.map_values(|t: String| t@) == data@.take(i as int).map_values(
                    |t: String| t@,
                ).filter(fpred),
        {
            let w = &data[i];
            let barred = self.store.contains(w.as_str());
            proof {
                let tv = data@.take(i as int).map_values(|t: String| t@);
                assert(data@.take(i as int + 1).map_values(|t: String| t@) =~= tv.push(w@)) by {
                    assert(data@.take(i as int + 1) =~= data@.take(i as int).push(
                        data@[i as int],
                    ));
                }
                lemma_filter_push_word(tv, w@, fpred);
                assert(!barred == fpred(w@));
            }
            if !barred {
                let ghost opre = out@;
                out.push(w.clone());
                proof {
                    assert(out@.map_values(|t: String| t@) =~= opre.map_values(
                        |t: String| t@,
                    ).push(w@));
                }
            }
        }
        proof {
            assert(data@.take(data@.len() as int) =~= data@);
        }
        Ok(out)
    }
}

} // verus!
