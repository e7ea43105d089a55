//! The corpus concordance engine: index a corpus by canonical word,
//! locate occurrences, and stitch bounded context sentences around
//! them, ranked by frequency.

use vstd::prelude::*;
use vstd::pervasive::VecAdditionalExecFns;
use crate::imap::{im_get, im_get_index, im_has_key, im_len, im_new, im_seq};
use crate::order::{
    lemma_filter_push, lemma_filter_sub, lemma_sort_desc_membership, pair_view, sort_desc,
    sort_pairs_desc,
};
use crate::text::{valid_word, Str};
use crate::tokens::{dec_str, usize_dec};
use crate::voc::Writer;
use crate::wmap::WordMap;
use crate::parse::{firsts, lemma_firsts_contains, lemma_firsts_distinct};
use crate::text::normalize_spec;
use crate::text::parse_word;
use crate::text::{trim, trim_spec};
use crate::tokens::{join_sep, join_with, split_words, tokens_of, Sep};

verus! {

/// The slice of `ts` from `lo` to `hi`, clamped to valid bounds.
pub open spec fn window(ts: Seq<Seq<char>>, lo: int, hi: int) -> Seq<Seq<char>> {
    let lo2 = if lo < 0 {
        0
    } else {
        lo
    };
    let hi2 = if hi > ts.len() {
        ts.len() as int
    } else {
        hi
    };
    if lo2 <= hi2 {
        ts.subrange(lo2, hi2)
    } else {
        Seq::empty()
    }
}

/// The longest prefix of `ts` whose accumulated character count stays
/// within `budget`, counting from `used`.
pub open spec fn budget_take(ts: Seq<Seq<char>>, used: int, budget: int) -> Seq<Seq<char>>
    decreases ts.len(),
{
    if ts.len() == 0 {
        Seq::empty()
    } else if used + ts[0].len() > budget {
        Seq::empty()
    } else {
        seq![ts[0]] + budget_take(ts.drop_first(), used + ts[0].len(), budget)
    }
}

/// The right context string, greedily truncated to the character
/// budget: tokens are kept left to right while their accumulated
/// character count stays within the budget; separators are not counted.
pub open spec fn compose_sentence_spec(s: Seq<char>, budget: int) -> Seq<char> {
    join_sep(budget_take(tokens_of(s, Sep::Ascii), 0, budget), ' ')
}

/// A sequence of `usize` read as mathematical integers.
pub open spec fn to_ints(s: Seq<usize>) -> Seq<int> {
    s.map_values(|x: usize| x as int)
}

/// The normalization of every token of `ts`.
pub open spec fn norm_all(ts: Seq<Seq<char>>) -> Seq<Seq<char>> {
    ts.map_values(|t: Seq<char>| normalize_spec(t))
}

/// The canonical words among the tokens' normalizations, in token
/// order: a token whose normalization fails (empty, or not all
/// lowercase English letters) contributes nothing.
pub open spec fn valid_norms(ts: Seq<Seq<char>>) -> Seq<Seq<char>> {
    norm_all(ts).filter(|w: Seq<char>| valid_word(w))
}

/// The positions of `ts` whose token normalizes to `w`, ascending.
pub open spec fn occ_positions(ts: Seq<Seq<char>>, w: Seq<char>) -> Seq<int>
    decreases ts.len(),
{
    if ts.len() == 0 {
        Seq::empty()
    } else if normalize_spec(ts[ts.len() - 1]) == w {
        occ_positions(ts.drop_last(), w).push(ts.len() - 1)
    } else {
        occ_positions(ts.drop_last(), w)
    }
}

proof fn lemma_occ_empty(ts: Seq<Seq<char>>, w: Seq<char>)
    requires
        !norm_all(ts).contains(w),
    ensures
        occ_positions(ts, w) == Seq::<int>::empty(),
    decreases ts.len(),
{
    if ts.len() > 0 {
        assert(norm_all(ts)[ts.len() - 1] == normalize_spec(ts[ts.len() - 1]));
        assert(normalize_spec(ts[ts.len() - 1]) != w);
        assert(norm_all(ts.drop_last()) =~= norm_all(ts).drop_last());
        assert(!norm_all(ts.drop_last()).contains(w)) by {
            if norm_all(ts.drop_last()).contains(w) {
                let i = choose|i: int|
                    0 <= i < norm_all(ts.drop_last()).len() && norm_all(ts.drop_last())[i] == w;
                assert(norm_all(ts)[i] == w);
            }
        }
        lemma_occ_empty(ts.drop_last(), w);
    }
}

/// The corpus index: the raw token list, and for each distinct
/// canonical word (in first-encounter order) its occurrence positions.
pub struct Inner {
    pub store: indexmap::IndexMap<String, usize>,
    pub positions: Vec<Vec<usize>>,
    pub list: Vec<String>,
}

/// Well-formedness of a corpus index: the map's keys are exactly the
/// distinct valid canonical words of the token list, in first-encounter
/// order, the `k`-th sent to slot `k`; slot `k` holds exactly that
/// word's occurrence positions. A token whose normalization fails has
/// no entry.
pub open spec fn inner_wf(inner: &Inner) -> bool {
    let s = im_seq(inner.store);
    let ts = inner.list@.map_values(|t: String| t@);
    &&& s.len() == inner.positions@.len()
    &&& forall|k: int| 0 <= k < s.len() ==> (#[trigger] s[k]).1 == k
    &&& s.map_values(|p: (Seq<char>, usize)| p.0) == firsts(valid_norms(ts))
    &&& forall|k: int|
        0 <= k < s.len() ==> to_ints(inner.positions@[k]@) == occ_positions(
            ts,
            (#[trigger] s[k]).0,
        )
}

/// Tokenize the corpus and build the word-to-positions index: position
/// `i` is recorded under the canonical form of token `i` when that form
/// is a valid word; a token whose normalization fails contributes no
/// index entry.
pub fn parse_content(content: String) -> (r: Inner)
    ensures
        inner_wf(&r),
        r.list@.map_values(|t: String| t@) == tokens_of(content@, Sep::Any),
{
    let list = split_words(content.as_str(), Sep::Any);
    let mut store = im_new();
    let mut positions: Vec<Vec<usize>> = Vec::new();
    let ghost ts = list@.map_values(|t: String| t@);
    proof {
        assert(ts.take(0) =~= Seq::<Seq<char>>::empty());
        assert(norm_all(ts.take(0)) =~= Seq::<Seq<char>>::empty());
        assert(valid_norms(ts.take(0)) =~= Seq::<Seq<char>>::empty());
        assert(im_seq(store).map_values(|p: (Seq<char>, usize)| p.0) =~= firsts(
            valid_norms(ts.take(0)),
        ));
    }
    for i in 0..list.len()
        invariant
            ts == list@.map_values(|t: String| t@),
            ts.len() == list@.len(),
            im_seq(store).len() == positions@.len(),
            forall|k: int| 0 <= k < im_seq(store).len() ==> (#[trigger] im_seq(store)[k]).1 == k,
            im_seq(store).map_values(|p: (Seq<char>, usize)| p.0) == firsts(
                valid_norms(ts.take(i as int)),
            ),
            forall|k: int|
                0 <= k < im_seq(store).len() ==> to_ints(positions@[k]@) == occ_positions(
                    ts.take(i as int),
                    (#[trigger] im_seq(store)[k]).0,
                ),
    {
        let w = parse_word(list[i].as_str());
        let ghost pre = ts.take(i as int);
        let ghost cur = ts.take(i as int + 1);
        proof {
            assert(cur.drop_last() =~= pre);
            assert(cur[cur.len() - 1] == ts[i as int]);
            assert(ts[i as int] == list@[i as int]@);
            assert(w@ == normalize_spec(ts[i as int]));
            assert(norm_all(cur) =~= norm_all(pre).push(w@)) by {
                assert(norm_all(cur).len() == i + 1);
                assert(forall|k: int| 0 <= k < i + 1 ==> #[trigger] norm_all(cur)[k]
                    == normalize_spec(cur[k]));
                assert(forall|k: int| 0 <= k < i ==> #[trigger] norm_all(pre)[k] == normalize_spec(
                    pre[k],
                ));
            }
            assert(norm_all(cur).drop_last() =~= norm_all(pre));
            // the valid canonical words grow by the new token's form
            // exactly when it is valid
            lemma_filter_push(norm_all(pre), w@, |x: Seq<char>| valid_word(x));
            assert(valid_norms(cur) == (if valid_word(w@) {
                valid_norms(pre).push(w@)
            } else {
                valid_norms(pre)
            }));
            // each word's occurrence list grows by `i` exactly when the
            // new token normalizes to it
            assert forall|x: Seq<char>| true implies occ_positions(cur, x) == (if x == w@ {
                occ_positions(pre, x).push(i as int)
            } else {
                occ_positions(pre, x)
            }) by {
                assert(normalize_spec(cur[cur.len() - 1]) == w@);
            }
            // every stored key is a valid word
            assert forall|k: int|
                0 <= k < im_seq(store).len() implies valid_word(
                (#[trigger] im_seq(store)[k]).0,
            ) by {
                let s = im_seq(store);
                let f = s.map_values(|p: (Seq<char>, usize)| p.0);
                assert(f[k] == s[k].0);
                assert(firsts(valid_norms(pre)).contains(s[k].0)) by {
                    assert(firsts(valid_norms(pre))[k] == s[k].0);
                }
                lemma_firsts_contains(valid_norms(pre), s[k].0);
                let j = choose|j: int|
                    0 <= j < valid_norms(pre).len() && #[trigger] valid_norms(pre)[j] == s[k].0;
                norm_all(pre).lemma_filter_pred(|x: Seq<char>| valid_word(x), j);
            }
        }
        if !Str::valid_english(w.as_str()) {
            // a failed normalization contributes no index entry
            proof {
                assert(firsts(valid_norms(cur)) == firsts(valid_norms(pre)));
                let s = im_seq(store);
                assert forall|k: int| 0 <= k < s.len() implies to_ints(positions@[k]@)
                    == occ_positions(cur, (#[trigger] s[k]).0) by {
                    assert(valid_word(s[k].0));
                    assert(s[k].0 != w@);
                }
            }
        } else {
        let looked = im_get(&store, w.as_str());
        match looked {
            Some(slot) => {
                proof {
                    let s = im_seq(store);
                    let si = choose|si: int|
                        0 <= si < s.len() && (#[trigger] s[si]).0 == w@ && s[si].1 == slot;
                    assert(s[si].1 == si);
                    assert(slot == si);
                    assert(s[slot as int].0 == w@);
                    // the canonical word was seen before: the word table
                    // keeps its shape
                    assert(firsts(valid_norms(pre)).contains(w@)) by {
                        assert(s.map_values(|p: (Seq<char>, usize)| p.0)[slot as int] == w@);
                    }
                    lemma_firsts_contains(valid_norms(pre), w@);
                    assert(valid_norms(cur).drop_last() =~= valid_norms(pre));
                    assert(valid_norms(cur).last() == w@);
                    assert(valid_norms(cur).drop_last().contains(valid_norms(cur).last()));
                    assert(firsts(valid_norms(cur)) == firsts(valid_norms(pre)));
                    lemma_firsts_distinct(valid_norms(pre));
                }
                let mut lst = positions[slot].clone();
                lst.push(i);
                let ghost ppre = positions@;
                positions.set(slot, lst);
                proof {
                    let s = im_seq(store);
                    assert forall|k: int| 0 <= k < s.len() implies to_ints(positions@[k]@)
                        == occ_positions(cur, (#[trigger] s[k]).0) by {
                        if k == slot {
                            assert(to_ints(positions@[k]@) =~= to_ints(ppre[k]@).push(i as int));
                        } else {
                            assert(positions@[k] == ppre[k]);
                            let f = s.map_values(|p: (Seq<char>, usize)| p.0);
                            assert(f[k] == s[k].0 && f[slot as int] == s[slot as int].0);
                            assert(s[k].0 != w@);
                        }
                    }
                }
            },
            None => {
                proof {
                    let s = im_seq(store);
                    assert(!crate::imap::im_has_key(s, w@));
                    assert(!firsts(valid_norms(pre)).contains(w@)) by {
                        let f = s.map_values(|p: (Seq<char>, usize)| p.0);
                        if firsts(valid_norms(pre)).contains(w@) {
                            let k = choose|k: int| 0 <= k < f.len() && #[trigger] f[k] == w@;
                            assert(s[k].0 == w@);
                        }
                    }
                    lemma_firsts_contains(valid_norms(pre), w@);
                    assert(valid_norms(cur).drop_last() =~= valid_norms(pre));
                    assert(valid_norms(cur).last() == w@);
                    assert(!valid_norms(cur).drop_last().contains(valid_norms(cur).last()));
                    assert(firsts(valid_norms(cur)) == firsts(valid_norms(pre)).push(w@));
                    // the word never occurred before: its normalization is
                    // valid, so an earlier occurrence would be recorded
                    assert(!norm_all(pre).contains(w@)) by {
                        if norm_all(pre).contains(w@) {
                            let j = choose|j: int|
                                0 <= j < norm_all(pre).len() && #[trigger] norm_all(pre)[j]
                                    == w@;
                            norm_all(pre).lemma_filter_contains(
                                |x: Seq<char>| valid_word(x),
                                j,
                            );
                            assert(valid_norms(pre).contains(w@));
                        }
                    }
                    lemma_occ_empty(pre, w@);
                }
                let slot = positions.len();
                let mut lst: Vec<usize> = Vec::new();
                lst.push(i);
                positions.push(lst);
                let ghost spre = im_seq(store);
                crate::imap::im_insert(&mut store, w, slot);
                proof {
                    let s = im_seq(store);
                    assert(s == spre.push((normalize_spec(ts[i as int]), slot)));
                    assert(s.map_values(|p: (Seq<char>, usize)| p.0) =~= firsts(
                        valid_norms(cur),
                    )) by {
                        let f = s.map_values(|p: (Seq<char>, usize)| p.0);
                        let fp = spre.map_values(|p: (Seq<char>, usize)| p.0);
                        assert forall|k: int| 0 <= k < f.len() implies f[k] == firsts(
                            valid_norms(cur),
                        )[k] by {
                            if k < spre.len() {
                                assert(f[k] == s[k].0 && s[k] == spre[k]);
                                assert(fp[k] == spre[k].0);
                            }
                        }
                    }
                    assert forall|k: int| 0 <= k < s.len() implies to_ints(positions@[k]@)
                        == occ_positions(cur, (#[trigger] s[k]).0) by {
                        if k == slot {
                            assert(s[k].0 == w@);
                            assert(occ_positions(cur, w@) == occ_positions(pre, w@).push(
                                i as int,
                            ));
                            assert(to_ints(positions@[k]@) =~= Seq::<int>::empty().push(i as int));
                        } else {
                            assert(s[k] == spre[k]);
                            assert(spre[k].0 != w@);
                        }
                    }
                }
            },
        }
        }
    }
    proof {
        assert(ts.take(ts.len() as int) =~= ts);
    }
    Inner { store, positions, list }
}

/// Copy `list[from..to]` (given valid bounds) into a fresh vector.
fn slice_tokens(list: &Vec<String>, from: usize, to: usize) -> (r: Vec<String>)
    requires
        from <= to <= list@.len(),
    ensures
        r@.map_values(|t: String| t@) == list@.map_values(|t: String| t@).subrange(
            from as int,
            to as int,
        ),
{
    let mut out: Vec<String> = Vec::new();
    let ghost full = list@.map_values(|t: String| t@);
    proof {
        assert(out@.map_values(|t: String| t@) =~= full.subrange(from as int, from as int));
    }
    for k in from..to
        invariant
            from <= k <= to <= list@.len(),
            full == list@.map_values(|t: String| t@),
            full.len() == list@.len(),
            out@.map_values(|t: String| t@) == full.subrange(from as int, k as int),
    {
        let ghost opre = out@;
        out.push(list[k].clone());
        proof {
            assert(out@.map_values(|t: String| t@) =~= full.subrange(from as int, k as int + 1))
                by {
                let lhs = out@.map_values(|t: String| t@);
                assert(opre.map_values(|t: String| t@).len() == k - from);
                assert(out@.len() == opre.len() + 1);
                assert(lhs.len() == k + 1 - from);
                assert forall|m: int| 0 <= m < k + 1 - from implies #[trigger] lhs[m] == full[from
                    + m] by {
                    assert(lhs[m] == out@[m]@);
                    if m < k - from {
                        assert(out@[m] == opre[m]);
                        assert(opre.map_values(|t: String| t@)[m] == full.subrange(
                            from as int,
                            k as int,
                        )[m]);
                    } else {
                        assert(out@[m]@ == list@[k as int]@);
                    }
                }
            }
        }
    }
    out
}

/// Join tokens with single spaces.
fn join_space(list: &Vec<String>) -> (r: String)
    ensures
        r@ == join_sep(list@.map_values(|t: String| t@), ' '),
{
    proof {
        reveal_strlit(" ");
        assert(" "@ =~= seq![' ']);
    }
    join_with(list, " ")
}

/// The left context: up to `count` tokens strictly before `end_at`,
/// space-joined. An anchor at the very start yields an empty context.
pub fn get_sentence_start(list: &Vec<String>, end_at: usize, count: usize) -> (r: String)
    requires
        end_at <= list@.len(),
    ensures
        r@ == join_sep(
            window(list@.map_values(|t: String| t@), end_at - count, end_at as int),
            ' ',
        ),
{
    let from: usize = if end_at > count {
        end_at - count
    } else {
        0
    };
    let sub = slice_tokens(list, from, end_at);
    proof {
        assert(list@.map_values(|t: String| t@).subrange(from as int, end_at as int) =~= window(
            list@.map_values(|t: String| t@),
            end_at - count,
            end_at as int,
        ));
    }
    join_space(&sub)
}

/// The raw right context: up to `count` tokens at and after `index_at`,
/// space-joined. An anchor past the end yields an empty context.
pub fn get_sentence_end(list: &Vec<String>, index_at: usize, count: usize) -> (r: String)
    ensures
        r@ == join_sep(
            window(list@.map_values(|t: String| t@), index_at as int, index_at + count),
            ' ',
        ),
{
    let n = list.len();
    if index_at >= n {
        proof {
            assert(window(list@.map_values(|t: String| t@), index_at as int, index_at + count)
                =~= Seq::<Seq<char>>::empty());
        }
        return String::new();
    }
    let to: usize = if count > n - index_at {
        n
    } else {
        index_at + count
    };
    let sub = slice_tokens(list, index_at, to);
    proof {
        assert(list@.map_values(|t: String| t@).subrange(index_at as int, to as int) =~= window(
            list@.map_values(|t: String| t@),
            index_at as int,
            index_at + count,
        ));
    }
    join_space(&sub)
}

/// Greedily truncate `content` to the character budget: its tokens are
/// kept left to right while their accumulated character count stays
/// within `budget`; separators do not count toward the budget.
pub fn compose_sentence(content: &str, budget: usize) -> (r: String)
    ensures
        r@ == compose_sentence_spec(content@, budget as int),
{
    let toks = split_words(content, Sep::Ascii);
    let ghost ts = toks@.map_values(|t: String| t@);
    let mut kept: Vec<String> = Vec::new();
    let mut used: usize = 0;
    let mut i: usize = 0;
    let mut done = false;
    proof {
        assert(ts.skip(0) =~= ts);
        assert(kept@.map_values(|t: String| t@) =~= Seq::<Seq<char>>::empty());
    }
    while i < toks.len() && !done
        invariant
            0 <= i <= toks@.len(),
            ts == toks@.map_values(|t: String| t@),
            ts.len() == toks@.len(),
            used <= budget,
            budget_take(ts, 0, budget as int) == kept@.map_values(|t: String| t@) + budget_take(
                ts.skip(i as int),
                used as int,
                budget as int,
            ),
            done ==> budget_take(ts.skip(i as int), used as int, budget as int) == Seq::<
                Seq<char>,
            >::empty(),
        decreases
                toks@.len() - i,
                (if done {
                    0int
                } else {
                    1int
                }),
    {
        let tl = toks[i].as_str().unicode_len();
        proof {
            assert(ts.skip(i as int)[0] == ts[i as int]);
            assert(ts[i as int] == toks@[i as int]@);
        }
        if tl > budget - used {
            proof {
                assert(budget_take(ts.skip(i as int), used as int, budget as int) =~= Seq::<
                    Seq<char>,
                >::empty());
            }
            done = true;
            continue ;
        }
        proof {
            assert(ts.skip(i as int).drop_first() =~= ts.skip(i as int + 1));
            let prev = kept@.map_values(|t: String| t@);
            assert(prev + (seq![ts[i as int]] + budget_take(
                ts.skip(i as int + 1),
                used + tl,
                budget as int,
            )) =~= prev.push(ts[i as int]) + budget_take(
                ts.skip(i as int + 1),
                used + tl,
                budget as int,
            ));
            assert(kept@.push(toks@[i as int]).map_values(|t: String| t@) =~= prev.push(
                ts[i as int],
            ));
        }
        kept.push(toks[i].clone());
        used = used + tl;
        i = i + 1;
    }
    proof {
        if !done {
            assert(ts.skip(i as int) =~= Seq::<Seq<char>>::empty());
        }
        assert(kept@.map_values(|t: String| t@) + Seq::<Seq<char>>::empty() =~= kept@.map_values(
            |t: String| t@,
        ));
    }
    join_space(&kept)
}

/// One example sentence around the occurrence at `index`: the left
/// context, a comma, the word itself, and the budget-truncated right
/// context, ending in a newline.
pub open spec fn sentence_spec(
    ts: Seq<Seq<char>>,
    index: int,
    left: int,
    right: int,
    budget: int,
) -> Seq<char> {
    join_sep(window(ts, index - left, index), ' ') + seq![',', ' '] + ts[index] + seq![' ']
        + compose_sentence_spec(join_sep(window(ts, index + 1, index + 1 + right), ' '), budget)
        + seq![' ', '\n']
}

/// Build one example sentence around the occurrence at `index`; an
/// out-of-range position yields the empty string.
pub fn stitch_words_sentences(
    index: usize,
    list: &Vec<String>,
    left: usize,
    right: usize,
    budget: usize,
) -> (r: String)
    ensures
        r@ == (if index < list@.len() {
            sentence_spec(
                list@.map_values(|t: String| t@),
                index as int,
                left as int,
                right as int,
                budget as int,
            )
        } else {
            Seq::<char>::empty()
        }),
{
    let n = list.len();
    if index >= n {
        return String::new();
    }
    let left_s = get_sentence_start(list, index, left);
    let right_raw = get_sentence_end(list, index + 1, right);
    let right_s = compose_sentence(right_raw.as_str(), budget);
    proof {
        reveal_strlit(", ");
        reveal_strlit(" ");
        reveal_strlit(" \n");
        assert(", "@ =~= seq![',', ' ']);
        assert(" "@ =~= seq![' ']);
        assert(" \n"@ =~= seq![' ', '\n']);
    }
    let mut out = left_s;
    out.append(", ");
    out.append(list[index].as_str());
    out.append(" ");
    out.append(right_s.as_str());
    out.append(" \n");
    proof {
        assert(out@ =~= sentence_spec(
            list@.map_values(|t: String| t@),
            index as int,
            left as int,
            right as int,
            budget as int,
        ));
    }
    out
}

/// The concatenation of the example sentences for the first `n`
/// occurrence positions.
pub open spec fn sentences_concat(
    ts: Seq<Seq<char>>,
    poss: Seq<int>,
    n: int,
    left: int,
    right: int,
    budget: int,
) -> Seq<char>
    decreases n,
{
    if n <= 0 {
        Seq::empty()
    } else {
        sentences_concat(ts, poss, n - 1, left, right, budget) + sentence_spec(
            ts,
            poss[n - 1],
            left,
            right,
            budget,
        )
    }
}

/// The display block for one word: its first `k` occurrence sentences,
/// concatenated, trimmed, with one trailing newline.
pub open spec fn block_spec(
    ts: Seq<Seq<char>>,
    poss: Seq<int>,
    k: int,
    left: int,
    right: int,
    budget: int,
) -> Seq<char> {
    let n = if k < poss.len() {
        k
    } else {
        poss.len() as int
    };
    trim_spec(sentences_concat(ts, poss, n, left, right, budget)) + seq!['\n']
}

/// Stitch the first `k` occurrences of a word into its display block.
pub fn stitch_block(
    list: &Vec<String>,
    poss: &Vec<usize>,
    k: usize,
    left: usize,
    right: usize,
    budget: usize,
) -> (r: String)
    requires
        forall|m: int| 0 <= m < poss@.len() ==> (#[trigger] poss@[m]) < list@.len(),
    ensures
        r@ == block_spec(
            list@.map_values(|t: String| t@),
            to_ints(poss@),
            k as int,
            left as int,
            right as int,
            budget as int,
        ),
{
    let n: usize = if k < poss.len() {
        k
    } else {
        poss.len()
    };
    let ghost ts = list@.map_values(|t: String| t@);
    let ghost ps = to_ints(poss@);
    let mut acc = String::new();
    for j in 0..n
        invariant
            n <= poss@.len(),
            ts == list@.map_values(|t: String| t@),
            ps == to_ints(poss@),
            ps.len() == poss@.len(),
            ts.len() == list@.len(),
            forall|m: int| 0 <= m < poss@.len() ==> (#[trigger] poss@[m]) < list@.len(),
            acc@ == sentences_concat(
                ts,
                ps,
                j as int,
                left as int,
                right as int,
                budget as int,
            ),
    {
        let s = stitch_words_sentences(poss[j], list, left, right, budget);
        proof {
            assert(ps[j as int] == poss@[j as int] as int);
        }
        acc.append(s.as_str());
    }
    let trimmed_ref = trim(acc.as_str());
    let mut out = trimmed_ref.to_owned();
    proof {
        reveal_strlit("\n");
        assert("\n"@ =~= seq!['\n']);
    }
    out.append("\n");
    out
}

/// The words of a word-list file: its newline-separated entries,
/// trimmed, empties dropped.
pub open spec fn file_words(s: Seq<char>) -> Seq<Seq<char>> {
    tokens_of(s, Sep::Line).map_values(|t: Seq<char>| trim_spec(t)).filter(
        |t: Seq<char>| t.len() > 0,
    )
}

/// Read the entries of a word-list file: one per line, trimmed, empty
/// lines dropped.
pub fn get_content_single_file(content: &str) -> (r: Vec<String>)
    ensures
        r@.map_values(|t: String| t@) == file_words(content@),
{
    let raw = split_words(content, Sep::Line);
    let ghost rs = raw@.map_values(|t: String| t@);
    let mut out: Vec<String> = Vec::new();
    proof {
        assert(rs.take(0) =~= Seq::<Seq<char>>::empty());
        assert(rs.take(0).map_values(|t: Seq<char>| trim_spec(t)).filter(
            |t: Seq<char>| t.len() > 0,
        ) =~= Seq::<Seq<char>>::empty());
        assert(out@.map_values(|t: String| t@) =~= Seq::<Seq<char>>::empty());
    }
    for i in 0..raw.len()
        invariant
            rs == raw@.map_values(|t: String| t@),
            rs.len() == raw@.len(),
            out@.map_values(|t: String| t@) == rs.take(i as int).map_values(
                |t: Seq<char>| trim_spec(t),
            ).filter(|t: Seq<char>| t.len() > 0),
    {
        let t = trim(raw[i].as_str());
        proof {
            let mpre = rs.take(i as int).map_values(|t: Seq<char>| trim_spec(t));
            let mcur = rs.take(i as int + 1).map_values(|t: Seq<char>| trim_spec(t));
            assert(rs[i as int] == raw@[i as int]@);
            assert(mcur =~= mpre.push(trim_spec(rs[i as int]))) by {
                assert(rs.take(i as int + 1) =~= rs.take(i as int).push(rs[i as int]));
            }
            lemma_filter_push(mpre, trim_spec(rs[i as int]), |t: Seq<char>| t.len() > 0);
        }
        if t.unicode_len() > 0 {
            let ghost opre = out@;
            out.push(t.to_owned());
            proof {
                assert(out@.map_values(|t: String| t@) =~= opre.map_values(|t: String| t@).push(
                    trim_spec(rs[i as int]),
                ));
            }
        }
    }
    proof {
        assert(rs.take(rs.len() as int) =~= rs);
    }
    out
}

/// The corpus text: the source documents joined by single spaces, in
/// listing order.
pub fn build_corpus(docs: &Vec<String>) -> (r: String)
    ensures
        r@ == join_sep(docs@.map_values(|t: String| t@), ' '),
{
    proof {
        reveal_strlit(" ");
        assert(" "@ =~= seq![' ']);
    }
    join_with(docs, " ")
}

/// The ranking entries of the whole corpus: each distinct canonical
/// word that is a valid English word of more than one letter, paired
/// with its occurrence count, in first-encounter order.
pub open spec fn pop_entries(ts: Seq<Seq<char>>) -> Seq<(Seq<char>, usize)> {
    firsts(valid_norms(ts)).map_values(
        |w: Seq<char>| (w, occ_positions(ts, w).len() as usize),
    ).filter(|q: (Seq<char>, usize)| valid_word(q.0) && q.0.len() > 1)
}

/// The ranking entries for a given word list: each listed word that the
/// corpus index knows, paired with its occurrence count, in list order.
pub open spec fn file_entries(ts: Seq<Seq<char>>, ws: Seq<Seq<char>>) -> Seq<(Seq<char>, usize)> {
    ws.map_values(|w: Seq<char>| (w, occ_positions(ts, w).len() as usize)).filter(
        |q: (Seq<char>, usize)| firsts(valid_norms(ts)).contains(q.0),
    )
}

/// Look up each ranked word's occurrence positions.
fn attach_positions(inner: &Inner, sorted: Vec<(String, usize)>) -> (r: Vec<(String, Vec<usize>)>)
    requires
        inner_wf(inner),
        forall|k: int|
            0 <= k < sorted@.len() ==> im_has_key(
                im_seq(inner.store),
                (#[trigger] sorted@[k]).0@,
            ),
    ensures
        r@.len() == sorted@.len(),
        forall|k: int|
            0 <= k < r@.len() ==> (#[trigger] r@[k]).0@ == sorted@[k].0@ && to_ints(r@[k].1@)
                == occ_positions(inner.list@.map_values(|t: String| t@), sorted@[k].0@),
{
    let mut out: Vec<(String, Vec<usize>)> = Vec::new();
    let ghost ts = inner.list@.map_values(|t: String| t@);
    for k in 0..sorted.len()
        invariant
            inner_wf(inner),
            ts == inner.list@.map_values(|t: String| t@),
            forall|m: int|
                0 <= m < sorted@.len() ==> im_has_key(
                    im_seq(inner.store),
                    (#[trigger] sorted@[m]).0@,
                ),
            out@.len() == k,
            forall|m: int|
                0 <= m < k ==> (#[trigger] out@[m]).0@ == sorted@[m].0@ && to_ints(out@[m].1@)
                    == occ_positions(ts, sorted@[m].0@),
    {
        let w = sorted[k].0.clone();
        let looked = im_get(&inner.store, w.as_str());
        proof {
            let s = im_seq(inner.store);
            assert(im_has_key(s, sorted@[k as int].0@));
            assert(w@ == sorted@[k as int].0@);
            if looked is None {
                let si = choose|si: int| 0 <= si < s.len() && (#[trigger] s[si]).0 == w@;
                assert(s[si].0 == w@);
                assert(false);
            }
        }
        let slot = looked.unwrap();
        proof {
            let s = im_seq(inner.store);
            let si = choose|si: int|
                0 <= si < s.len() && (#[trigger] s[si]).0 == w@ && s[si].1 == slot;
            assert(s[si].1 == si);
            assert(s[slot as int].0 == w@);
        }
        out.push((w, inner.positions[slot].clone()));
    }
    out
}

/// The popularity ranking over the whole corpus: valid English words of
/// more than one letter, ordered by descending occurrence count, ties
/// in first-encounter order, each with its occurrence positions.
pub fn get_popularity_sort(inner: &Inner) -> (r: Vec<(String, Vec<usize>)>)
    requires
        inner_wf(inner),
    ensures
        r@.map_values(|p: (String, Vec<usize>)| (p.0@, p.1@.len() as usize)) == sort_desc(
            pop_entries(inner.list@.map_values(|t: String| t@)),
        ),
        forall|k: int|
            0 <= k < r@.len() ==> to_ints((#[trigger] r@[k]).1@) == occ_positions(
                inner.list@.map_values(|t: String| t@),
                r@[k].0@,
            ),
{
    let ghost ts = inner.list@.map_values(|t: String| t@);
    let ghost s = im_seq(inner.store);
    let ghost entry_of = |w: Seq<char>| (w, occ_positions(ts, w).len() as usize);
    let ghost pred = |q: (Seq<char>, usize)| valid_word(q.0) && q.0.len() > 1;
    let n = im_len(&inner.store);
    let mut pairs: Vec<(String, usize)> = Vec::new();
    proof {
        let mapped = firsts(valid_norms(ts)).map_values(entry_of);
        assert(mapped.take(0) =~= Seq::<(Seq<char>, usize)>::empty());
        assert(mapped.take(0).filter(pred) =~= Seq::<(Seq<char>, usize)>::empty());
        assert(pairs@.map_values(|p: (String, usize)| pair_view(p)) =~= Seq::<
            (Seq<char>, usize),
        >::empty());
    }
    for k in 0..n
        invariant
            inner_wf(inner),
            ts == inner.list@.map_values(|t: String| t@),
            s == im_seq(inner.store),
            n == s.len(),
            entry_of == (|w: Seq<char>| (w, occ_positions(ts, w).len() as usize)),
            pred == (|q: (Seq<char>, usize)| valid_word(q.0) && q.0.len() > 1),
            pairs@.map_values(|p: (String, usize)| pair_view(p)) == firsts(
                valid_norms(ts),
            ).map_values(entry_of).take(k as int).filter(pred),
            forall|m: int|
                0 <= m < pairs@.len() ==> im_has_key(s, (#[trigger] pairs@[m]).0@),
    {
        let p = im_get_index(&inner.store, k).unwrap();
        let cnt = inner.positions[p.1].len();
        proof {
            assert(s[k as int].1 == k);
            assert(p.1 == k);
            assert(s.map_values(|q: (Seq<char>, usize)| q.0)[k as int] == s[k as int].0);
            assert(firsts(valid_norms(ts))[k as int] == s[k as int].0);
            assert(p.0@ == firsts(valid_norms(ts))[k as int]);
            assert(to_ints(inner.positions@[k as int]@) == occ_positions(ts, s[k as int].0));
            assert(cnt == occ_positions(ts, s[k as int].0).len());
            let mapped = firsts(valid_norms(ts)).map_values(entry_of);
            assert(mapped.take(k as int + 1) =~= mapped.take(k as int).push(
                mapped[k as int],
            ));
            assert(mapped[k as int] == entry_of(firsts(valid_norms(ts))[k as int]));
            lemma_filter_push(mapped.take(k as int), mapped[k as int], pred);
        }
        let keep = Str::valid_english(p.0.as_str()) && p.0.as_str().unicode_len() > 1;
        if keep {
            let ghost ppre = pairs@;
            pairs.push((p.0, cnt));
            proof {
                assert(pairs@.map_values(|q: (String, usize)| pair_view(q)) =~= ppre.map_values(
                    |q: (String, usize)| pair_view(q),
                ).push((s[k as int].0, cnt)));
                assert(im_has_key(s, s[k as int].0)) by {
                    assert((s[k as int]).0 == s[k as int].0);
                }
                assert forall|m: int| 0 <= m < pairs@.len() implies im_has_key(
                    s,
                    (#[trigger] pairs@[m]).0@,
                ) by {
                    if m < ppre.len() {
                        assert(pairs@[m] == ppre[m]);
                    } else {
                        assert(pairs@[m].0@ == s[k as int].0);
                    }
                }
            }
        }
    }
    proof {
        let mapped = firsts(valid_norms(ts)).map_values(entry_of);
        assert(mapped.take(mapped.len() as int) =~= mapped);
        assert(pairs@.map_values(|p: (String, usize)| pair_view(p)) == pop_entries(ts));
    }
    let sorted = sort_pairs_desc(pairs);
    proof {
        let sview = sorted@.map_values(|p: (String, usize)| pair_view(p));
        lemma_sort_desc_membership(pop_entries(ts));
        lemma_filter_sub(
            firsts(valid_norms(ts)).map_values(entry_of),
            pred,
        );
        assert forall|k: int| 0 <= k < sorted@.len() implies im_has_key(
            s,
            (#[trigger] sorted@[k]).0@,
        ) && sorted@[k].1 == occ_positions(ts, sorted@[k].0@).len() as usize by {
            assert(sview[k] == pair_view(sorted@[k]));
            assert(pop_entries(ts).contains(sview[k]));
            let j = choose|j: int|
                0 <= j < pop_entries(ts).len() && #[trigger] pop_entries(ts)[j] == sview[k];
            let mapped = firsts(valid_norms(ts)).map_values(entry_of);
            assert(mapped.contains(pop_entries(ts)[j]));
            let m = choose|m: int| 0 <= m < mapped.len() && #[trigger] mapped[m] == sview[k];
            assert(mapped[m] == entry_of(firsts(valid_norms(ts))[m]));
            assert(sview[k].0 == firsts(valid_norms(ts))[m]);
            assert(s.map_values(|q: (Seq<char>, usize)| q.0)[m] == s[m].0);
            assert(s[m].0 == sview[k].0);
        }
    }
    let out = attach_positions(inner, sorted);
    proof {
        let sview = sorted@.map_values(|p: (String, usize)| pair_view(p));
        assert(out@.map_values(|p: (String, Vec<usize>)| (p.0@, p.1@.len() as usize))
            =~= sview);
    }
    out
}

/// The popularity ranking is ordered by descending occurrence count,
/// and words with equal counts keep their first-encounter order.
pub proof fn lemma_popularity_rank_law(ts: Seq<Seq<char>>, c: usize)
    ensures
        crate::order::sorted_desc(sort_desc(pop_entries(ts))),
        crate::order::with_count(sort_desc(pop_entries(ts)), c) == crate::order::with_count(
            pop_entries(ts),
            c,
        ),
{
    crate::order::lemma_sort_desc_sorted(pop_entries(ts));
    crate::order::lemma_sort_desc_stable(pop_entries(ts), c);
}

/// The occurrence count that a count-carrying store knows for `w`:
/// zero for an unknown word.
pub open spec fn count_of(store: Map<Seq<char>, (usize, Seq<char>)>, w: Seq<char>) -> usize {
    if store.dom().contains(w) {
        store[w].0
    } else {
        0
    }
}

/// The words paired with their stored counts, in list order.
pub open spec fn count_pairs(ws: Seq<Seq<char>>, store: Map<Seq<char>, (usize, Seq<char>)>) -> Seq<
    (Seq<char>, usize),
> {
    ws.map_values(|w: Seq<char>| (w, count_of(store, w)))
}

/// Order `list` by descending stored occurrence count; words with equal
/// counts (unknown words count zero) keep their relative order.
pub fn rank_by_count(list: Vec<String>, store: &WordMap<(usize, String)>) -> (r: Vec<String>)
    ensures
        r@.map_values(|t: String| t@) == sort_desc(
            count_pairs(list@.map_values(|t: String| t@), store@),
        ).map_values(|p: (Seq<char>, usize)| p.0),
{
    let ghost ws = list@.map_values(|t: String| t@);
    let mut pairs: Vec<(String, usize)> = Vec::new();
    proof {
        assert(pairs@.map_values(|p: (String, usize)| pair_view(p)) =~= count_pairs(
            ws,
            store@,
        ).take(0));
    }
    let n = list.len();
    for i in 0..n
        invariant
            n == list@.len(),
            ws == list@.map_values(|t: String| t@),
            ws.len() == list@.len(),
            pairs@.map_values(|p: (String, usize)| pair_view(p)) == count_pairs(
                ws,
                store@,
            ).take(i as int),
    {
        let w = &list[i];
        let looked = store.get(w.as_str());
        let cnt: usize = match looked {
            Some(p) => p.0,
            None => 0,
        };
        proof {
            assert(ws[i as int] == list@[i as int]@);
            match looked {
                Some(p) => {
                    assert(p@ == store@[w@]);
                    assert(p@.0 == p.0);
                },
                None => {
                    assert(!store@.dom().contains(w@));
                },
            }
            assert(cnt == count_of(store@, ws[i as int]));
        }
        let ghost ppre = pairs@;
        pairs.push((w.clone(), cnt));
        proof {
            assert(pairs@.map_values(|p: (String, usize)| pair_view(p)) =~= count_pairs(
                ws,
                store@,
            ).take(i as int + 1)) by {
                let lhs = pairs@.map_values(|p: (String, usize)| pair_view(p));
                assert(ppre.map_values(|p: (String, usize)| pair_view(p)).len() == ppre.len());
                assert(ppre.len() == i);
                assert(pairs@.len() == ppre.len() + 1);
                assert(lhs.len() == i + 1);
                assert forall|k: int| 0 <= k < i + 1 implies #[trigger] lhs[k] == count_pairs(
                    ws,
                    store@,
                ).take(i as int + 1)[k] by {
                    assert(lhs[k] == pair_view(pairs@[k]));
                    if k < i {
                        assert(pairs@[k] == ppre[k]);
                        assert(ppre.map_values(|p: (String, usize)| pair_view(p))[k]
                            == pair_view(ppre[k]));
                        assert(count_pairs(ws, store@).take(i as int)[k] == count_pairs(
                            ws,
                            store@,
                        )[k]);
                    } else {
                        assert(count_pairs(ws, store@)[k] == (ws[k], count_of(store@, ws[k])));
                    }
                }
            }
        }
    }
    proof {
        assert(count_pairs(ws, store@).take(ws.len() as int) =~= count_pairs(ws, store@));
    }
    let sorted = sort_pairs_desc(pairs);
    let mut out: Vec<String> = Vec::new();
    let ghost sview = sorted@.map_values(|p: (String, usize)| pair_view(p));
    let m = sorted.len();
    for i in 0..m
        invariant
            m == sorted@.len(),
            sview == sorted@.map_values(|p: (String, usize)| pair_view(p)),
            sview.len() == sorted@.len(),
            out@.map_values(|t: String| t@) == sview.take(i as int).map_values(
                |p: (Seq<char>, usize)| p.0,
            ),
    {
        let word = sorted[i].0.clone();
        let ghost opre = out@;
        out.push(word);
        proof {
            assert(out@.map_values(|t: String| t@) =~= sview.take(i as int + 1).map_values(
                |p: (Seq<char>, usize)| p.0,
            )) by {
                let lhs = out@.map_values(|t: String| t@);
                let rhs = sview.take(i as int + 1).map_values(|p: (Seq<char>, usize)| p.0);
                assert(opre.map_values(|t: String| t@).len() == i);
                assert forall|k: int| 0 <= k < i + 1 implies #[trigger] lhs[k] == rhs[k] by {
                    assert(lhs[k] == out@[k]@);
                    assert(rhs[k] == sview.take(i as int + 1)[k].0);
                    if k < i {
                        assert(out@[k] == opre[k]);
                        assert(opre.map_values(|t: String| t@)[k] == opre[k]@);
                        assert(opre.map_values(|t: String| t@)[k] == sview.take(
                            i as int,
                        ).map_values(|p: (Seq<char>, usize)| p.0)[k]);
                    } else {
                        assert(out@[k]@ == sorted@[i as int].0@);
                        assert(sview[i as int] == pair_view(sorted@[i as int]));
                    }
                }
            }
        }
    }
    proof {
        assert(sview.take(sorted@.len() as int) =~= sview);
    }
    out
}

/// Every indexed word with its occurrence positions, in insertion
/// order, unranked.
pub fn get_insertion_sort(inner: &Inner) -> (r: Vec<(String, Vec<usize>)>)
    requires
        inner_wf(inner),
    ensures
        r@.len() == im_seq(inner.store).len(),
        forall|k: int|
            0 <= k < r@.len() ==> (#[trigger] r@[k]).0@ == im_seq(inner.store)[k].0 && to_ints(
                r@[k].1@,
            ) == occ_positions(inner.list@.map_values(|t: String| t@), im_seq(inner.store)[k].0),
{
    let ghost ts = inner.list@.map_values(|t: String| t@);
    let ghost s = im_seq(inner.store);
    let n = im_len(&inner.store);
    let mut out: Vec<(String, Vec<usize>)> = Vec::new();
    for k in 0..n
        invariant
            inner_wf(inner),
            ts == inner.list@.map_values(|t: String| t@),
            s == im_seq(inner.store),
            n == s.len(),
            out@.len() == k,
            forall|m: int|
                0 <= m < k ==> (#[trigger] out@[m]).0@ == s[m].0 && to_ints(out@[m].1@)
                    == occ_positions(ts, s[m].0),
    {
        let p = im_get_index(&inner.store, k).unwrap();
        proof {
            assert(s[k as int].1 == k);
            assert(p.1 == k);
        }
        out.push((p.0, inner.positions[p.1].clone()));
    }
    out
}

/// The system ranking: identical to the popularity ranking.
pub fn get_system_sort(inner: &Inner) -> (r: Vec<(String, Vec<usize>)>)
    requires
        inner_wf(inner),
    ensures
        r@.map_values(|p: (String, Vec<usize>)| (p.0@, p.1@.len() as usize)) == sort_desc(
            pop_entries(inner.list@.map_values(|t: String| t@)),
        ),
        forall|k: int|
            0 <= k < r@.len() ==> to_ints((#[trigger] r@[k]).1@) == occ_positions(
                inner.list@.map_values(|t: String| t@),
                r@[k].0@,
            ),
{
    get_popularity_sort(inner)
}

/// The word-file ranking: the listed words that the corpus knows,
/// ordered by descending occurrence count, ties in list order, each
/// with its occurrence positions.
pub fn get_word_file(inner: &Inner, words: &Vec<String>) -> (r: Vec<(String, Vec<usize>)>)
    requires
        inner_wf(inner),
    ensures
        r@.map_values(|p: (String, Vec<usize>)| (p.0@, p.1@.len() as usize)) == sort_desc(
            file_entries(
                inner.list@.map_values(|t: String| t@),
                words@.map_values(|t: String| t@),
            ),
        ),
        forall|k: int|
            0 <= k < r@.len() ==> to_ints((#[trigger] r@[k]).1@) == occ_positions(
                inner.list@.map_values(|t: String| t@),
                r@[k].0@,
            ),
{
    let ghost ts = inner.list@.map_values(|t: String| t@);
    let ghost ws = words@.map_values(|t: String| t@);
    let ghost s = im_seq(inner.store);
    let ghost entry_of = |w: Seq<char>| (w, occ_positions(ts, w).len() as usize);
    let ghost pred = |q: (Seq<char>, usize)| firsts(valid_norms(ts)).contains(q.0);
    let mut pairs: Vec<(String, usize)> = Vec::new();
    proof {
        let mapped = ws.map_values(entry_of);
        assert(mapped.take(0) =~= Seq::<(Seq<char>, usize)>::empty());
        assert(mapped.take(0).filter(pred) =~= Seq::<(Seq<char>, usize)>::empty());
        assert(pairs@.map_values(|p: (String, usize)| pair_view(p)) =~= Seq::<
            (Seq<char>, usize),
        >::empty());
    }
    for k in 0..words.len()
        invariant
            inner_wf(inner),
            ts == inner.list@.map_values(|t: String| t@),
            ws == words@.map_values(|t: String| t@),
            ws.len() == words@.len(),
            s == im_seq(inner.store),
            entry_of == (|w: Seq<char>| (w, occ_positions(ts, w).len() as usize)),
            pred == (|q: (Seq<char>, usize)| firsts(valid_norms(ts)).contains(q.0)),
            pairs@.map_values(|p: (String, usize)| pair_view(p)) == ws.map_values(
                entry_of,
            ).take(k as int).filter(pred),
            forall|m: int|
                0 <= m < pairs@.len() ==> im_has_key(s, (#[trigger] pairs@[m]).0@),
    {
        let w = &words[k];
        let looked = im_get(&inner.store, w.as_str());
        proof {
            assert(ws[k as int] == words@[k as int]@);
            let mapped = ws.map_values(entry_of);
            assert(mapped.take(k as int + 1) =~= mapped.take(k as int).push(mapped[k as int]));
            assert(mapped[k as int] == entry_of(ws[k as int]));
            lemma_filter_push(mapped.take(k as int), mapped[k as int], pred);
            let f = s.map_values(|q: (Seq<char>, usize)| q.0);
            match looked {
                Some(slot) => {
                    let si = choose|si: int|
                        0 <= si < s.len() && (#[trigger] s[si]).0 == w@ && s[si].1 == slot;
                    assert(f[si] == s[si].0);
                    assert(firsts(valid_norms(ts)).contains(w@));
                },
                None => {
                    if firsts(valid_norms(ts)).contains(w@) {
                        let si = choose|si: int|
                            0 <= si < firsts(valid_norms(ts)).len() && #[trigger] firsts(
                                valid_norms(ts),
                            )[si] == w@;
                        assert(f[si] == s[si].0);
                        assert(s[si].0 == w@);
                    }
                },
            }
        }
        match looked {
            Some(slot) => {
                proof {
                    let si = choose|si: int|
                        0 <= si < s.len() && (#[trigger] s[si]).0 == w@ && s[si].1 == slot;
                    assert(s[si].1 == si);
                    assert(s[slot as int].0 == w@);
                    assert(to_ints(inner.positions@[slot as int]@) == occ_positions(ts, w@));
                }
                let cnt = inner.positions[slot].len();
                let ghost ppre = pairs@;
                pairs.push((w.clone(), cnt));
                proof {
                    assert(pairs@.map_values(|q: (String, usize)| pair_view(q))
                        =~= ppre.map_values(|q: (String, usize)| pair_view(q)).push(
                        (w@, cnt),
                    ));
                    assert forall|m: int| 0 <= m < pairs@.len() implies im_has_key(
                        s,
                        (#[trigger] pairs@[m]).0@,
                    ) by {
                        if m < ppre.len() {
                            assert(pairs@[m] == ppre[m]);
                        } else {
                            let si = choose|si: int|
                                0 <= si < s.len() && (#[trigger] s[si]).0 == w@ && s[si].1
                                    == slot;
                            assert(pairs@[m].0@ == w@ && s[si].0 == w@);
                        }
                    }
                }
            },
            None => {
            },
        }
    }
    proof {
        let mapped = ws.map_values(entry_of);
        assert(mapped.take(mapped.len() as int) =~= mapped);
        assert(pairs@.map_values(|p: (String, usize)| pair_view(p)) == file_entries(ts, ws));
    }
    let sorted = sort_pairs_desc(pairs);
    proof {
        let sview = sorted@.map_values(|p: (String, usize)| pair_view(p));
        lemma_sort_desc_membership(file_entries(ts, ws));
        lemma_filter_sub(ws.map_values(entry_of), pred);
        assert forall|k: int| 0 <= k < sorted@.len() implies im_has_key(
            s,
            (#[trigger] sorted@[k]).0@,
        ) && sorted@[k].1 == occ_positions(ts, sorted@[k].0@).len() as usize by {
            assert(sview[k] == pair_view(sorted@[k]));
            assert(file_entries(ts, ws).contains(sview[k]));
            let j = choose|j: int|
                0 <= j < file_entries(ts, ws).len() && #[trigger] file_entries(ts, ws)[j]
                    == sview[k];
            assert(pred(file_entries(ts, ws)[j]));
            assert(firsts(valid_norms(ts)).contains(sview[k].0));
            let f = s.map_values(|q: (Seq<char>, usize)| q.0);
            let si = choose|si: int|
                0 <= si < firsts(valid_norms(ts)).len() && #[trigger] firsts(valid_norms(ts))[si]
                    == sview[k].0;
            assert(f[si] == s[si].0);
            let mapped = ws.map_values(entry_of);
            lemma_filter_sub(mapped, pred);
            assert(mapped.contains(file_entries(ts, ws)[j]));
            let m = choose|m: int| 0 <= m < mapped.len() && #[trigger] mapped[m] == sview[k];
            assert(mapped[m] == entry_of(ws[m]));
        }
    }
    let out = attach_positions(inner, sorted);
    proof {
        let sview = sorted@.map_values(|p: (String, usize)| pair_view(p));
        assert(out@.map_values(|p: (String, Vec<usize>)| (p.0@, p.1@.len() as usize))
            =~= sview);
    }
    out
}

/// One ranked word per line: the side ranking file's content.
pub fn palabras_content(acc: &Vec<(String, Vec<usize>)>) -> (r: String)
    ensures
        r@ == join_sep(acc@.map_values(|p: (String, Vec<usize>)| p.0@), '\n'),
{
    let mut names: Vec<String> = Vec::new();
    proof {
        assert(names@.map_values(|t: String| t@) =~= acc@.map_values(
            |p: (String, Vec<usize>)| p.0@,
        ).take(0));
    }
    for k in 0..acc.len()
        invariant
            names@.map_values(|t: String| t@) == acc@.map_values(
                |p: (String, Vec<usize>)| p.0@,
            ).take(k as int),
    {
        let ghost npre = names@;
        names.push(acc[k].0.clone());
        proof {
            let m = acc@.map_values(|p: (String, Vec<usize>)| p.0@);
            assert(names@.map_values(|t: String| t@) =~= m.take(k as int + 1)) by {
                assert(m.take(k as int + 1) =~= m.take(k as int).push(m[k as int]));
                assert(names@.map_values(|t: String| t@) =~= npre.map_values(
                    |t: String| t@,
                ).push(acc@[k as int].0@));
                assert(m[k as int] == acc@[k as int].0@);
            }
        }
    }
    proof {
        reveal_strlit("\n");
        assert("\n"@ =~= seq!['\n']);
        let m = acc@.map_values(|p: (String, Vec<usize>)| p.0@);
        assert(m.take(m.len() as int) =~= m);
    }
    join_with(&names, "\n")
}

/// Occurrence positions point into the token list.
pub proof fn lemma_occ_bounds(ts: Seq<Seq<char>>, w: Seq<char>)
    ensures
        forall|k: int|
            0 <= k < occ_positions(ts, w).len() ==> 0 <= #[trigger] occ_positions(ts, w)[k]
                < ts.len(),
    decreases ts.len(),
{
    if ts.len() > 0 {
        lemma_occ_bounds(ts.drop_last(), w);
        let o = occ_positions(ts, w);
        let op = occ_positions(ts.drop_last(), w);
        assert forall|k: int| 0 <= k < o.len() implies 0 <= #[trigger] o[k] < ts.len() by {
            if normalize_spec(ts[ts.len() - 1]) == w {
                if k < op.len() {
                    assert(o[k] == op[k]);
                } else {
                    assert(o[k] == ts.len() - 1);
                }
            } else {
                assert(o[k] == op[k]);
            }
        }
    }
}

/// The numbered records for the words of `ws` that `store` knows: the
/// word's one-based position in the list, a colon, the word, and its
/// example block on the following lines.
pub open spec fn records_spec(ws: Seq<Seq<char>>, store: Map<Seq<char>, Seq<char>>) -> Seq<
    Seq<char>,
>
    decreases ws.len(),
{
    if ws.len() == 0 {
        Seq::empty()
    } else {
        let pre = records_spec(ws.drop_last(), store);
        if store.dom().contains(ws.last()) {
            pre.push(
                dec_str(ws.len() as nat) + seq![':', ' '] + ws.last() + seq!['\n']
                    + store[ws.last()],
            )
        } else {
            pre
        }
    }
}

/// One record: "<rank>: <word>" and the block on the following lines.
fn build_record(rank: usize, w: &str, block: &str) -> (r: String)
    requires
        rank >= 1,
    ensures
        r@ == dec_str(rank as nat) + seq![':', ' '] + w@ + seq!['\n'] + block@,
{
    let mut rec = usize_dec(rank);
    proof {
        reveal_strlit(": ");
        reveal_strlit("\n");
        assert(": "@ =~= seq![':', ' ']);
        assert("\n"@ =~= seq!['\n']);
    }
    rec.append(": ");
    rec.append(w);
    rec.append("\n");
    rec.append(block);
    proof {
        assert(rec@ =~= dec_str(rank as nat) + seq![':', ' '] + w@ + seq!['\n'] + block@);
    }
    rec
}

/// The records file for `list` against the example blocks of `store`:
/// queued only when at least one word has a block.
pub fn write_to_file(file_name: &str, list: &Vec<String>, store: &WordMap<String>) -> (r: Option<
    Writer,
>)
    ensures
        r is Some <==> records_spec(list@.map_values(|t: String| t@), store@).len() > 0,
        r matches Some(wr) ==> wr.path@ == file_name@ && wr.content@ == join_sep(
            records_spec(list@.map_values(|t: String| t@), store@),
            '\n',
        ),
{
    let ghost ws = list@.map_values(|t: String| t@);
    let mut acc: Vec<String> = Vec::new();
    proof {
        assert(ws.take(0) =~= Seq::<Seq<char>>::empty());
        assert(acc@.map_values(|t: String| t@) =~= Seq::<Seq<char>>::empty());
    }
    for i in 0..list.len()
        invariant
            ws == list@.map_values(|t: String| t@),
            ws.len() == list@.len(),
            acc@.map_values(|t: String| t@) == records_spec(ws.take(i as int), store@),
    {
        let w = &list[i];
        proof {
            assert(ws.take(i as int + 1).drop_last() =~= ws.take(i as int));
            assert(ws.take(i as int + 1).last() == ws[i as int]);
            assert(ws[i as int] == list@[i as int]@);
        }
        match store.get(w.as_str()) {
            Some(s) => {
                let rec = build_record(i + 1, w.as_str(), s.as_str());
                let ghost apre = acc@;
                acc.push(rec);
                proof {
                    assert(acc@.map_values(|t: String| t@) =~= apre.map_values(
                        |t: String| t@,
                    ).push(
                        dec_str((i + 1) as nat) + seq![':', ' '] + ws[i as int] + seq!['\n']
                            + store@[ws[i as int]],
                    ));
                    assert(ws.take(i as int + 1).len() == i + 1);
                }
            },
            None => {},
        }
    }
    proof {
        assert(ws.take(ws.len() as int) =~= ws);
        reveal_strlit("\n");
        assert("\n"@ =~= seq!['\n']);
    }
    if acc.len() > 0 {
        let content = join_with(&acc, "\n");
        Some(Writer::new(file_name.to_owned(), content))
    } else {
        None
    }
}

/// As [`records_spec`], for a store whose value also carries a count.
pub open spec fn records_sys_spec(
    ws: Seq<Seq<char>>,
    store: Map<Seq<char>, (usize, Seq<char>)>,
) -> Seq<Seq<char>>
    decreases ws.len(),
{
    if ws.len() == 0 {
        Seq::empty()
    } else {
        let pre = records_sys_spec(ws.drop_last(), store);
        if store.dom().contains(ws.last()) {
            pre.push(
                dec_str(ws.len() as nat) + seq![':', ' '] + ws.last() + seq!['\n']
                    + store[ws.last()].1,
            )
        } else {
            pre
        }
    }
}

/// The records file for `list` against a count-carrying store.
pub fn write_to_file_system(
    file_name: &str,
    list: &Vec<String>,
    store: &WordMap<(usize, String)>,
) -> (r: Option<Writer>)
    ensures
        r is Some <==> records_sys_spec(list@.map_values(|t: String| t@), store@).len() > 0,
        r matches Some(wr) ==> wr.path@ == file_name@ && wr.content@ == join_sep(
            records_sys_spec(list@.map_values(|t: String| t@), store@),
            '\n',
        ),
{
    let ghost ws = list@.map_values(|t: String| t@);
    let mut acc: Vec<String> = Vec::new();
    proof {
        assert(ws.take(0) =~= Seq::<Seq<char>>::empty());
        assert(acc@.map_values(|t: String| t@) =~= Seq::<Seq<char>>::empty());
    }
    for i in 0..list.len()
        invariant
            ws == list@.map_values(|t: String| t@),
            ws.len() == list@.len(),
            acc@.map_values(|t: String| t@) == records_sys_spec(ws.take(i as int), store@),
    {
        let w = &list[i];
        proof {
            assert(ws.take(i as int + 1).drop_last() =~= ws.take(i as int));
            assert(ws.take(i as int + 1).last() == ws[i as int]);
            assert(ws[i as int] == list@[i as int]@);
        }
        match store.get(w.as_str()) {
            Some(p) => {
                let rec = build_record(i + 1, w.as_str(), p.1.as_str());
                let ghost apre = acc@;
                acc.push(rec);
                proof {
                    assert(p@.1 == store@[ws[i as int]].1);
                    assert(acc@.map_values(|t: String| t@) =~= apre.map_values(
                        |t: String| t@,
                    ).push(
                        dec_str((i + 1) as nat) + seq![':', ' '] + ws[i as int] + seq!['\n']
                            + store@[ws[i as int]].1,
                    ));
                    assert(ws.take(i as int + 1).len() == i + 1);
                }
            },
            None => {},
        }
    }
    proof {
        assert(ws.take(ws.len() as int) =~= ws);
        reveal_strlit("\n");
        assert("\n"@ =~= seq!['\n']);
    }
    if acc.len() > 0 {
        let content = join_with(&acc, "\n");
        Some(Writer::new(file_name.to_owned(), content))
    } else {
        None
    }
}

/// Index the corpus, rank the listed words by frequency, and build the
/// example block of each: the map from word to block, and the side
/// ranking file's content (one ranked word per line).
pub fn init(corpus: &str, words_content: &str, cfg: &crate::Config) -> (r: (
    WordMap<String>,
    String,
))
    ensures
        ({
            let ts = tokens_of(corpus@, Sep::Any);
            let ranked = sort_desc(file_entries(ts, file_words(words_content@)));
            &&& r.1@ == join_sep(ranked.map_values(|p: (Seq<char>, usize)| p.0), '\n')
            &&& forall|k: int|
                0 <= k < ranked.len() ==> r.0@.dom().contains((#[trigger] ranked[k]).0)
                    && r.0@[ranked[k].0] == block_spec(
                    ts,
                    occ_positions(ts, ranked[k].0),
                    cfg.occurrences_per_word as int,
                    cfg.context_left as int,
                    cfg.context_right as int,
                    cfg.right_char_budget as int,
                )
            &&& forall|w: Seq<char>|
                r.0@.dom().contains(w) ==> exists|k: int|
                    0 <= k < ranked.len() && (#[trigger] ranked[k]).0 == w
        }),
{
    let inner = parse_content(corpus.to_owned());
    let ghost ts = inner.list@.map_values(|t: String| t@);
    let words = get_content_single_file(words_content);
    let acc = get_word_file(&inner, &words);
    let pal = palabras_content(&acc);
    let ghost ranked = sort_desc(file_entries(ts, file_words(words_content@)));
    proof {
        let aview = acc@.map_values(|p: (String, Vec<usize>)| (p.0@, p.1@.len() as usize));
        assert(aview == ranked);
        let anames = acc@.map_values(|p: (String, Vec<usize>)| p.0@);
        let rnames = ranked.map_values(|p: (Seq<char>, usize)| p.0);
        assert(anames =~= rnames) by {
            assert forall|k: int| 0 <= k < acc@.len() implies #[trigger] anames[k]
                == rnames[k] by {
                assert(aview[k] == (acc@[k].0@, acc@[k].1@.len() as usize));
                assert(anames[k] == acc@[k].0@);
            }
        }
    }
    let mut store: WordMap<String> = WordMap::new();
    for k in 0..acc.len()
        invariant
            ts == inner.list@.map_values(|t: String| t@),
            ts.len() == inner.list@.len(),
            acc@.len() == ranked.len(),
            forall|m: int|
                0 <= m < acc@.len() ==> (#[trigger] acc@[m]).0@ == ranked[m].0 && to_ints(
                    acc@[m].1@,
                ) == occ_positions(ts, ranked[m].0),
            forall|m: int|
                0 <= m < k ==> store@.dom().contains((#[trigger] ranked[m]).0)
                    && store@[ranked[m].0] == block_spec(
                    ts,
                    occ_positions(ts, ranked[m].0),
                    cfg.occurrences_per_word as int,
                    cfg.context_left as int,
                    cfg.context_right as int,
                    cfg.right_char_budget as int,
                ),
            forall|w: Seq<char>|
                store@.dom().contains(w) ==> exists|m: int|
                    0 <= m < k && (#[trigger] ranked[m]).0 == w,
    {
        proof {
            lemma_occ_bounds(ts, ranked[k as int].0);
            assert(to_ints(acc@[k as int].1@).len() == acc@[k as int].1@.len());
            assert forall|m: int| 0 <= m < acc@[k as int].1@.len() implies (
            #[trigger] acc@[k as int].1@[m]) < inner.list@.len() by {
                assert(to_ints(acc@[k as int].1@)[m] == acc@[k as int].1@[m] as int);
            }
        }
        let block = stitch_block(
            &inner.list,
            &acc[k].1,
            cfg.occurrences_per_word,
            cfg.context_left,
            cfg.context_right,
            cfg.right_char_budget,
        );
        let ghost spre = store@;
        store.insert(acc[k].0.clone(), block);
        proof {
            assert(store@ == spre.insert(ranked[k as int].0, block@));
            assert(block@ == block_spec(
                ts,
                occ_positions(ts, ranked[k as int].0),
                cfg.occurrences_per_word as int,
                cfg.context_left as int,
                cfg.context_right as int,
                cfg.right_char_budget as int,
            )) by {
                assert(to_ints(acc@[k as int].1@) == occ_positions(ts, ranked[k as int].0));
            }
            assert forall|w: Seq<char>| store@.dom().contains(w) implies exists|m: int|
                0 <= m < k + 1 && (#[trigger] ranked[m]).0 == w by {
                if w != ranked[k as int].0 {
                    assert(spre.dom().contains(w));
                    let m = choose|m: int| 0 <= m < k && (#[trigger] ranked[m]).0 == w;
                    assert(0 <= m < k + 1 && ranked[m].0 == w);
                } else {
                    assert(0 <= k < k + 1 && ranked[k as int].0 == w);
                }
            }
        }
    }
    (store, pal)
}

/// As [`init`], ranking the corpus's own words and pairing each with
/// its occurrence count.
pub fn init_get_system(corpus: &str, cfg: &crate::Config) -> (r: (
    WordMap<(usize, String)>,
    String,
))
    ensures
        ({
            let ts = tokens_of(corpus@, Sep::Any);
            let ranked = sort_desc(pop_entries(ts));
            &&& r.1@ == join_sep(ranked.map_values(|p: (Seq<char>, usize)| p.0), '\n')
            &&& forall|k: int|
                0 <= k < ranked.len() ==> r.0@.dom().contains((#[trigger] ranked[k]).0)
                    && r.0@[ranked[k].0] == (
                ranked[k].1,
                block_spec(
                    ts,
                    occ_positions(ts, ranked[k].0),
                    cfg.occurrences_per_word as int,
                    cfg.context_left as int,
                    cfg.context_right as int,
                    cfg.right_char_budget as int,
                ),
            )
            &&& forall|w: Seq<char>|
                r.0@.dom().contains(w) ==> exists|k: int|
                    0 <= k < ranked.len() && (#[trigger] ranked[k]).0 == w
        }),
{
    let inner = parse_content(corpus.to_owned());
    let ghost ts = inner.list@.map_values(|t: String| t@);
    let acc = get_system_sort(&inner);
    let pal = palabras_content(&acc);
    let ghost ranked = sort_desc(pop_entries(ts));
    proof {
        let aview = acc@.map_values(|p: (String, Vec<usize>)| (p.0@, p.1@.len() as usize));
        assert(aview == ranked);
        let anames = acc@.map_values(|p: (String, Vec<usize>)| p.0@);
        let rnames = ranked.map_values(|p: (Seq<char>, usize)| p.0);
        assert(anames =~= rnames) by {
            assert forall|k: int| 0 <= k < acc@.len() implies #[trigger] anames[k]
                == rnames[k] by {
                assert(aview[k] == (acc@[k].0@, acc@[k].1@.len() as usize));
                assert(anames[k] == acc@[k].0@);
            }
        }
    }
    let mut store: WordMap<(usize, String)> = WordMap::new();
    for k in 0..acc.len()
        invariant
            ts == inner.list@.map_values(|t: String| t@),
            ts.len() == inner.list@.len(),
            acc@.len() == ranked.len(),
            forall|m: int|
                0 <= m < acc@.len() ==> (#[trigger] acc@[m]).0@ == ranked[m].0 && to_ints(
                    acc@[m].1@,
                ) == occ_positions(ts, ranked[m].0) && (acc@[m].1@.len() as usize) == ranked[m].1,
            forall|m: int|
                0 <= m < k ==> store@.dom().contains((#[trigger] ranked[m]).0)
                    && store@[ranked[m].0] == (
                ranked[m].1,
                block_spec(
                    ts,
                    occ_positions(ts, ranked[m].0),
                    cfg.occurrences_per_word as int,
                    cfg.context_left as int,
                    cfg.context_right as int,
                    cfg.right_char_budget as int,
                ),
            ),
            forall|w: Seq<char>|
                store@.dom().contains(w) ==> exists|m: int|
                    0 <= m < k && (#[trigger] ranked[m]).0 == w,
    {
        proof {
            lemma_occ_bounds(ts, ranked[k as int].0);
            assert forall|m: int| 0 <= m < acc@[k as int].1@.len() implies (
            #[trigger] acc@[k as int].1@[m]) < inner.list@.len() by {
                assert(to_ints(acc@[k as int].1@)[m] == acc@[k as int].1@[m] as int);
            }
        }
        let block = stitch_block(
            &inner.list,
            &acc[k].1,
            cfg.occurrences_per_word,
            cfg.context_left,
            cfg.context_right,
            cfg.right_char_budget,
        );
        let cnt = acc[k].1.len();
        let ghost spre = store@;
        store.insert(acc[k].0.clone(), (cnt, block));
        proof {
            assert(store@ == spre.insert(ranked[k as int].0, (cnt, block@)));
            assert(cnt == ranked[k as int].1);
            assert(block@ == block_spec(
                ts,
                occ_positions(ts, ranked[k as int].0),
                cfg.occurrences_per_word as int,
                cfg.context_left as int,
                cfg.context_right as int,
                cfg.right_char_budget as int,
            )) by {
                assert(to_ints(acc@[k as int].1@) == occ_positions(ts, ranked[k as int].0));
            }
            assert forall|m: int|
                0 <= m < k + 1 implies store@.dom().contains((#[trigger] ranked[m]).0)
                && store@[ranked[m].0] == (
                ranked[m].1,
                block_spec(
                    ts,
                    occ_positions(ts, ranked[m].0),
                    cfg.occurrences_per_word as int,
                    cfg.context_left as int,
                    cfg.context_right as int,
                    cfg.right_char_budget as int,
                ),
            ) by {
                if m == k {
                } else if ranked[m].0 == ranked[k as int].0 {
                    assert((acc@[m].1@.len() as usize) == ranked[m].1);
                    assert(to_ints(acc@[m].1@) == occ_positions(ts, ranked[m].0));
                    assert(to_ints(acc@[m].1@).len() == acc@[m].1@.len());
                    assert(to_ints(acc@[k as int].1@).len() == acc@[k as int].1@.len());
                    assert(ranked[m].1 == ranked[k as int].1);
                } else {
                    assert(store@[ranked[m].0] == spre[ranked[m].0]);
                }
            }
            assert forall|w: Seq<char>| store@.dom().contains(w) implies exists|m: int|
                0 <= m < k + 1 && (#[trigger] ranked[m]).0 == w by {
                if w != ranked[k as int].0 {
                    assert(spre.dom().contains(w));
                    let m = choose|m: int| 0 <= m < k && (#[trigger] ranked[m]).0 == w;
                    assert(0 <= m < k + 1 && ranked[m].0 == w);
                } else {
                    assert(0 <= k < k + 1 && ranked[k as int].0 == w);
                }
            }
        }
    }
    (store, pal)
}

} // verus!
