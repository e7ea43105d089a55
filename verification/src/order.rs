//! Stable ordering of `(word, count)` pairs by descending count.
//!
//! The sort is an insertion sort: an element is placed after every
//! earlier element whose count is at least its own, so elements with
//! equal counts keep their original relative order.

use vstd::prelude::*;

verus! {

/// `x` placed into the already-sorted `s`, after all elements whose
/// count is at least `x`'s.
pub open spec fn insert_desc(x: (Seq<char>, usize), s: Seq<(Seq<char>, usize)>) -> Seq<
    (Seq<char>, usize),
>
    decreases s.len(),
{
    if s.len() == 0 {
        seq![x]
    } else if s[0].1 >= x.1 {
        seq![s[0]] + insert_desc(x, s.drop_first())
    } else {
        seq![x] + s
    }
}

/// The pairs of `s` sorted by descending count, stably.
pub open spec fn sort_desc(s: Seq<(Seq<char>, usize)>) -> Seq<(Seq<char>, usize)>
    decreases s.len(),
{
    if s.len() == 0 {
        Seq::empty()
    } else {
        insert_desc(s.last(), sort_desc(s.drop_last()))
    }
}

/// Counts never increase along `s`.
pub open spec fn sorted_desc(s: Seq<(Seq<char>, usize)>) -> bool {
    forall|i: int, j: int| 0 <= i < j < s.len() ==> #[trigger] s[i].1 >= #[trigger] s[j].1
}

/// The words of `s` whose count is exactly `c`, in order.
pub open spec fn with_count(s: Seq<(Seq<char>, usize)>, c: usize) -> Seq<Seq<char>>
    decreases s.len(),
{
    if s.len() == 0 {
        Seq::empty()
    } else if s[0].1 == c {
        seq![s[0].0] + with_count(s.drop_first(), c)
    } else {
        with_count(s.drop_first(), c)
    }
}

proof fn lemma_insert_len(x: (Seq<char>, usize), s: Seq<(Seq<char>, usize)>)
    ensures
        insert_desc(x, s).len() == s.len() + 1,
    decreases s.len(),
{
    if s.len() > 0 && s[0].1 >= x.1 {
        lemma_insert_len(x, s.drop_first());
    }
}

proof fn lemma_insert_sorted(x: (Seq<char>, usize), s: Seq<(Seq<char>, usize)>)
    requires
        sorted_desc(s),
    ensures
        sorted_desc(insert_desc(x, s)),
        insert_desc(x, s).len() == s.len() + 1,
        forall|i: int|
            0 <= i < insert_desc(x, s).len() ==> (#[trigger] insert_desc(x, s)[i] == x
                || s.contains(insert_desc(x, s)[i])),
        forall|i: int|
            0 <= i < insert_desc(x, s).len() ==> insert_desc(x, s)[i].1 <= x.1 || (
            #[trigger] insert_desc(x, s)[i].1 >= x.1 && s.contains(insert_desc(x, s)[i])),
    decreases s.len(),
{
    lemma_insert_len(x, s);
    if s.len() == 0 {
    } else if s[0].1 >= x.1 {
        assert(sorted_desc(s.drop_first())) by {
            assert(forall|i: int, j: int|
                0 <= i < j < s.drop_first().len() ==> #[trigger] s.drop_first()[i].1
                    >= #[trigger] s.drop_first()[j].1);
        }
        lemma_insert_sorted(x, s.drop_first());
        let r = insert_desc(x, s);
        let rr = insert_desc(x, s.drop_first());
        assert forall|i: int, j: int| 0 <= i < j < r.len() implies #[trigger] r[i].1
            >= #[trigger] r[j].1 by {
            if i > 0 {
                assert(r[i] == rr[i - 1] && r[j] == rr[j - 1]);
            } else {
                assert(r[j] == rr[j - 1]);
                if rr[j - 1] == x {
                    assert(s[0].1 >= x.1);
                } else {
                    assert(s.drop_first().contains(rr[j - 1]));
                    let k = choose|k: int|
                        0 <= k < s.drop_first().len() && s.drop_first()[k] == rr[j - 1];
                    assert(s[k + 1] == rr[j - 1]);
                }
            }
        }
        assert forall|i: int| 0 <= i < r.len() implies (#[trigger] r[i] == x || s.contains(
            r[i],
        )) by {
            if i == 0 {
                assert(s[0] == r[0]);
            } else {
                if r[i] != x {
                    assert(s.drop_first().contains(rr[i - 1]));
                    let k = choose|k: int|
                        0 <= k < s.drop_first().len() && s.drop_first()[k] == rr[i - 1];
                    assert(s[k + 1] == rr[i - 1]);
                }
            }
        }
        assert forall|i: int| 0 <= i < r.len() implies r[i].1 <= x.1 || (#[trigger] r[i].1 >= x.1
            && s.contains(r[i])) by {
            if i == 0 {
                assert(s[0] == r[0]);
            }
        }
    } else {
        assert forall|i: int| 0 <= i < insert_desc(x, s).len() implies (#[trigger] insert_desc(
            x,
            s,
        )[i] == x || s.contains(insert_desc(x, s)[i])) by {
            if i > 0 {
                assert(insert_desc(x, s)[i] == s[i - 1]);
            }
        }
    }
}

/// The result of the stable sort is sorted by descending count and has
/// the input's length.
pub proof fn lemma_sort_desc_sorted(s: Seq<(Seq<char>, usize)>)
    ensures
        sorted_desc(sort_desc(s)),
        sort_desc(s).len() == s.len(),
    decreases s.len(),
{
    if s.len() > 0 {
        lemma_sort_desc_sorted(s.drop_last());
        lemma_insert_sorted(s.last(), sort_desc(s.drop_last()));
    }
}

proof fn lemma_with_count_push(s: Seq<(Seq<char>, usize)>, x: (Seq<char>, usize), c: usize)
    ensures
        with_count(s.push(x), c) == if x.1 == c {
            with_count(s, c).push(x.0)
        } else {
            with_count(s, c)
        },
    decreases s.len(),
{
    reveal_with_fuel(with_count, 3);
    if s.len() == 0 {
        assert(s.push(x)[0] == x);
        assert(s.push(x).drop_first() =~= Seq::<(Seq<char>, usize)>::empty());
        if x.1 == c {
            assert(with_count(s.push(x), c) =~= with_count(s, c).push(x.0));
        }
    } else {
        assert(s.push(x)[0] == s[0]);
        assert(s.push(x).drop_first() =~= s.drop_first().push(x));
        lemma_with_count_push(s.drop_first(), x, c);
        if x.1 == c {
            if s[0].1 == c {
                assert(seq![s[0].0] + with_count(s.drop_first(), c).push(x.0) =~= (seq![s[0].0]
                    + with_count(s.drop_first(), c)).push(x.0));
            }
        }
    }
}

proof fn lemma_with_count_all_less(s: Seq<(Seq<char>, usize)>, c: usize)
    requires
        forall|i: int| 0 <= i < s.len() ==> #[trigger] s[i].1 < c,
    ensures
        with_count(s, c) == Seq::<Seq<char>>::empty(),
    decreases s.len(),
{
    if s.len() > 0 {
        assert(forall|i: int|
            0 <= i < s.drop_first().len() ==> #[trigger] s.drop_first()[i].1 < c);
        lemma_with_count_all_less(s.drop_first(), c);
    }
}

proof fn lemma_insert_with_count(x: (Seq<char>, usize), s: Seq<(Seq<char>, usize)>, c: usize)
    requires
        sorted_desc(s),
    ensures
        with_count(insert_desc(x, s), c) == if x.1 == c {
            with_count(s, c).push(x.0)
        } else {
            with_count(s, c)
        },
    decreases s.len(),
{
    reveal_with_fuel(with_count, 3);
    if s.len() == 0 {
        let r = insert_desc(x, s);
        assert(r == seq![x]);
        assert(r[0] == x);
        assert(r.drop_first() =~= Seq::<(Seq<char>, usize)>::empty());
        if x.1 == c {
            assert(with_count(r, c) == seq![x.0] + with_count(r.drop_first(), c));
            assert(with_count(r, c) =~= with_count(s, c).push(x.0));
        }
    } else if s[0].1 >= x.1 {
        let r = insert_desc(x, s);
        assert(r[0] == s[0]);
        assert(r.drop_first() =~= insert_desc(x, s.drop_first()));
        assert(sorted_desc(s.drop_first())) by {
            assert(forall|i: int, j: int|
                0 <= i < j < s.drop_first().len() ==> #[trigger] s.drop_first()[i].1
                    >= #[trigger] s.drop_first()[j].1);
        }
        lemma_insert_with_count(x, s.drop_first(), c);
        if x.1 == c && s[0].1 == c {
            assert(seq![s[0].0] + with_count(s.drop_first(), c).push(x.0) =~= (seq![s[0].0]
                + with_count(s.drop_first(), c)).push(x.0));
        }
    } else {
        // every element of `s` has a count below `x`'s
        let r = insert_desc(x, s);
        assert(r == seq![x] + s);
        assert(r[0] == x);
        assert(r.drop_first() =~= s);
        if x.1 == c {
            assert forall|i: int| 0 <= i < s.len() implies #[trigger] s[i].1 < c by {
                if i > 0 {
                    assert(s[0].1 >= s[i].1);
                }
            }
            lemma_with_count_all_less(s, c);
            assert(with_count(r, c) =~= with_count(s, c).push(x.0));
        }
    }
}

/// Stability: for every count, the words carrying that count appear in
/// the sorted result exactly as they appeared in the input.
pub proof fn lemma_sort_desc_stable(s: Seq<(Seq<char>, usize)>, c: usize)
    ensures
        with_count(sort_desc(s), c) == with_count(s, c),
    decreases s.len(),
{
    if s.len() > 0 {
        lemma_sort_desc_stable(s.drop_last(), c);
        lemma_sort_desc_sorted(s.drop_last());
        lemma_insert_with_count(s.last(), sort_desc(s.drop_last()), c);
        assert(s.drop_last().push(s.last()) =~= s);
        lemma_with_count_push(s.drop_last(), s.last(), c);
    }
}

/// Filtering after a push keeps the pushed element exactly when the
/// predicate holds of it.
pub proof fn lemma_filter_push<T>(s: Seq<T>, x: T, pred: spec_fn(T) -> bool)
    ensures
        s.push(x).filter(pred) == if pred(x) {
            s.filter(pred).push(x)
        } else {
            s.filter(pred)
        },
{
    reveal_with_fuel(Seq::filter, 2);
    assert(s.push(x).drop_last() =~= s);
    assert(s.push(x).last() == x);
}

/// Every element of a filtered sequence occurs in the unfiltered one.
pub proof fn lemma_filter_sub<T>(s: Seq<T>, pred: spec_fn(T) -> bool)
    ensures
        forall|k: int| 0 <= k < s.filter(pred).len() ==> s.contains(#[trigger] s.filter(pred)[k]),
    decreases s.len(),
{
    reveal_with_fuel(Seq::filter, 2);
    if s.len() > 0 {
        lemma_filter_sub(s.drop_last(), pred);
        let f = s.filter(pred);
        let fp = s.drop_last().filter(pred);
        assert forall|k: int| 0 <= k < f.len() implies s.contains(#[trigger] f[k]) by {
            if k < fp.len() {
                assert(f[k] == fp[k]);
                assert(s.drop_last().contains(fp[k]));
                let m = choose|m: int|
                    0 <= m < s.drop_last().len() && s.drop_last()[m] == fp[k];
                assert(s[m] == fp[k]);
            } else {
                assert(f[k] == s.last());
                assert(s[s.len() - 1] == s.last());
            }
        }
    }
}

/// Every element of the sorted sequence comes from the input.
pub proof fn lemma_sort_desc_membership(s: Seq<(Seq<char>, usize)>)
    ensures
        forall|k: int|
            0 <= k < sort_desc(s).len() ==> s.contains(#[trigger] sort_desc(s)[k]),
    decreases s.len(),
{
    if s.len() > 0 {
        lemma_sort_desc_membership(s.drop_last());
        lemma_sort_desc_sorted(s.drop_last());
        lemma_insert_sorted(s.last(), sort_desc(s.drop_last()));
        let r = sort_desc(s);
        assert forall|k: int| 0 <= k < r.len() implies s.contains(#[trigger] r[k]) by {
            if r[k] == s.last() {
                assert(s[s.len() - 1] == s.last());
            } else {
                assert(sort_desc(s.drop_last()).contains(r[k]));
                let m = choose|m: int|
                    0 <= m < sort_desc(s.drop_last()).len() && sort_desc(s.drop_last())[m] == r[k];
                assert(s.drop_last().contains(r[k]));
                let m2 = choose|m2: int|
                    0 <= m2 < s.drop_last().len() && s.drop_last()[m2] == r[k];
                assert(s[m2] == r[k]);
            }
        }
    }
}

/// View of a `(word, count)` pair.
pub open spec fn pair_view(p: (String, usize)) -> (Seq<char>, usize) {
    (p.0@, p.1)
}

/// Sort `(word, count)` pairs by descending count; pairs with equal
/// counts keep their relative order.
pub fn sort_pairs_desc(list: Vec<(String, usize)>) -> (r: Vec<(String, usize)>)
    ensures
        r@.map_values(|p: (String, usize)| pair_view(p)) == sort_desc(
            list@.map_values(|p: (String, usize)| pair_view(p)),
        ),
{
    let ghost full = list@.map_values(|p: (String, usize)| pair_view(p));
    let mut out: Vec<(String, usize)> = Vec::new();
    proof {
        assert(out@.map_values(|p: (String, usize)| pair_view(p)) =~= Seq::<
            (Seq<char>, usize),
        >::empty());
        assert(full.take(0) =~= Seq::<(Seq<char>, usize)>::empty());
    }
    for idx in 0..list.len()
        invariant
            full == list@.map_values(|p: (String, usize)| pair_view(p)),
            full.len() == list@.len(),
            out@.map_values(|p: (String, usize)| pair_view(p)) == sort_desc(full.take(idx as int)),
            out@.len() == idx,
    {
        let x = (list[idx].0.clone(), list[idx].1);
        proof {
            lemma_sort_desc_sorted(full.take(idx as int));
        }
        // find the first position whose count is below the new pair's
        let mut p: usize = 0;
        while p < out.len() && out[p].1 >= x.1
            invariant
                0 <= p <= out@.len(),
                forall|k: int| 0 <= k < p ==> #[trigger] out@[k].1 >= x.1,
            decreases out@.len() - p,
        {
            p = p + 1;
        }
        proof {
            let sorted = out@.map_values(|p: (String, usize)| pair_view(p));
            assert(sorted.len() == out@.len());
            assert forall|k: int| 0 <= k < p implies #[trigger] sorted[k].1 >= x.1 by {
                assert(sorted[k] == pair_view(out@[k]));
            }
            if p < out@.len() {
                assert(out@[p as int].1 < x.1);
                assert(sorted[p as int] == pair_view(out@[p as int]));
            }
            lemma_insert_at(pair_view(x), sorted, p as int);
            assert(out@.insert(p as int, x).map_values(|p: (String, usize)| pair_view(p))
                =~= sorted.insert(p as int, pair_view(x)));
            assert(full.take(idx as int).push(full[idx as int]) =~= full.take(idx as int + 1));
            assert(full.take(idx as int + 1).drop_last() =~= full.take(idx as int));
            assert(full.take(idx as int + 1).last() == full[idx as int]);
            assert(full[idx as int] == pair_view(x)) by {
                assert(full[idx as int] == pair_view(list@[idx as int]));
                assert(x.0@ == list@[idx as int].0@ && x.1 == list@[idx as int].1);
            }
        }
        out.insert(p, x);
    }
    proof {
        assert(full.take(list@.len() as int) =~= full);
    }
    out
}

/// Inserting at the first position whose count is below `x`'s is what
/// `insert_desc` does.
proof fn lemma_insert_at(x: (Seq<char>, usize), s: Seq<(Seq<char>, usize)>, p: int)
    requires
        0 <= p <= s.len(),
        forall|k: int| 0 <= k < p ==> #[trigger] s[k].1 >= x.1,
        p < s.len() ==> s[p].1 < x.1,
    ensures
        insert_desc(x, s) == s.insert(p, x),
    decreases p,
{
    if p == 0 {
        if s.len() == 0 {
            assert(insert_desc(x, s) =~= s.insert(0, x));
        } else {
            assert(s[0].1 < x.1);
            assert(seq![x] + s =~= s.insert(0, x));
        }
    } else {
        assert(s[0].1 >= x.1);
        assert(forall|k: int|
            0 <= k < p - 1 ==> #[trigger] s.drop_first()[k].1 == s[k + 1].1 && s[k + 1].1 >= x.1);
        if p < s.len() {
            assert(s.drop_first()[p - 1].1 == s[p as int].1);
        }
        lemma_insert_at(x, s.drop_first(), p - 1);
        assert(seq![s[0]] + s.drop_first().insert(p - 1, x) =~= s.insert(p, x));
    }
}

} // verus!
