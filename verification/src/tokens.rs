//! Whitespace tokenization, joining, and decimal rendering.

use vstd::prelude::*;
use crate::text::{is_space, is_space_char};

verus! {

/// A character of the ASCII whitespace class.
pub open spec fn is_ascii_space(c: char) -> bool {
    let u = c as int;
    u == 32 || u == 9 || u == 10 || u == 12 || u == 13
}

/// The separator class used for splitting: full Unicode whitespace,
/// ASCII whitespace only, or the line separator alone.
#[derive(Clone, Copy)]
pub enum Sep {
    Any,
    Ascii,
    Line,
}

/// Whether `c` belongs to the separator class `sep`.
pub open spec fn is_sep(c: char, sep: Sep) -> bool {
    match sep {
        Sep::Any => is_space(c),
        Sep::Ascii => is_ascii_space(c),
        Sep::Line => c == '\n',
    }
}

/// Decide the separator class of `c`.
pub fn is_sep_char(c: char, sep: Sep) -> (r: bool)
    ensures
        r == is_sep(c, sep),
{
    match sep {
        Sep::Ascii => {
            let u = c as u32;
            u == 32 || u == 9 || u == 10 || u == 12 || u == 13
        },
        Sep::Any => is_space_char(c),
        Sep::Line => c == '\n',
    }
}

/// Number of leading non-separator characters of `s`.
pub open spec fn lead_len(s: Seq<char>, sep: Sep) -> nat
    decreases s.len(),
{
    if s.len() == 0 || is_sep(s[0], sep) {
        0
    } else {
        1 + lead_len(s.drop_first(), sep)
    }
}

pub proof fn lemma_lead_len_le(s: Seq<char>, sep: Sep)
    ensures
        lead_len(s, sep) <= s.len(),
    decreases s.len(),
{
    if s.len() > 0 && !is_sep(s[0], sep) {
        lemma_lead_len_le(s.drop_first(), sep);
    }
}

/// The separator-delimited tokens of `s`, in order, each non-empty.
pub open spec fn tokens_of(s: Seq<char>, sep: Sep) -> Seq<Seq<char>>
    decreases s.len(),
    via tokens_of_decreases
{
    if s.len() == 0 {
        Seq::empty()
    } else if is_sep(s[0], sep) {
        tokens_of(s.drop_first(), sep)
    } else {
        seq![s.take(lead_len(s, sep) as int)] + tokens_of(s.skip(lead_len(s, sep) as int), sep)
    }
}

#[via_fn]
proof fn tokens_of_decreases(s: Seq<char>, sep: Sep) {
    lemma_lead_len_le(s, sep);
    if s.len() > 0 && !is_sep(s[0], sep) {
        assert(lead_len(s, sep) >= 1);
    }
}

/// When the first `k` characters are non-separators and the `k`-th is a
/// separator (or the end), the leading run has length exactly `k`.
proof fn lemma_lead_len_exact(s: Seq<char>, k: int, sep: Sep)
    requires
        0 <= k <= s.len(),
        forall|i: int| 0 <= i < k ==> !is_sep(#[trigger] s[i], sep),
        k < s.len() ==> is_sep(s[k], sep),
    ensures
        lead_len(s, sep) == k,
    decreases k,
{
    if k == 0 {
    } else {
        assert(!is_sep(s[0], sep));
        lemma_lead_len_exact(s.drop_first(), k - 1, sep);
    }
}

/// Split `input` into its whitespace-separated tokens, preserving order.
pub fn split_words(input: &str, sep: Sep) -> (r: Vec<String>)
    ensures
        r@.map_values(|t: String| t@) == tokens_of(input@, sep),
{
    let len = input.unicode_len();
    let mut out: Vec<String> = Vec::new();
    let mut i: usize = 0;
    proof {
        assert(input@.skip(0) =~= input@);
        assert(out@.map_values(|t: String| t@) =~= Seq::<Seq<char>>::empty());
    }
    while i < len
        invariant
            0 <= i <= len,
            len == input@.len(),
            tokens_of(input@, sep) == out@.map_values(|t: String| t@) + tokens_of(
                input@.skip(i as int),
                sep,
            ),
        decreases len - i,
    {
        if is_sep_char(input.get_char(i), sep) {
            proof {
                assert(input@.skip(i as int).drop_first() =~= input@.skip(i as int + 1));
            }
            i = i + 1;
        } else {
            let start = i;
            let mut j = i + 1;
            while j < len && !is_sep_char(input.get_char(j), sep)
                invariant
                    start < j <= len,
                    len == input@.len(),
                    forall|m: int| start <= m < j ==> !is_sep(#[trigger] input@[m], sep),
                decreases len - j,
            {
                j = j + 1;
            }
            let token = input.substring_char(start, j).to_owned();
            proof {
                let rest = input@.skip(start as int);
                assert forall|m: int| 0 <= m < j - start implies !is_sep(
                    #[trigger] rest[m],
                    sep,
                ) by {
                    assert(rest[m] == input@[start + m]);
                }
                if j < len {
                    assert(rest[j - start] == input@[j as int]);
                }
                lemma_lead_len_exact(rest, j - start, sep);
                assert(token@ =~= rest.take(j - start));
                assert(rest.skip(j - start) =~= input@.skip(j as int));
                let prev = out@.map_values(|t: String| t@);
                assert(tokens_of(rest, sep) == seq![token@] + tokens_of(
                    input@.skip(j as int),
                    sep,
                ));
                assert(out@.push(token).map_values(|t: String| t@) =~= prev.push(token@));
                assert(prev + seq![token@] + tokens_of(input@.skip(j as int), sep) =~= prev.push(
                    token@,
                ) + tokens_of(input@.skip(j as int), sep));
            }
            out.push(token);
            i = j;
        }
    }
    proof {
        assert(input@.skip(len as int) =~= Seq::<char>::empty());
        assert(out@.map_values(|t: String| t@) + Seq::<Seq<char>>::empty() =~= out@.map_values(
            |t: String| t@,
        ));
    }
    out
}

/// The elements of `ts` joined by the single character `sep`.
pub open spec fn join_sep(ts: Seq<Seq<char>>, sep: char) -> Seq<char>
    decreases ts.len(),
{
    if ts.len() == 0 {
        Seq::empty()
    } else if ts.len() == 1 {
        ts[0]
    } else {
        ts[0] + seq![sep] + join_sep(ts.drop_first(), sep)
    }
}

/// Appending one element to a join extends it by a separator and the
/// element.
pub proof fn lemma_join_push(ts: Seq<Seq<char>>, t: Seq<char>, sep: char)
    ensures
        join_sep(ts.push(t), sep) == if ts.len() == 0 {
            t
        } else {
            join_sep(ts, sep) + seq![sep] + t
        },
    decreases ts.len(),
{
    if ts.len() == 0 {
        assert(ts.push(t).len() == 1);
        assert(ts.push(t)[0] == t);
    } else {
        assert(ts.push(t).drop_first() =~= ts.drop_first().push(t));
        lemma_join_push(ts.drop_first(), t, sep);
        if ts.len() == 1 {
            assert(join_sep(ts.push(t), sep) == ts[0] + seq![sep] + t);
            assert(join_sep(ts, sep) == ts[0]);
        } else {
            assert(join_sep(ts.push(t), sep) == ts[0] + seq![sep] + (join_sep(
                ts.drop_first(),
                sep,
            ) + seq![sep] + t));
            assert(join_sep(ts, sep) + seq![sep] + t == ts[0] + seq![sep] + (join_sep(
                ts.drop_first(),
                sep,
            ) + seq![sep] + t)) by {
                assert(join_sep(ts, sep) == ts[0] + seq![sep] + join_sep(ts.drop_first(), sep));
                assert((ts[0] + seq![sep] + join_sep(ts.drop_first(), sep)) + seq![sep] + t =~= ts[0]
                    + seq![sep] + (join_sep(ts.drop_first(), sep) + seq![sep] + t));
            }
        }
    }
}

/// Join the strings of `list` with the one-character separator `sep`.
pub fn join_with(list: &Vec<String>, sep: &str) -> (r: String)
    requires
        sep@.len() == 1,
    ensures
        r@ == join_sep(list@.map_values(|t: String| t@), sep@[0]),
{
    let ghost views = list@.map_values(|t: String| t@);
    let mut acc = String::new();
    let mut i: usize = 0;
    while i < list.len()
        invariant
            0 <= i <= list.len(),
            sep@.len() == 1,
            views == list@.map_values(|t: String| t@),
            views.len() == list@.len(),
            acc@ == join_sep(views.take(i as int), sep@[0]),
        decreases list.len() - i,
    {
        if i > 0 {
            acc.append(sep);
        }
        acc.append(list[i].as_str());
        proof {
            lemma_join_push(views.take(i as int), views[i as int], sep@[0]);
            assert(views.take(i as int).push(views[i as int]) =~= views.take(i as int + 1));
            if i == 0 {
                assert(acc@ =~= views[0]);
            } else {
                assert(acc@ =~= join_sep(views.take(i as int), sep@[0]) + seq![sep@[0]]
                    + views[i as int]);
            }
        }
        i = i + 1;
    }
    proof {
        assert(views.take(list@.len() as int) =~= views);
    }
    acc
}

/// The decimal digit character for `d`.
pub open spec fn dec_digit(d: int) -> char {
    if d == 0 {
        '0'
    } else if d == 1 {
        '1'
    } else if d == 2 {
        '2'
    } else if d == 3 {
        '3'
    } else if d == 4 {
        '4'
    } else if d == 5 {
        '5'
    } else if d == 6 {
        '6'
    } else if d == 7 {
        '7'
    } else if d == 8 {
        '8'
    } else {
        '9'
    }
}

/// The decimal rendering of `n`, most significant digit first.
pub open spec fn dec_str(n: nat) -> Seq<char>
    decreases n,
{
    if n < 10 {
        seq![dec_digit(n as int)]
    } else {
        dec_str(n / 10) + seq![dec_digit((n % 10) as int)]
    }
}

fn digit_str(d: usize) -> (r: &'static str)
    requires
        d < 10,
    ensures
        r@ == seq![dec_digit(d as int)],
{
    if d == 0 {
        proof {
            reveal_strlit("0");
        }
        assert("0"@ =~= seq![dec_digit(0)]);
        "0"
    } else if d == 1 {
        proof {
            reveal_strlit("1");
        }
        assert("1"@ =~= seq![dec_digit(1)]);
        "1"
    } else if d == 2 {
        proof {
            reveal_strlit("2");
        }
        assert("2"@ =~= seq![dec_digit(2)]);
        "2"
    } else if d == 3 {
        proof {
            reveal_strlit("3");
        }
        assert("3"@ =~= seq![dec_digit(3)]);
        "3"
    } else if d == 4 {
        proof {
            reveal_strlit("4");
        }
        assert("4"@ =~= seq![dec_digit(4)]);
        "4"
    } else if d == 5 {
        proof {
            reveal_strlit("5");
        }
        assert("5"@ =~= seq![dec_digit(5)]);
        "5"
    } else if d == 6 {
        proof {
            reveal_strlit("6");
        }
        assert("6"@ =~= seq![dec_digit(6)]);
        "6"
    } else if d == 7 {
        proof {
            reveal_strlit("7");
        }
        assert("7"@ =~= seq![dec_digit(7)]);
        "7"
    } else if d == 8 {
        proof {
            reveal_strlit("8");
        }
        assert("8"@ =~= seq![dec_digit(8)]);
        "8"
    } else {
        proof {
            reveal_strlit("9");
        }
        assert("9"@ =~= seq![dec_digit(9)]);
        "9"
    }
}

/// Render `n` in decimal.
pub fn usize_dec(n: usize) -> (r: String)
    ensures
        r@ == dec_str(n as nat),
    decreases n,
{
    if n < 10 {
        digit_str(n).to_owned()
    } else {
        let mut s = usize_dec(n / 10);
        s.append(digit_str(n % 10));
        s
    }
}

} // verus!
