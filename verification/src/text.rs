//! Character rules and token canonicalization.
//!
//! A canonical word is a non-empty string of lowercase English letters.
//! Raw tokens are canonicalized by lowercasing and stripping the maximal
//! prefix and suffix of non-letter characters.

use vstd::prelude::*;

verus! {

/// The code-point range of the lowercase English letters.
pub struct English;

impl English {
    /// Lowest code point of a lowercase English letter.
    pub fn start() -> (r: i32)
        ensures
            r == 97,
    {
        97
    }

    /// Highest code point of a lowercase English letter.
    pub fn end() -> (r: i32)
        ensures
            r == 122,
    {
        122
    }

    pub fn is_range(value: i32) -> (r: bool)
        ensures
            r == (97 <= value <= 122),
    {
        value >= 97 && value <= 122
    }
}

/// A lowercase English letter, `'a'` through `'z'`.
pub open spec fn is_letter(c: char) -> bool {
    97 <= c as int <= 122
}

/// Every character of `s` is a lowercase English letter.
pub open spec fn all_letters(s: Seq<char>) -> bool {
    forall|i: int| 0 <= i < s.len() ==> is_letter(#[trigger] s[i])
}

/// A canonical word: non-empty, all lowercase English letters.
pub open spec fn valid_word(s: Seq<char>) -> bool {
    s.len() > 0 && all_letters(s)
}

/// `s` without its maximal prefix of non-letter characters.
pub open spec fn strip_start(s: Seq<char>) -> Seq<char>
    decreases s.len(),
{
    if s.len() == 0 {
        s
    } else if is_letter(s[0]) {
        s
    } else {
        strip_start(s.drop_first())
    }
}

/// `s` without its maximal suffix of non-letter characters.
pub open spec fn strip_end(s: Seq<char>) -> Seq<char>
    decreases s.len(),
{
    if s.len() == 0 {
        s
    } else if is_letter(s.last()) {
        s
    } else {
        strip_end(s.drop_last())
    }
}

/// A character with the Unicode `White_Space` property.
pub open spec fn is_space(c: char) -> bool {
    let u = c as int;
    ||| u == 32
    ||| 9 <= u <= 13
    ||| u == 0x85
    ||| u == 0xA0
    ||| u == 0x1680
    ||| 0x2000 <= u <= 0x200A
    ||| u == 0x2028
    ||| u == 0x2029
    ||| u == 0x202F
    ||| u == 0x205F
    ||| u == 0x3000
}

/// Decide the Unicode `White_Space` property of `c`.
pub fn is_space_char(c: char) -> (r: bool)
    ensures
        r == is_space(c),
{
    let u = c as u32;
    u == 32 || (9 <= u && u <= 13) || u == 0x85 || u == 0xA0 || u == 0x1680 || (0x2000 <= u && u
        <= 0x200A) || u == 0x2028 || u == 0x2029 || u == 0x202F || u == 0x205F || u == 0x3000
}

/// `s` without its maximal prefix of whitespace characters.
pub open spec fn trim_start_spec(s: Seq<char>) -> Seq<char>
    decreases s.len(),
{
    if s.len() == 0 {
        s
    } else if is_space(s[0]) {
        trim_start_spec(s.drop_first())
    } else {
        s
    }
}

/// `s` without its maximal suffix of whitespace characters.
pub open spec fn trim_end_spec(s: Seq<char>) -> Seq<char>
    decreases s.len(),
{
    if s.len() == 0 {
        s
    } else if is_space(s.last()) {
        trim_end_spec(s.drop_last())
    } else {
        s
    }
}

/// `s` without leading and trailing whitespace.
pub open spec fn trim_spec(s: Seq<char>) -> Seq<char> {
    trim_end_spec(trim_start_spec(s))
}

/// Remove leading and trailing whitespace.
pub fn trim(input: &str) -> (r: &str)
    ensures
        r@ == trim_spec(input@),
{
    let len = input.unicode_len();
    let mut start: usize = 0;
    proof {
        assert(input@.skip(0) =~= input@);
    }
    while start < len && is_space_char(input.get_char(start))
        invariant
            0 <= start <= len,
            len == input@.len(),
            trim_start_spec(input@) == trim_start_spec(input@.skip(start as int)),
        decreases len - start,
    {
        proof {
            assert(input@.skip(start as int).drop_first() =~= input@.skip(start as int + 1));
        }
        start = start + 1;
    }
    proof {
        if start < len {
            assert(trim_start_spec(input@.skip(start as int)) == input@.skip(start as int));
        } else {
            assert(input@.skip(start as int) =~= Seq::<char>::empty());
        }
    }
    let mut end: usize = len;
    proof {
        assert(input@.skip(start as int).take(len - start) =~= input@.skip(start as int));
    }
    while end > start && is_space_char(input.get_char(end - 1))
        invariant
            start <= end <= len,
            len == input@.len(),
            trim_start_spec(input@) == input@.skip(start as int),
            trim_end_spec(input@.skip(start as int)) == trim_end_spec(
                input@.skip(start as int).take(end - start),
            ),
        decreases end,
    {
        proof {
            let cur = input@.skip(start as int).take(end - start);
            assert(cur.last() == input@[end as int - 1]);
            assert(cur.drop_last() =~= input@.skip(start as int).take(end - start - 1));
        }
        end = end - 1;
    }
    proof {
        let cur = input@.skip(start as int).take(end - start);
        if end > start {
            assert(cur.last() == input@[end as int - 1]);
            assert(trim_end_spec(cur) == cur);
        } else {
            assert(cur =~= Seq::<char>::empty());
        }
        assert(cur =~= input@.subrange(start as int, end as int));
    }
    input.substring_char(start, end)
}

/// A character of the ASCII range.
pub open spec fn is_ascii_char(c: char) -> bool {
    (c as int) < 128
}

/// An uppercase English letter, `'A'` through `'Z'`.
pub open spec fn is_upper(c: char) -> bool {
    65 <= c as int <= 90
}

/// Every character of `s` lies in the ASCII range.
pub open spec fn ascii_seq(s: Seq<char>) -> bool {
    forall|i: int| 0 <= i < s.len() ==> is_ascii_char(#[trigger] s[i])
}

/// The ASCII lowercase mapping: `'A'` through `'Z'` move down to their
/// lowercase counterparts, every other character is unchanged.
pub open spec fn ascii_lower(c: char) -> char {
    if is_upper(c) {
        (((c as u8) + 32) as u8) as char
    } else {
        c
    }
}

/// `s` with every character put through the ASCII lowercase mapping.
pub open spec fn ascii_lower_all(s: Seq<char>) -> Seq<char> {
    s.map_values(|c: char| ascii_lower(c))
}

/// What `str::to_lowercase` returns: a function of the characters alone.
pub uninterp spec fn lower_of(s: Seq<char>) -> Seq<char>;

/// Relies on `str::to_lowercase`: the result depends only on the input
/// characters; characters that are already lowercase English letters
/// are left unchanged; on an ASCII string the mapping is exactly the
/// character-wise ASCII lowercase mapping.
#[verifier::external_body]
fn to_lowercase(s: &str) -> (r: String)
    ensures
        r@ == lower_of(s@),
        all_letters(s@) ==> r@ == s@,
        ascii_seq(s@) ==> r@ == ascii_lower_all(s@),
{
    s.to_lowercase()
}

/// Canonical form of a raw token: trimmed, lowercased, and stripped of
/// non-letter characters at both ends.
pub open spec fn normalize_spec(s: Seq<char>) -> Seq<char> {
    strip_end(strip_start(lower_of(trim_spec(s))))
}

/// `strip_start` keeps a suffix of its input, and a non-empty result
/// starts with a letter.
pub proof fn lemma_strip_start_shape(s: Seq<char>)
    ensures
        strip_start(s).len() <= s.len(),
        strip_start(s) == s.skip(s.len() - strip_start(s).len()),
        strip_start(s).len() > 0 ==> is_letter(strip_start(s)[0]),
    decreases s.len(),
{
    if s.len() == 0 {
        assert(s.skip(0) =~= s);
    } else if is_letter(s[0]) {
        assert(s.skip(0) =~= s);
    } else {
        lemma_strip_start_shape(s.drop_first());
        let r = strip_start(s);
        assert(s.drop_first().skip(s.drop_first().len() - r.len()) =~= s.skip(s.len() - r.len()));
    }
}

/// `strip_end` keeps a prefix of its input, and a non-empty result
/// ends with a letter.
pub proof fn lemma_strip_end_shape(s: Seq<char>)
    ensures
        strip_end(s).len() <= s.len(),
        strip_end(s) == s.take(strip_end(s).len() as int),
        strip_end(s).len() > 0 ==> is_letter(strip_end(s).last()),
    decreases s.len(),
{
    if s.len() == 0 {
        assert(s.take(0) =~= s);
    } else if is_letter(s.last()) {
        assert(s.take(s.len() as int) =~= s);
    } else {
        lemma_strip_end_shape(s.drop_last());
        assert(s.drop_last().take(strip_end(s).len() as int) =~= s.take(
            strip_end(s).len() as int,
        ));
    }
}

/// `trim_start_spec` keeps a suffix of its input.
pub proof fn lemma_trim_start_shape(s: Seq<char>)
    ensures
        trim_start_spec(s).len() <= s.len(),
        trim_start_spec(s) == s.skip(s.len() - trim_start_spec(s).len()),
    decreases s.len(),
{
    if s.len() == 0 || !is_space(s[0]) {
        assert(s.skip(0) =~= s);
    } else {
        lemma_trim_start_shape(s.drop_first());
        let r = trim_start_spec(s);
        assert(s.drop_first().skip(s.drop_first().len() - r.len()) =~= s.skip(s.len() - r.len()));
    }
}

/// `trim_end_spec` keeps a prefix of its input.
pub proof fn lemma_trim_end_shape(s: Seq<char>)
    ensures
        trim_end_spec(s).len() <= s.len(),
        trim_end_spec(s) == s.take(trim_end_spec(s).len() as int),
    decreases s.len(),
{
    if s.len() == 0 || !is_space(s.last()) {
        assert(s.take(s.len() as int) =~= s);
    } else {
        lemma_trim_end_shape(s.drop_last());
        assert(s.drop_last().take(trim_end_spec(s).len() as int) =~= s.take(
            trim_end_spec(s).len() as int,
        ));
    }
}

/// The shape of any canonicalization of an ASCII token: ASCII, no
/// uppercase English letters, and a letter at each end (or empty).
/// Canonicalizing such a string leaves it unchanged.
pub open spec fn ascii_canonical(s: Seq<char>) -> bool {
    &&& ascii_seq(s)
    &&& forall|i: int| 0 <= i < s.len() ==> !is_upper(#[trigger] s[i])
    &&& (s.len() == 0 || (is_letter(s[0]) && is_letter(s[s.len() - 1])))
}

/// Canonicalize a raw token. A token that is already a canonical word
/// comes back unchanged; for an ASCII token the whole result is pinned
/// character by character, it is itself ASCII-canonical, and an
/// ASCII-canonical token comes back unchanged — so canonicalization is
/// idempotent on every ASCII input.
pub fn parse_word(word: &str) -> (r: String)
    ensures
        r@ == normalize_spec(word@),
        valid_word(word@) ==> r@ == word@,
        ascii_seq(word@) ==> r@ == strip_end(strip_start(ascii_lower_all(trim_spec(word@)))),
        ascii_seq(word@) ==> ascii_canonical(r@),
        ascii_canonical(word@) ==> r@ == word@,
{
    proof {
        if valid_word(word@) || (ascii_canonical(word@) && word@.len() > 0) {
            assert(is_letter(word@[0]) && is_letter(word@[word@.len() - 1]));
            assert(!is_space(word@[0]));
            assert(word@.last() == word@[word@.len() - 1]);
            assert(trim_start_spec(word@) == word@);
            assert(trim_end_spec(word@) == word@);
        }
        if ascii_canonical(word@) && word@.len() == 0 {
            assert(trim_start_spec(word@) == word@);
            assert(trim_end_spec(word@) == word@);
        }
        if ascii_seq(word@) {
            lemma_trim_start_shape(word@);
            lemma_trim_end_shape(trim_start_spec(word@));
            assert(ascii_seq(trim_spec(word@))) by {
                let a = trim_start_spec(word@);
                let b = trim_spec(word@);
                assert forall|i: int| 0 <= i < b.len() implies is_ascii_char(
                    #[trigger] b[i],
                ) by {
                    assert(b[i] == a[i]);
                    assert(a[i] == word@[word@.len() - a.len() + i]);
                }
            }
        }
    }
    let t = trim(word);
    let low = to_lowercase(t);
    proof {
        if valid_word(word@) {
            assert(strip_start(low@) == low@);
            assert(strip_end(low@) == low@);
        }
        if ascii_canonical(word@) {
            // no character is an uppercase letter, so the ASCII
            // lowercase mapping is the identity
            assert(low@ =~= word@) by {
                assert(low@ == ascii_lower_all(word@));
                assert forall|i: int| 0 <= i < word@.len() implies ascii_lower_all(word@)[i]
                    == word@[i] by {
                    assert(ascii_lower_all(word@)[i] == ascii_lower(word@[i]));
                }
            }
            if word@.len() > 0 {
                assert(strip_start(low@) == low@);
                assert(strip_end(low@) == low@);
            }
        }
        if ascii_seq(word@) {
            // the lowered string is ASCII and free of uppercase letters
            assert forall|i: int| 0 <= i < low@.len() implies is_ascii_char(#[trigger] low@[i])
                && !is_upper(low@[i]) by {
                assert(low@[i] == ascii_lower(trim_spec(word@)[i]));
            }
        }
    }
    let stripped = Str::rm_start_end(low.as_str());
    proof {
        if ascii_seq(word@) {
            let m = low@;
            lemma_strip_start_shape(m);
            let a = strip_start(m);
            lemma_strip_end_shape(a);
            let b = strip_end(a);
            assert(ascii_canonical(b)) by {
                assert forall|i: int| 0 <= i < b.len() implies is_ascii_char(#[trigger] b[i])
                    && !is_upper(b[i]) by {
                    assert(b[i] == a[i]);
                    assert(a[i] == m[m.len() - a.len() + i]);
                }
                if b.len() > 0 {
                    assert(b[0] == a[0]);
                    assert(is_letter(a[0]));
                    assert(b[b.len() - 1] == b.last());
                    assert(is_letter(b.last()));
                }
            }
        }
    }
    stripped.to_owned()
}

/// Length in bytes of the UTF-8 encoding of `s`.
pub open spec fn byte_len(s: Seq<char>) -> nat {
    vstd::utf8::encode_utf8(s).len()
}

/// The word ends in "ing" and is longer than the suffix itself.
pub open spec fn ends_ing(s: Seq<char>) -> bool {
    s.len() > 3 && s[s.len() - 3] == 'i' && s[s.len() - 2] == 'n' && s[s.len() - 1] == 'g'
}

/// The word ends in "ed" and is longer than the suffix itself.
pub open spec fn ends_ed(s: Seq<char>) -> bool {
    s.len() > 2 && s[s.len() - 2] == 'e' && s[s.len() - 1] == 'd'
}

/// The word ends in a single "s": an "ss" ending does not count.
pub open spec fn ends_plural(s: Seq<char>) -> bool {
    s.len() > 2 && s[s.len() - 1] == 's' && s[s.len() - 2] != 's'
}

/// The word is at least four characters long and carries the non-empty
/// pattern `p` as its suffix (`anchor_end`) or prefix.
pub open spec fn matches_pattern(s: Seq<char>, p: Seq<char>, anchor_end: bool) -> bool {
    &&& s.len() >= 4
    &&& p.len() > 0
    &&& p.len() <= s.len()
    &&& if anchor_end {
        s.subrange(s.len() - p.len(), s.len() as int) == p
    } else {
        s.subrange(0, p.len() as int) == p
    }
}

/// Character-wise string equality.
pub fn str_eq(a: &str, b: &str) -> (r: bool)
    ensures
        r == (a@ == b@),
{
    let alen = a.unicode_len();
    let blen = b.unicode_len();
    if alen != blen {
        proof {
            assert(a@ != b@);
        }
        return false;
    }
    let mut i: usize = 0;
    while i < alen
        invariant
            0 <= i <= alen,
            alen == a@.len(),
            alen == b@.len(),
            forall|j: int| 0 <= j < i ==> a@[j] == b@[j],
        decreases alen - i,
    {
        if a.get_char(i) != b.get_char(i) {
            proof {
                assert(a@[i as int] != b@[i as int]);
            }
            return false;
        }
        i = i + 1;
    }
    proof {
        assert(a@ =~= b@);
    }
    true
}

pub struct Str;

impl Str {
    /// Remove the maximal prefix of non-letter characters.
    pub fn rm_start(input: &str) -> (r: &str)
        ensures
            r@ == strip_start(input@),
    {
        let len = input.unicode_len();
        let mut start: usize = 0;
        proof {
            assert(input@.skip(0) =~= input@);
        }
        while start < len && !English::is_range(input.get_char(start) as i32)
            invariant
                0 <= start <= len,
                len == input@.len(),
                strip_start(input@) == strip_start(input@.skip(start as int)),
            decreases len - start,
        {
            proof {
                assert(input@.skip(start as int).drop_first() =~= input@.skip(start as int + 1));
            }
            start = start + 1;
        }
        proof {
            if start < len {
                assert(strip_start(input@.skip(start as int)) == input@.skip(start as int));
            } else {
                assert(input@.skip(start as int) =~= Seq::<char>::empty());
            }
        }
        input.substring_char(start, len)
    }

    /// Remove the maximal suffix of non-letter characters.
    pub fn rm_end(input: &str) -> (r: &str)
        ensures
            r@ == strip_end(input@),
    {
        let len = input.unicode_len();
        let mut end: usize = len;
        proof {
            assert(input@.take(len as int) =~= input@);
        }
        while end > 0 && !English::is_range(input.get_char(end - 1) as i32)
            invariant
                0 <= end <= len,
                len == input@.len(),
                strip_end(input@) == strip_end(input@.take(end as int)),
            decreases end,
        {
            proof {
                assert(input@.take(end as int).drop_last() =~= input@.take(end as int - 1));
                assert(input@.take(end as int).last() == input@[end as int - 1]);
            }
            end = end - 1;
        }
        proof {
            if end > 0 {
                assert(input@.take(end as int).last() == input@[end as int - 1]);
                assert(strip_end(input@.take(end as int)) == input@.take(end as int));
            } else {
                assert(input@.take(0) =~= Seq::<char>::empty());
            }
        }
        input.substring_char(0, end)
    }

    /// Remove non-letter characters from both ends.
    pub fn rm_start_end(input: &str) -> (r: &str)
        ensures
            r@ == strip_end(strip_start(input@)),
    {
        Str::rm_end(Str::rm_start(input))
    }

    /// A non-empty string of lowercase English letters.
    pub fn valid_english(input: &str) -> (r: bool)
        ensures
            r == valid_word(input@),
    {
        let len = input.unicode_len();
        let mut i: usize = 0;
        while i < len
            invariant
                0 <= i <= len,
                len == input@.len(),
                forall|j: int| 0 <= j < i ==> is_letter(#[trigger] input@[j]),
            decreases len - i,
        {
            if !English::is_range(input.get_char(i) as i32) {
                return false;
            }
            i = i + 1;
        }
        len > 0
    }

    /// The word ends in "ing".
    pub fn is_ing(input: &str) -> (r: bool)
        ensures
            r == ends_ing(input@),
    {
        let len = input.unicode_len();
        if len <= 3 {
            return false;
        }
        input.get_char(len - 3) == 'i' && input.get_char(len - 2) == 'n' && input.get_char(len - 1)
            == 'g'
    }

    /// The word ends in "ed".
    pub fn is_ed(input: &str) -> (r: bool)
        ensures
            r == ends_ed(input@),
    {
        let len = input.unicode_len();
        if len <= 2 {
            return false;
        }
        input.get_char(len - 2) == 'e' && input.get_char(len - 1) == 'd'
    }

    /// The word ends in a plural "s" (but not "ss").
    pub fn is_plural(input: &str) -> (r: bool)
        ensures
            r == ends_plural(input@),
    {
        let len = input.unicode_len();
        if len <= 2 {
            return false;
        }
        input.get_char(len - 1) == 's' && input.get_char(len - 2) != 's'
    }

    /// The word carries `pattern` as suffix (`anchor_end`) or prefix.
    pub fn is_match(input: &str, pattern: &str, anchor_end: bool) -> (r: bool)
        ensures
            r == matches_pattern(input@, pattern@, anchor_end),
    {
        let len = input.unicode_len();
        let plen = pattern.unicode_len();
        if len < 4 || plen == 0 || plen > len {
            return false;
        }
        if anchor_end {
            str_eq(input.substring_char(len - plen, len), pattern)
        } else {
            str_eq(input.substring_char(0, plen), pattern)
        }
    }

    /// The word itself when its length lies within the accepted bounds,
    /// nothing otherwise.
    pub fn get_word(word: &str) -> (r: Option<&str>)
        ensures
            r is Some <==> 2 <= word@.len() <= 25,
            r matches Some(w) ==> w == word,
    {
        if crate::rule::is_min(word) || crate::rule::is_max(word) {
            return None;
        }
        Some(word)
    }

    /// Length in bytes of the UTF-8 encoding.
    pub fn utf_count(input: &str) -> (r: usize)
        ensures
            r == byte_len(input@) as usize,
    {
        input.len()
    }
}

} // verus!
