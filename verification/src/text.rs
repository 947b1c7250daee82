//! Text primitives the request parser and the route table are built on:
//! locating a pattern inside a character sequence, splitting on a separator,
//! trimming surrounding whitespace, and reading a decimal integer.

use vstd::prelude::*;

verus! {

/// The pattern `pat` occurs in `s` starting at position `i`.
pub open spec fn occurs_at(s: Seq<char>, pat: Seq<char>, i: int) -> bool {
    0 <= i && i + pat.len() <= s.len() && s.subrange(i, i + pat.len()) == pat
}

/// The pattern `pat` occurs somewhere in `s`.
pub open spec fn contains_sub(s: Seq<char>, pat: Seq<char>) -> bool {
    exists|i: int| occurs_at(s, pat, i)
}

/// The first position at or after `i` where a nonempty `pat` occurs in `s`,
/// if any.
pub open spec fn find_from(s: Seq<char>, pat: Seq<char>, i: int) -> Option<int>
    decreases s.len() - i,
{
    if pat.len() <= 0 || i + pat.len() > s.len() {
        None
    } else if occurs_at(s, pat, i) {
        Some(i)
    } else {
        find_from(s, pat, i + 1)
    }
}

/// The first position where `pat` occurs in `s`, if any.
pub open spec fn find_first(s: Seq<char>, pat: Seq<char>) -> Option<int> {
    find_from(s, pat, 0)
}

/// What `find_from` returns: the first occurrence at or after `i`,
/// or `None` when there is none.
pub proof fn lemma_find_from_props(s: Seq<char>, pat: Seq<char>, i: int)
    requires
        pat.len() > 0,
    ensures
        match find_from(s, pat, i) {
            Some(j) => i <= j && occurs_at(s, pat, j) && forall|k: int|
                i <= k < j ==> !occurs_at(s, pat, k),
            None => forall|k: int| i <= k ==> !occurs_at(s, pat, k),
        },
    decreases s.len() - i,
{
    if i + pat.len() > s.len() {
        assert forall|k: int| i <= k implies !occurs_at(s, pat, k) by {
            if occurs_at(s, pat, k) {
                assert(0 <= k && k + pat.len() <= s.len());
            }
        }
    } else if occurs_at(s, pat, i) {
    } else {
        lemma_find_from_props(s, pat, i + 1);
    }
}

/// If `pat` occurs nowhere at or after `i`, `find_from` returns `None`.
pub proof fn lemma_find_from_none(s: Seq<char>, pat: Seq<char>, i: int)
    requires
        forall|k: int| i <= k ==> !occurs_at(s, pat, k),
    ensures
        find_from(s, pat, i) == None::<int>,
{
    if pat.len() > 0 {
        lemma_find_from_props(s, pat, i);
        if let Some(j) = find_from(s, pat, i) {
            assert(occurs_at(s, pat, j));
        }
    }
}

/// An occurrence at `j` with none before it pins `find_from` down to `Some(j)`.
pub proof fn lemma_find_from_some(s: Seq<char>, pat: Seq<char>, i: int, j: int)
    requires
        pat.len() > 0,
        0 <= i <= j,
        occurs_at(s, pat, j),
        forall|k: int| i <= k < j ==> !occurs_at(s, pat, k),
    ensures
        find_from(s, pat, i) == Some(j),
    decreases j - i,
{
    if i == j {
    } else {
        assert(!occurs_at(s, pat, i));
        lemma_find_from_some(s, pat, i + 1, j);
    }
}

/// In a prefix where the pattern's first character never appears, the
/// pattern itself never occurs.
pub proof fn lemma_no_occurrence_without_first_char(
    s: Seq<char>,
    pat: Seq<char>,
    bound: int,
)
    requires
        pat.len() > 0,
        forall|k: int| 0 <= k < bound && k < s.len() ==> s[k] != pat[0],
    ensures
        forall|k: int| k < bound ==> !occurs_at(s, pat, k),
{
    assert forall|k: int| k < bound implies !occurs_at(s, pat, k) by {
        if occurs_at(s, pat, k) {
            assert(s.subrange(k, k + pat.len())[0] == pat[0]);
            assert(s[k] == pat[0]);
        }
    }
}

/// Whether position `i` of `s` may hold the start of an occurrence of `pat`
/// is decided by comparing the characters one by one.
pub fn occurs_at_exec(s: &str, pat: &str, i: usize) -> (b: bool)
    requires
        i + pat@.len() <= s@.len(),
        s@.len() <= usize::MAX,
    ensures
        b == occurs_at(s@, pat@, i as int),
{
    let plen = pat.unicode_len();
    let mut k: usize = 0;
    while k < plen
        invariant
            k <= plen,
            plen == pat@.len(),
            i + plen <= s@.len(),
            s@.len() <= usize::MAX,
            forall|j: int| 0 <= j < k ==> s@[i + j] == pat@[j],
        decreases plen - k,
    {
        if s.get_char(i + k) != pat.get_char(k) {
            proof {
                assert(s@.subrange(i as int, i + plen) != pat@) by {
                    assert(s@.subrange(i as int, i + plen)[k as int] == s@[i + k]);
                }
            }
            return false;
        }
        k += 1;
    }
    proof {
        assert(s@.subrange(i as int, i + plen) =~= pat@);
    }
    true
}

/// The first occurrence of `pat` in `s` at or after `from`, found by a
/// forward scan.
pub fn find_str(s: &str, pat: &str, from: usize) -> (r: Option<usize>)
    requires
        pat@.len() > 0,
    ensures
        match r {
            Some(j) => find_from(s@, pat@, from as int) == Some(j as int),
            None => find_from(s@, pat@, from as int) == None::<int>,
        },
{
    let n = s.unicode_len();
    let plen = pat.unicode_len();
    if plen > n || from > n - plen {
        proof {
            lemma_find_from_props(s@, pat@, from as int);
            if let Some(j) = find_from(s@, pat@, from as int) {
                assert(occurs_at(s@, pat@, j));
            }
        }
        return None;
    }
    let mut i: usize = from;
    while i <= n - plen
        invariant
            from <= i,
            1 <= plen <= n,
            n == s@.len(),
            plen == pat@.len(),
            find_from(s@, pat@, from as int) == find_from(s@, pat@, i as int),
        decreases n - i,
    {
        if occurs_at_exec(s, pat, i) {
            return Some(i);
        }
        i += 1;
    }
    proof {
        lemma_find_from_props(s@, pat@, i as int);
        if let Some(j) = find_from(s@, pat@, i as int) {
            assert(occurs_at(s@, pat@, j));
        }
    }
    None
}

/// Splitting `s` on every occurrence of a nonempty separator `pat`, in order.
/// The result always has at least one element; separators are not kept.
pub open spec fn split_on(s: Seq<char>, pat: Seq<char>) -> Seq<Seq<char>>
    decreases s.len(),
        when pat.len() > 0
        via split_on_decreases
{
    match find_first(s, pat) {
        None => seq![s],
        Some(i) => seq![s.subrange(0, i)] + split_on(
            s.subrange(i + pat.len(), s.len() as int),
            pat,
        ),
    }
}

#[via_fn]
proof fn split_on_decreases(s: Seq<char>, pat: Seq<char>) {
    lemma_find_from_props(s, pat, 0);
}

/// A split has at least one part.
pub proof fn lemma_split_on_len(s: Seq<char>, pat: Seq<char>)
    requires
        pat.len() > 0,
    ensures
        split_on(s, pat).len() >= 1,
{
    if let Some(i) = find_first(s, pat) {
        assert(split_on(s, pat) == seq![s.subrange(0, i)] + split_on(
            s.subrange(i + pat.len(), s.len() as int),
            pat,
        ));
    }
}

/// Split a string slice on every occurrence of a nonempty separator.
pub fn split_str(s: &str, pat: &str) -> (r: Vec<String>)
    requires
        pat@.len() > 0,
    ensures
        r@.len() == split_on(s@, pat@).len(),
        forall|i: int| 0 <= i < r@.len() ==> #[trigger] r@[i]@ == split_on(s@, pat@)[i],
{
    let plen = pat.unicode_len();
    let mut parts: Vec<String> = Vec::new();
    let mut cur: &str = s;
    loop
        invariant
            plen == pat@.len(),
            plen > 0,
            split_on(s@, pat@).len() == parts@.len() + split_on(cur@, pat@).len(),
            forall|i: int| 0 <= i < parts@.len() ==> #[trigger] parts@[i]@ == split_on(s@, pat@)[i],
            forall|i: int|
                0 <= i < split_on(cur@, pat@).len() ==> #[trigger] split_on(cur@, pat@)[i]
                    == split_on(s@, pat@)[parts@.len() + i],
        decreases cur@.len(),
    {
        let cur_len = cur.unicode_len();
        let found = find_str(cur, pat, 0);
        match found {
            Some(i) => {
                proof {
                    lemma_find_from_props(cur@, pat@, 0);
                }
                let piece = cur.substring_char(0, i).to_owned();
                let ghost old_parts = parts@;
                let ghost old_cur = cur@;
                parts.push(piece);
                cur = cur.substring_char(i + plen, cur_len);
                proof {
                    assert(split_on(old_cur, pat@) == seq![old_cur.subrange(0, i as int)]
                        + split_on(cur@, pat@));
                    assert forall|k: int| 0 <= k < parts@.len() implies #[trigger] parts@[k]@
                        == split_on(s@, pat@)[k] by {
                        if k < old_parts.len() {
                        } else {
                            assert(split_on(old_cur, pat@)[0] == old_cur.subrange(0, i as int));
                        }
                    }
                    assert forall|k: int| 0 <= k < split_on(cur@, pat@).len() implies #[trigger]
                        split_on(cur@, pat@)[k] == split_on(s@, pat@)[parts@.len() + k] by {
                        assert(split_on(old_cur, pat@)[k + 1] == split_on(cur@, pat@)[k]);
                        assert(split_on(old_cur, pat@)[k + 1] == split_on(s@, pat@)[old_parts.len()
                            + (k + 1)]);
                    }
                }
            }
            None => {
                let ghost old_parts = parts@;
                parts.push(cur.to_owned());
                proof {
                    assert(split_on(cur@, pat@) == seq![cur@]);
                    assert(split_on(cur@, pat@)[0] == cur@);
                    assert(split_on(cur@, pat@)[0] == split_on(s@, pat@)[old_parts.len() as int]);
                    assert(parts@[old_parts.len() as int]@ == split_on(s@, pat@)[
                        old_parts.len() as int]);
                }
                return parts;
            }
        }
    }
}

/// The whitespace that trimming strips from header names, header values and
/// numeric fields: the Unicode white-space characters.
pub open spec fn is_whitespace_char(c: char) -> bool {
    ||| c == '\u{0009}'
    ||| c == '\u{000A}'
    ||| c == '\u{000B}'
    ||| c == '\u{000C}'
    ||| c == '\u{000D}'
    ||| c == ' '
    ||| c == '\u{0085}'
    ||| c == '\u{00A0}'
    ||| c == '\u{1680}'
    ||| ('\u{2000}' <= c && c <= '\u{200A}')
    ||| c == '\u{2028}'
    ||| c == '\u{2029}'
    ||| c == '\u{202F}'
    ||| c == '\u{205F}'
    ||| c == '\u{3000}'
}

/// `s` with leading whitespace removed.
pub open spec fn trim_start_spec(s: Seq<char>) -> Seq<char>
    decreases s.len(),
{
    if s.len() > 0 && is_whitespace_char(s[0]) {
        trim_start_spec(s.drop_first())
    } else {
        s
    }
}

/// `s` with trailing whitespace removed.
pub open spec fn trim_end_spec(s: Seq<char>) -> Seq<char>
    decreases s.len(),
{
    if s.len() > 0 && is_whitespace_char(s.last()) {
        trim_end_spec(s.drop_last())
    } else {
        s
    }
}

/// `s` with surrounding whitespace removed.
pub open spec fn trim_spec(s: Seq<char>) -> Seq<char> {
    trim_end_spec(trim_start_spec(s))
}

proof fn lemma_trim_start_index(s: Seq<char>, k: int)
    requires
        0 <= k <= s.len(),
        forall|j: int| 0 <= j < k ==> is_whitespace_char(s[j]),
        k == s.len() || !is_whitespace_char(s[k]),
    ensures
        trim_start_spec(s) == s.subrange(k, s.len() as int),
    decreases s.len(),
{
    if s.len() > 0 && is_whitespace_char(s[0]) {
        lemma_trim_start_index(s.drop_first(), k - 1);
        assert(s.drop_first().subrange(k - 1, s.len() - 1) =~= s.subrange(k, s.len() as int));
    } else {
        assert(s.subrange(0, s.len() as int) =~= s);
    }
}

proof fn lemma_trim_end_index(s: Seq<char>, k: int)
    requires
        0 <= k <= s.len(),
        forall|j: int| k <= j < s.len() ==> is_whitespace_char(s[j]),
        k == 0 || !is_whitespace_char(s[k - 1]),
    ensures
        trim_end_spec(s) == s.subrange(0, k),
    decreases s.len(),
{
    if s.len() > 0 && is_whitespace_char(s.last()) {
        lemma_trim_end_index(s.drop_last(), k);
        assert(s.drop_last().subrange(0, k) =~= s.subrange(0, k));
    } else {
        assert(s.subrange(0, s.len() as int) =~= s);
    }
}

fn is_whitespace_char_exec(c: char) -> (b: bool)
    ensures
        b == is_whitespace_char(c),
{
    c == '\u{0009}' || c == '\u{000A}' || c == '\u{000B}' || c == '\u{000C}' || c == '\u{000D}'
        || c == ' ' || c == '\u{0085}' || c == '\u{00A0}' || c == '\u{1680}' || ('\u{2000}' <= c
        && c <= '\u{200A}') || c == '\u{2028}' || c == '\u{2029}' || c == '\u{202F}'
        || c == '\u{205F}' || c == '\u{3000}'
}

/// Strip surrounding whitespace from a string slice.
pub fn trim_str(s: &str) -> (r: &str)
    ensures
        r@ == trim_spec(s@),
{
    let n = s.unicode_len();
    let mut a: usize = 0;
    while a < n && is_whitespace_char_exec(s.get_char(a))
        invariant
            a <= n,
            n == s@.len(),
            forall|j: int| 0 <= j < a ==> is_whitespace_char(s@[j]),
        decreases n - a,
    {
        a += 1;
    }
    let mut b: usize = n;
    while b > a && is_whitespace_char_exec(s.get_char(b - 1))
        invariant
            a <= b <= n,
            n == s@.len(),
            forall|j: int| b <= j < n ==> is_whitespace_char(s@[j]),
        decreases b,
    {
        b -= 1;
    }
    let r = s.substring_char(a, b);
    proof {
        lemma_trim_start_index(s@, a as int);
        let t = s@.subrange(a as int, n as int);
        lemma_trim_end_index(t, b - a);
        assert(t.subrange(0, b - a) =~= s@.subrange(a as int, b as int));
    }
    r
}

/// A decimal digit.
pub open spec fn is_digit(c: char) -> bool {
    '0' <= c && c <= '9'
}

/// The numeric value of a decimal digit.
pub open spec fn digit_val(c: char) -> int {
    c as int - '0' as int
}

/// The value of a run of decimal digits, most significant first.
pub open spec fn digits_val(s: Seq<char>) -> int
    decreases s.len(),
{
    if s.len() == 0 {
        0
    } else {
        digits_val(s.drop_last()) * 10 + digit_val(s.last())
    }
}

/// A nonempty run of decimal digits.
pub open spec fn all_digits(s: Seq<char>) -> bool {
    s.len() > 0 && forall|i: int| 0 <= i < s.len() ==> is_digit(#[trigger] s[i])
}

/// What a strict decimal read of a 32-bit signed integer yields: an optional
/// single sign, at least one digit, nothing else, and a value in range.
pub open spec fn decimal_i32_spec(s: Seq<char>) -> Option<int> {
    if s.len() > 0 && (s[0] == '+' || s[0] == '-') {
        let mag = s.drop_first();
        if all_digits(mag) {
            let v: int = if s[0] == '-' {
                -digits_val(mag)
            } else {
                digits_val(mag)
            };
            if i32::MIN <= v <= i32::MAX {
                Some(v)
            } else {
                None
            }
        } else {
            None
        }
    } else if all_digits(s) {
        if digits_val(s) <= i32::MAX {
            Some(digits_val(s))
        } else {
            None
        }
    } else {
        None
    }
}

proof fn lemma_digits_val_nonneg(s: Seq<char>)
    requires
        forall|i: int| 0 <= i < s.len() ==> is_digit(#[trigger] s[i]),
    ensures
        digits_val(s) >= 0,
    decreases s.len(),
{
    if s.len() > 0 {
        lemma_digits_val_nonneg(s.drop_last());
    }
}

proof fn lemma_digits_val_monotone(s: Seq<char>, k: int)
    requires
        0 <= k <= s.len(),
        forall|i: int| 0 <= i < s.len() ==> is_digit(#[trigger] s[i]),
    ensures
        digits_val(s.subrange(0, k)) <= digits_val(s),
    decreases s.len() - k,
{
    if k == s.len() {
        assert(s.subrange(0, k) =~= s);
    } else {
        assert(s.subrange(0, k + 1).drop_last() =~= s.subrange(0, k));
        assert(forall|i: int| 0 <= i < k ==> is_digit(#[trigger] s.subrange(0, k)[i]));
        lemma_digits_val_nonneg(s.subrange(0, k));
        assert(digits_val(s.subrange(0, k + 1)) == digits_val(s.subrange(0, k)) * 10 + digit_val(
            s[k],
        ));
        lemma_digits_val_monotone(s, k + 1);
    }
}

/// Read a 32-bit signed integer from its strict decimal text: an optional
/// single sign, then digits only.
pub fn parse_i32(s: &str) -> (r: Option<i32>)
    ensures
        match r {
            Some(v) => decimal_i32_spec(s@) == Some(v as int),
            None => decimal_i32_spec(s@) == None::<int>,
        },
{
    let n = s.unicode_len();
    if n == 0 {
        return None;
    }
    let c0 = s.get_char(0);
    let neg = c0 == '-';
    let signed = c0 == '-' || c0 == '+';
    let start: usize = if signed {
        1
    } else {
        0
    };
    if start == n {
        return None;
    }
    let bound: u64 = if neg {
        2147483648
    } else {
        2147483647
    };
    let ghost mag: Seq<char> = if signed {
        s@.drop_first()
    } else {
        s@
    };
    proof {
        assert(mag =~= s@.subrange(start as int, n as int));
    }
    let mut acc: u64 = 0;
    let mut i: usize = start;
    while i < n
        invariant
            start <= i <= n,
            start < n,
            n == s@.len(),
            start == if signed { 1int } else { 0int },
            neg ==> signed,
            signed ==> (s@[0] == '+' || s@[0] == '-'),
            neg == (s@[0] == '-'),
            !signed ==> !(s@[0] == '+' || s@[0] == '-'),
            bound == if neg { 2147483648u64 } else { 2147483647u64 },
            mag == s@.subrange(start as int, n as int),
            forall|j: int| start <= j < i ==> is_digit(#[trigger] s@[j]),
            acc == digits_val(s@.subrange(start as int, i as int)),
            acc <= bound,
        decreases n - i,
    {
        let c = s.get_char(i);
        let cu = c as u32;
        if cu < 48 || cu > 57 {
            proof {
                if signed {
                    assert(s@.drop_first() =~= mag);
                } else {
                    assert(s@.subrange(0, s@.len() as int) =~= s@);
                }
                assert(!is_digit(s@[i as int]));
                assert(mag[i - start] == s@[i as int]);
                assert(!all_digits(mag));
            }
            return None;
        }
        let d: u64 = (cu - 48) as u64;
        proof {
            assert(is_digit(s@[i as int]));
            assert(d == digit_val(s@[i as int]));
        }
        let next = acc * 10 + d;
        if next > bound {
            proof {
                if signed {
                    assert(s@.drop_first() =~= mag);
                } else {
                    assert(s@.subrange(0, s@.len() as int) =~= s@);
                }
                assert(s@.subrange(start as int, i + 1).drop_last() =~= s@.subrange(
                    start as int,
                    i as int,
                ));
                assert(digits_val(s@.subrange(start as int, i + 1)) == next);
                if all_digits(mag) {
                    assert(mag.subrange(0, i + 1 - start) =~= s@.subrange(start as int, i + 1));
                    lemma_digits_val_monotone(mag, i + 1 - start);
                    assert(digits_val(mag) >= next);
                }
            }
            return None;
        }
        proof {
            assert(s@.subrange(start as int, i + 1).drop_last() =~= s@.subrange(
                start as int,
                i as int,
            ));
        }
        acc = next;
        i += 1;
    }
    proof {
        if signed {
            assert(s@.drop_first() =~= mag);
        } else {
            assert(s@.subrange(0, s@.len() as int) =~= s@);
        }
        assert(mag =~= s@.subrange(start as int, n as int));
        assert(all_digits(mag));
        assert(acc == digits_val(mag));
    }
    if neg {
        let v: i64 = -(acc as i64);
        Some(v as i32)
    } else {
        Some(acc as i32)
    }
}

/// Whether `s` contains `pat` as a contiguous substring.
pub fn contains_str(s: &str, pat: &str) -> (b: bool)
    ensures
        b == contains_sub(s@, pat@),
{
    if pat.unicode_len() == 0 {
        proof {
            assert(s@.subrange(0, 0) =~= pat@);
            assert(occurs_at(s@, pat@, 0));
        }
        return true;
    }
    match find_str(s, pat, 0) {
        Some(_) => {
            proof {
                lemma_find_from_props(s@, pat@, 0);
            }
            true
        },
        None => {
            proof {
                lemma_find_from_props(s@, pat@, 0);
                assert forall|k: int| !occurs_at(s@, pat@, k) by {
                    if occurs_at(s@, pat@, k) {
                        assert(0 <= k);
                    }
                }
            }
            false
        },
    }
}

/// Character-for-character equality of two string slices.
pub fn str_eq(a: &str, b: &str) -> (r: bool)
    ensures
        r == (a@ == b@),
{
    let n = a.unicode_len();
    if n != b.unicode_len() {
        return false;
    }
    let mut i: usize = 0;
    while i < n
        invariant
            i <= n,
            n == a@.len(),
            n == b@.len(),
            forall|j: int| 0 <= j < i ==> a@[j] == b@[j],
        decreases n - i,
    {
        if a.get_char(i) != b.get_char(i) {
            return false;
        }
        i += 1;
    }
    proof {
        assert(a@ =~= b@);
    }
    true
}

} // verus!
