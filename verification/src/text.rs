//! Verified text utilities: comparison, trimming, splitting, and the
//! digit-level reading and writing of numbers.

use vstd::prelude::*;
use vstd::string::StrSliceExecFns;
use vstd::string::StringExecFns;

verus! {

/// Whether two string slices hold the same characters.
pub(crate) fn str_eq(a: &str, b: &str) -> (r: bool)
    ensures
        r == (a@ == b@),
{
    let a_len = a.unicode_len();
    let b_len = b.unicode_len();
    if a_len != b_len {
        return false;
    }
    let mut i: usize = 0;
    while i < a_len
        invariant
            i <= a_len,
            a_len == a@.len(),
            a_len == b@.len(),
            forall|j: int| 0 <= j < i ==> a@[j] == b@[j],
        decreases a_len - i,
    {
        if a.get_char(i) != b.get_char(i) {
            return false;
        }
        i = i + 1;
    }
    proof {
        assert(a@ =~= b@);
    }
    true
}

/// Whitespace that field trimming removes.
pub open spec fn is_space(c: char) -> bool {
    c == ' ' || c == '\t' || c == '\r'
}

/// Exec mirror of `is_space`.
fn is_space_char(c: char) -> (r: bool)
    ensures
        r == is_space(c),
{
    c == ' ' || c == '\t' || c == '\r'
}

/// A sequence split at every occurrence of `sep`: the separators are
/// dropped, and n separators yield n + 1 (possibly empty) parts.
pub open spec fn split_seq(s: Seq<char>, sep: char) -> Seq<Seq<char>>
    decreases s.len(),
{
    if s.len() == 0 {
        seq![Seq::empty()]
    } else {
        let rest = split_seq(s.drop_last(), sep);
        if s.last() == sep {
            rest.push(Seq::empty())
        } else {
            rest.update(rest.len() - 1, rest.last().push(s.last()))
        }
    }
}

/// A split has one part more than its separators.
proof fn lemma_split_seq_nonempty(s: Seq<char>, sep: char)
    ensures
        split_seq(s, sep).len() >= 1,
    decreases s.len(),
{
    if s.len() > 0 {
        lemma_split_seq_nonempty(s.drop_last(), sep);
    }
}

/// Splits a string at every occurrence of `sep`.
pub(crate) fn split_str(s: &str, sep: char) -> (r: Vec<String>)
    ensures
        r@.len() == split_seq(s@, sep).len(),
        forall|k: int| 0 <= k < r@.len() ==> (#[trigger] r@[k])@ == split_seq(s@, sep)[k],
{
    let len = s.unicode_len();
    let mut parts: Vec<String> = Vec::new();
    let mut current = String::new();
    let mut i: usize = 0;
    while i < len
        invariant
            i <= len,
            len == s@.len(),
            parts@.len() + 1 == split_seq(s@.take(i as int), sep).len(),
            forall|k: int|
                0 <= k < parts@.len() ==> (#[trigger] parts@[k])@ == split_seq(
                    s@.take(i as int),
                    sep,
                )[k],
            current@ == split_seq(s@.take(i as int), sep).last(),
        decreases len - i,
    {
        let c = s.get_char(i);
        proof {
            assert(s@.take(i as int + 1).drop_last() =~= s@.take(i as int));
            assert(s@.take(i as int + 1).last() == s@[i as int]);
            lemma_split_seq_nonempty(s@.take(i as int), sep);
        }
        if c == sep {
            parts.push(current);
            current = String::new();
        } else {
            current.append(s.substring_char(i, i + 1));
            proof {
                assert(s@.subrange(i as int, i as int + 1) =~= seq![s@[i as int]]);
            }
        }
        i = i + 1;
    }
    proof {
        assert(s@.take(len as int) =~= s@);
    }
    parts.push(current);
    parts
}

/// `s` without leading whitespace.
pub open spec fn trim_front(s: Seq<char>) -> Seq<char>
    decreases s.len(),
{
    if s.len() > 0 && is_space(s[0]) {
        trim_front(s.drop_first())
    } else {
        s
    }
}

/// `s` without trailing whitespace.
pub open spec fn trim_back(s: Seq<char>) -> Seq<char>
    decreases s.len(),
{
    if s.len() > 0 && is_space(s.last()) {
        trim_back(s.drop_last())
    } else {
        s
    }
}

/// `s` without leading or trailing whitespace.
pub open spec fn trim(s: Seq<char>) -> Seq<char> {
    trim_back(trim_front(s))
}

/// Removes leading and trailing whitespace.
pub(crate) fn trim_str<'a>(s: &'a str) -> (r: &'a str)
    ensures
        r@ == trim(s@),
{
    let len = s.unicode_len();
    proof {
        assert(s@.skip(0) =~= s@);
    }
    let mut start: usize = 0;
    while start < len && is_space_char(s.get_char(start))
        invariant
            start <= len,
            len == s@.len(),
            trim_front(s@) == trim_front(s@.skip(start as int)),
        decreases len - start,
    {
        proof {
            assert(s@.skip(start as int).drop_first() =~= s@.skip(start as int + 1));
            assert(s@.skip(start as int)[0] == s@[start as int]);
        }
        start = start + 1;
    }
    proof {
        assert(trim_front(s@) == s@.skip(start as int));
    }
    let mut end: usize = len;
    while end > start && is_space_char(s.get_char(end - 1))
        invariant
            start <= end <= len,
            len == s@.len(),
            trim_front(s@) == s@.skip(start as int),
            trim_back(s@.skip(start as int)) == trim_back(
                s@.subrange(start as int, end as int),
            ),
        decreases end,
    {
        proof {
            assert(s@.subrange(start as int, end as int).drop_last() =~= s@.subrange(
                start as int,
                end as int - 1,
            ));
            assert(s@.subrange(start as int, end as int).last() == s@[end as int - 1]);
        }
        end = end - 1;
    }
    proof {
        assert(s@.skip(start as int) =~= s@.subrange(start as int, len as int));
        assert(trim(s@) == s@.subrange(start as int, end as int));
    }
    s.substring_char(start, end)
}

/// Whether `c` is a decimal digit.
pub open spec fn is_digit(c: char) -> bool {
    48 <= c as u32 <= 57
}

/// The numeric value of a digit character.
pub open spec fn digit_val(c: char) -> int {
    c as u32 - 48
}

/// Whether every character is a decimal digit.
pub open spec fn all_digits(s: Seq<char>) -> bool {
    forall|k: int| 0 <= k < s.len() ==> is_digit(#[trigger] s[k])
}

/// The number a digit string names.
pub open spec fn digits_val(s: Seq<char>) -> int
    decreases s.len(),
{
    if s.len() == 0 {
        0
    } else {
        digits_val(s.drop_last()) * 10 + digit_val(s.last())
    }
}

/// A bounded number read from a whole string: at least one character, all
/// of them digits, naming a value at most `max`.
pub open spec fn parse_bounded(s: Seq<char>, max: int) -> Option<int> {
    if s.len() >= 1 && all_digits(s) && digits_val(s) <= max {
        Some(digits_val(s))
    } else {
        None
    }
}

/// A digit string names a non-negative number.
proof fn lemma_digits_val_nonneg(s: Seq<char>)
    requires
        all_digits(s),
    ensures
        digits_val(s) >= 0,
    decreases s.len(),
{
    if s.len() > 0 {
        assert(forall|k: int| 0 <= k < s.len() - 1 ==> #[trigger] s.drop_last()[k] == s[k]);
        lemma_digits_val_nonneg(s.drop_last());
    }
}

/// Reading more digits never shrinks the value.
proof fn lemma_digits_val_monotone(s: Seq<char>, j: int)
    requires
        all_digits(s),
        0 <= j <= s.len(),
    ensures
        digits_val(s.take(j)) <= digits_val(s),
    decreases s.len() - j,
{
    if j == s.len() {
        assert(s.take(j) =~= s);
    } else {
        lemma_digits_val_monotone(s, j + 1);
        assert(s.take(j + 1).drop_last() =~= s.take(j));
        assert(forall|k: int| 0 <= k < j ==> #[trigger] s.take(j)[k] == s[k]);
        lemma_digits_val_nonneg(s.take(j));
    }
}

/// Reads a bounded number from a whole string: `None` on an empty string,
/// any non-digit character, or a value above `max`.
pub(crate) fn parse_bounded_str(s: &str, max: u64) -> (r: Option<u64>)
    requires
        max <= 1_844_674_407_370_955_160,
    ensures
        r matches Some(v) ==> parse_bounded(s@, max as int) == Some(v as int),
        r is None ==> parse_bounded(s@, max as int) is None,
{
    let len = s.unicode_len();
    if len == 0 {
        return None;
    }
    let mut acc: u64 = 0;
    let mut i: usize = 0;
    while i < len
        invariant
            i <= len,
            1 <= len == s@.len(),
            max <= 1_844_674_407_370_955_160,
            forall|k: int| 0 <= k < i ==> is_digit(#[trigger] s@[k]),
            acc as int == digits_val(s@.take(i as int)),
            acc <= max,
        decreases len - i,
    {
        let c = s.get_char(i);
        let u = c as u32;
        if u < 48 || u > 57 {
            return None;
        }
        let d = (u - 48) as u64;
        let next = acc * 10 + d;
        proof {
            assert(s@.take(i as int + 1).drop_last() =~= s@.take(i as int));
            assert(s@.take(i as int + 1).last() == s@[i as int]);
        }
        if next > max {
            proof {
                if all_digits(s@) {
                    lemma_digits_val_monotone(s@, i as int + 1);
                }
            }
            return None;
        }
        acc = next;
        i = i + 1;
    }
    proof {
        assert(s@.take(len as int) =~= s@);
    }
    Some(acc)
}

/// The character for one decimal digit.
pub open spec fn digit_char(d: int) -> char {
    if d == 0 {
        '0'
    } else if d == 1 {
        '1'
    } else if d == 2 {
        '2'
    } else if d == 3 {
        '3'
    } else if d == 4 {
        '4'
    } else if d == 5 {
        '5'
    } else if d == 6 {
        '6'
    } else if d == 7 {
        '7'
    } else if d == 8 {
        '8'
    } else {
        '9'
    }
}

/// The decimal digits of a non-negative number, most significant first,
/// without leading zeroes.
pub open spec fn dec_digits(n: int) -> Seq<char>
    decreases n,
{
    if n < 10 {
        seq![digit_char(n)]
    } else {
        dec_digits(n / 10).push(digit_char(n % 10))
    }
}

/// The one-character string for a decimal digit.
pub(crate) fn digit_str(d: u128) -> (r: &'static str)
    requires
        d <= 9,
    ensures
        r@ == seq![digit_char(d as int)],
{
    let r: &'static str = if d == 0 {
        "0"
    } else if d == 1 {
        "1"
    } else if d == 2 {
        "2"
    } else if d == 3 {
        "3"
    } else if d == 4 {
        "4"
    } else if d == 5 {
        "5"
    } else if d == 6 {
        "6"
    } else if d == 7 {
        "7"
    } else if d == 8 {
        "8"
    } else {
        "9"
    };
    proof {
        reveal_strlit("0");
        reveal_strlit("1");
        reveal_strlit("2");
        reveal_strlit("3");
        reveal_strlit("4");
        reveal_strlit("5");
        reveal_strlit("6");
        reveal_strlit("7");
        reveal_strlit("8");
        reveal_strlit("9");
        assert(r@ =~= seq![digit_char(d as int)]);
    }
    r
}

/// Writes a non-negative number in decimal.
pub(crate) fn dec_string(n: u128) -> (r: String)
    ensures
        r@ == dec_digits(n as int),
    decreases n,
{
    if n < 10 {
        String::from_str(digit_str(n))
    } else {
        let mut s = dec_string(n / 10);
        s.append(digit_str(n % 10));
        proof {
            assert(s@ =~= dec_digits(n as int));
        }
        s
    }
}

} // verus!
