//! Character-level building blocks of the line parser: splitting a line on a
//! delimiter, trimming surrounding whitespace, and reading decimal numbers.

use vstd::prelude::*;
use vstd::string::StrSliceExecFns;

verus! {

/// The characters with the Unicode white-space property, which field
/// trimming removes.
pub open spec fn is_space_char(c: char) -> bool {
    ||| c == ' '
    ||| c == '\t'
    ||| c == '\n'
    ||| c == '\r'
    ||| c == '\u{000b}'
    ||| c == '\u{000c}'
    ||| c == '\u{0085}'
    ||| c == '\u{00a0}'
    ||| c == '\u{1680}'
    ||| 0x2000 <= c as int && c as int <= 0x200a
    ||| c == '\u{2028}'
    ||| c == '\u{2029}'
    ||| c == '\u{202f}'
    ||| c == '\u{205f}'
    ||| c == '\u{3000}'
}

/// Decimal digit test, by code point.
pub open spec fn is_digit_char(c: char) -> bool {
    48 <= c as int && c as int <= 57
}

/// Numeric value of a decimal digit.
pub open spec fn digit_val(c: char) -> int {
    c as int - 48
}

/// Every character of `s` is a decimal digit.
pub open spec fn all_digits(s: Seq<char>) -> bool {
    forall|i: int| 0 <= i < s.len() ==> is_digit_char(s[i])
}

/// Value of a digit string read in base ten.
pub open spec fn digits_val(s: Seq<char>) -> int
    decreases s.len(),
{
    if s.len() == 0 {
        0
    } else {
        10 * digits_val(s.drop_last()) + digit_val(s.last())
    }
}

/// The views of a sequence of owned strings.
pub open spec fn views_of(v: Seq<String>) -> Seq<Seq<char>> {
    v.map_values(|s: String| s@)
}

pub proof fn lemma_views_of_push(v: Seq<String>, s: String)
    ensures
        views_of(v.push(s)) == views_of(v).push(s@),
{
    assert(views_of(v.push(s)) =~= views_of(v).push(s@));
}

/// The pieces of `s` between occurrences of the delimiter `d`, in order:
/// `n` occurrences of `d` give `n + 1` pieces, empty pieces included.
pub open spec fn split_on(s: Seq<char>, d: char) -> Seq<Seq<char>>
    decreases s.len(),
{
    if s.len() == 0 {
        seq![Seq::<char>::empty()]
    } else if s[0] == d {
        seq![Seq::<char>::empty()] + split_on(s.drop_first(), d)
    } else {
        let rest = split_on(s.drop_first(), d);
        seq![seq![s[0]] + rest[0]] + rest.drop_first()
    }
}

pub proof fn lemma_split_on_len(s: Seq<char>, d: char)
    ensures
        split_on(s, d).len() >= 1,
    decreases s.len(),
{
    if s.len() != 0 {
        lemma_split_on_len(s.drop_first(), d);
    }
}

/// A string without the delimiter is a single piece.
pub proof fn lemma_split_on_no_delim(s: Seq<char>, d: char)
    requires
        forall|j: int| 0 <= j < s.len() ==> s[j] != d,
    ensures
        split_on(s, d) == seq![s],
    decreases s.len(),
{
    if s.len() == 0 {
        assert(s =~= Seq::<char>::empty());
    } else {
        let t = s.drop_first();
        assert forall|j: int| 0 <= j < t.len() implies t[j] != d by {
            assert(t[j] == s[j + 1]);
        }
        lemma_split_on_no_delim(t, d);
        lemma_split_on_len(t, d);
        assert(seq![s[0]] + t =~= s);
        assert(split_on(s, d) =~= seq![s]);
    }
}

/// With the first delimiter at position `i`, the first piece is `s.take(i)`
/// and the remaining pieces split the suffix after the delimiter.
pub proof fn lemma_split_on_first_delim(s: Seq<char>, d: char, i: int)
    requires
        0 <= i < s.len(),
        s[i] == d,
        forall|j: int| 0 <= j < i ==> s[j] != d,
    ensures
        split_on(s, d) == seq![s.take(i)] + split_on(s.skip(i + 1), d),
    decreases i,
{
    if i == 0 {
        assert(s.take(0) =~= Seq::<char>::empty());
        assert(s.skip(1) =~= s.drop_first());
    } else {
        let t = s.drop_first();
        assert forall|j: int| 0 <= j < i - 1 implies t[j] != d by {
            assert(t[j] == s[j + 1]);
        }
        assert(t[i - 1] == s[i]);
        lemma_split_on_first_delim(t, d, i - 1);
        lemma_split_on_len(t.skip(i), d);
        let rest = split_on(t, d);
        assert(rest[0] == t.take(i - 1));
        assert(rest.drop_first() =~= split_on(t.skip(i), d));
        assert(seq![s[0]] + t.take(i - 1) =~= s.take(i));
        assert(t.skip(i) =~= s.skip(i + 1));
        assert(split_on(s, d) =~= seq![s.take(i)] + split_on(s.skip(i + 1), d));
    }
}

/// Split a line on the colon delimiter; the pieces keep their file order.
pub fn split_colon(line: &str) -> (fields: Vec<String>)
    ensures
        views_of(fields@) == split_on(line@, ':'),
{
    let n = line.unicode_len();
    let mut fields: Vec<String> = Vec::new();
    let mut start: usize = 0;
    let mut i: usize = 0;
    proof {
        assert(line@.skip(0) =~= line@);
        assert(views_of(fields@) + split_on(line@, ':') =~= split_on(line@, ':'));
    }
    while i < n
        invariant
            n == line@.len(),
            start <= i <= n,
            forall|j: int| start <= j < i ==> line@[j] != ':',
            split_on(line@, ':') == views_of(fields@) + split_on(line@.skip(start as int), ':'),
        decreases n - i,
    {
        let c = line.get_char(i);
        if c == ':' {
            let piece = line.substring_char(start, i).to_owned();
            proof {
                let suf = line@.skip(start as int);
                assert forall|j: int| 0 <= j < i - start implies suf[j] != ':' by {
                    assert(suf[j] == line@[start + j]);
                }
                assert(suf[i - start] == line@[i as int]);
                lemma_split_on_first_delim(suf, ':', i - start);
                assert(suf.take(i - start) =~= line@.subrange(start as int, i as int));
                assert(suf.skip(i - start + 1) =~= line@.skip(i as int + 1));
                lemma_views_of_push(fields@, piece);
                assert(views_of(fields@).push(piece@) + split_on(line@.skip(i as int + 1), ':')
                    =~= views_of(fields@) + split_on(suf, ':'));
            }
            fields.push(piece);
            start = i + 1;
        }
        i = i + 1;
    }
    let piece = line.substring_char(start, n).to_owned();
    proof {
        let suf = line@.skip(start as int);
        assert forall|j: int| 0 <= j < suf.len() implies suf[j] != ':' by {
            assert(suf[j] == line@[start + j]);
        }
        lemma_split_on_no_delim(suf, ':');
        assert(suf =~= line@.subrange(start as int, n as int));
        lemma_views_of_push(fields@, piece);
        assert(views_of(fields@).push(piece@) =~= views_of(fields@) + split_on(suf, ':'));
    }
    fields.push(piece);
    fields
}

/// `s` without its leading whitespace.
pub open spec fn trim_front(s: Seq<char>) -> Seq<char>
    decreases s.len(),
{
    if s.len() > 0 && is_space_char(s[0]) {
        trim_front(s.drop_first())
    } else {
        s
    }
}

/// `s` without its trailing whitespace.
pub open spec fn trim_back(s: Seq<char>) -> Seq<char>
    decreases s.len(),
{
    if s.len() > 0 && is_space_char(s.last()) {
        trim_back(s.drop_last())
    } else {
        s
    }
}

/// `s` without surrounding whitespace.
pub open spec fn trim_spec(s: Seq<char>) -> Seq<char> {
    trim_back(trim_front(s))
}

proof fn lemma_trim_front_at(s: Seq<char>, a: int)
    requires
        0 <= a <= s.len(),
        forall|j: int| 0 <= j < a ==> is_space_char(s[j]),
        a < s.len() ==> !is_space_char(s[a]),
    ensures
        trim_front(s) == s.skip(a),
    decreases a,
{
    if a == 0 {
        assert(s.skip(0) =~= s);
    } else {
        let t = s.drop_first();
        assert forall|j: int| 0 <= j < a - 1 implies is_space_char(t[j]) by {
            assert(t[j] == s[j + 1]);
        }
        assert(a - 1 < t.len() ==> !is_space_char(t[a - 1]));
        lemma_trim_front_at(t, a - 1);
        assert(t.skip(a - 1) =~= s.skip(a));
    }
}

proof fn lemma_trim_back_at(s: Seq<char>, b: int)
    requires
        0 <= b <= s.len(),
        forall|j: int| b <= j < s.len() ==> is_space_char(s[j]),
        b > 0 ==> !is_space_char(s[b - 1]),
    ensures
        trim_back(s) == s.take(b),
    decreases s.len(),
{
    if b == s.len() {
        assert(s.take(b) =~= s);
    } else {
        let t = s.drop_last();
        assert(is_space_char(s.last()));
        assert forall|j: int| b <= j < t.len() implies is_space_char(t[j]) by {
            assert(t[j] == s[j]);
        }
        lemma_trim_back_at(t, b);
        assert(t.take(b) =~= s.take(b));
    }
}

fn is_space(c: char) -> (b: bool)
    ensures
        b == is_space_char(c),
{
    let u = c as u32;
    c == ' ' || c == '\t' || c == '\n' || c == '\r' || c == '\u{000b}' || c == '\u{000c}'
        || c == '\u{0085}' || c == '\u{00a0}' || c == '\u{1680}' || (0x2000 <= u && u <= 0x200a)
        || c == '\u{2028}' || c == '\u{2029}' || c == '\u{202f}' || c == '\u{205f}'
        || c == '\u{3000}'
}

fn scan_front(s: &str) -> (a: usize)
    ensures
        a <= s@.len(),
        forall|j: int| 0 <= j < a ==> is_space_char(s@[j]),
        a < s@.len() ==> !is_space_char(s@[a as int]),
{
    let n = s.unicode_len();
    let mut i: usize = 0;
    while i < n
        invariant
            n == s@.len(),
            i <= n,
            forall|j: int| 0 <= j < i ==> is_space_char(s@[j]),
        decreases n - i,
    {
        if !is_space(s.get_char(i)) {
            return i;
        }
        i = i + 1;
    }
    i
}

fn scan_back(s: &str) -> (b: usize)
    ensures
        b <= s@.len(),
        forall|j: int| b <= j < s@.len() ==> is_space_char(s@[j]),
        b > 0 ==> !is_space_char(s@[b - 1]),
{
    let n = s.unicode_len();
    let mut i: usize = n;
    while i > 0
        invariant
            n == s@.len(),
            i <= n,
            forall|j: int| i <= j < n ==> is_space_char(s@[j]),
        decreases i,
    {
        if !is_space(s.get_char(i - 1)) {
            return i;
        }
        i = i - 1;
    }
    i
}

/// Remove surrounding whitespace, as field interpretation requires.
pub fn trim_str<'a>(s: &'a str) -> (r: &'a str)
    ensures
        r@ == trim_spec(s@),
{
    let a = scan_front(s);
    let n = s.unicode_len();
    if a == n {
        proof {
            lemma_trim_front_at(s@, a as int);
            assert(s@.skip(a as int) =~= Seq::<char>::empty());
        }
        let r = s.substring_char(n, n);
        proof {
            assert(r@ =~= trim_spec(s@));
        }
        r
    } else {
        let b = scan_back(s);
        proof {
            assert(!is_space_char(s@[a as int]));
            assert(a < b);
            lemma_trim_front_at(s@, a as int);
            let t = s@.skip(a as int);
            assert forall|j: int| b - a <= j < t.len() implies is_space_char(t[j]) by {
                assert(t[j] == s@[a + j]);
            }
            assert(t[b - a - 1] == s@[b - 1]);
            lemma_trim_back_at(t, b - a);
            assert(t.take(b - a) =~= s@.subrange(a as int, b as int));
        }
        s.substring_char(a, b)
    }
}

proof fn lemma_all_digits_take(s: Seq<char>, k: int)
    requires
        all_digits(s),
        0 <= k <= s.len(),
    ensures
        all_digits(s.take(k)),
{
    assert forall|i: int| 0 <= i < s.take(k).len() implies is_digit_char(s.take(k)[i]) by {
        assert(s.take(k)[i] == s[i]);
    }
}

proof fn lemma_digits_val_nonneg(s: Seq<char>)
    requires
        all_digits(s),
    ensures
        digits_val(s) >= 0,
    decreases s.len(),
{
    if s.len() > 0 {
        let t = s.drop_last();
        assert forall|i: int| 0 <= i < t.len() implies is_digit_char(t[i]) by {
            assert(t[i] == s[i]);
        }
        lemma_digits_val_nonneg(t);
        assert(is_digit_char(s.last()));
    }
}

proof fn lemma_digits_val_take_succ(s: Seq<char>, k: int)
    requires
        0 <= k < s.len(),
    ensures
        digits_val(s.take(k + 1)) == 10 * digits_val(s.take(k)) + digit_val(s[k]),
{
    let t = s.take(k + 1);
    assert(t.drop_last() =~= s.take(k));
    assert(t.last() == s[k]);
}

proof fn lemma_digits_val_mono(s: Seq<char>, k: int)
    requires
        all_digits(s),
        0 <= k <= s.len(),
    ensures
        digits_val(s) >= digits_val(s.take(k)),
        digits_val(s.take(k)) >= 0,
    decreases s.len() - k,
{
    lemma_all_digits_take(s, k);
    lemma_digits_val_nonneg(s.take(k));
    if k < s.len() {
        lemma_digits_val_take_succ(s, k);
        assert(is_digit_char(s[k]));
        lemma_digits_val_mono(s, k + 1);
    } else {
        assert(s.take(k) =~= s);
    }
}

/// Read the digits of `s` from position `start` on as one base-ten number.
/// `None` when that suffix is empty, holds a non-digit, or exceeds `u64::MAX`.
pub fn parse_digits(s: &str, start: usize) -> (r: Option<u64>)
    requires
        start <= s@.len(),
    ensures
        match r {
            Some(v) => {
                let body = s@.skip(start as int);
                &&& body.len() > 0
                &&& all_digits(body)
                &&& digits_val(body) == v as int
            },
            None => {
                let body = s@.skip(start as int);
                !(body.len() > 0 && all_digits(body) && digits_val(body) <= u64::MAX)
            },
        },
{
    let n = s.unicode_len();
    if start == n {
        return None;
    }
    let mut acc: u64 = 0;
    let mut i: usize = start;
    while i < n
        invariant
            n == s@.len(),
            start <= i <= n,
            start < n,
            forall|j: int| start <= j < i ==> is_digit_char(s@[j]),
            acc as int == digits_val(s@.skip(start as int).take(i - start)),
        decreases n - i,
    {
        let c = s.get_char(i);
        let u = c as u32;
        if u < 48 || u > 57 {
            proof {
                let body = s@.skip(start as int);
                assert(body[i - start] == s@[i as int]);
                assert(!is_digit_char(body[i - start]));
            }
            return None;
        }
        let d: u64 = (u - 48) as u64;
        proof {
            let body = s@.skip(start as int);
            assert(body[i - start] == s@[i as int]);
            lemma_digits_val_take_succ(body, i - start);
        }
        let next: u128 = acc as u128 * 10 + d as u128;
        if next > u64::MAX as u128 {
            proof {
                let body = s@.skip(start as int);
                if all_digits(body) {
                    lemma_digits_val_mono(body, i - start + 1);
                }
            }
            return None;
        }
        acc = next as u64;
        i = i + 1;
    }
    proof {
        let body = s@.skip(start as int);
        assert forall|j: int| 0 <= j < body.len() implies is_digit_char(body[j]) by {
            assert(body[j] == s@[start + j]);
        }
        assert(body.take(n - start) =~= body);
    }
    Some(acc)
}

/// Signed decimal parsing as the shadow format asks for it: an optional sign,
/// then digits; anything else, or a value outside `i64`, fails.
pub open spec fn parse_i64_spec(s: Seq<char>) -> Option<i64> {
    if s.len() > 0 && s[0] == '-' {
        let body = s.drop_first();
        if body.len() > 0 && all_digits(body) && -digits_val(body) >= i64::MIN {
            Some((-digits_val(body)) as i64)
        } else {
            None
        }
    } else {
        let body = if s.len() > 0 && s[0] == '+' {
            s.drop_first()
        } else {
            s
        };
        if body.len() > 0 && all_digits(body) && digits_val(body) <= i64::MAX {
            Some(digits_val(body) as i64)
        } else {
            None
        }
    }
}

/// Unsigned decimal parsing: an optional plus sign, then digits; anything
/// else, or a value above `u64::MAX`, fails.
pub open spec fn parse_u64_spec(s: Seq<char>) -> Option<u64> {
    let body = if s.len() > 0 && s[0] == '+' {
        s.drop_first()
    } else {
        s
    };
    if body.len() > 0 && all_digits(body) && digits_val(body) <= u64::MAX {
        Some(digits_val(body) as u64)
    } else {
        None
    }
}

/// A signed numeric field, with the sentinel -1 for an empty, malformed or
/// overflowing value.
pub open spec fn i64_field(s: Seq<char>) -> i64 {
    match parse_i64_spec(s) {
        Some(v) => v,
        None => -1i64,
    }
}

/// The unsigned reserved field, with the sentinel 0 for an empty, malformed
/// or overflowing value.
pub open spec fn u64_field(s: Seq<char>) -> u64 {
    match parse_u64_spec(s) {
        Some(v) => v,
        None => 0,
    }
}

/// Parse a signed numeric field, falling back to the sentinel -1.
pub fn parse_i64_field(s: &str) -> (v: i64)
    ensures
        v == i64_field(s@),
{
    let n = s.unicode_len();
    if n == 0 {
        return -1;
    }
    let c0 = s.get_char(0);
    if c0 == '-' {
        let r = parse_digits(s, 1);
        proof {
            assert(s@.skip(1) =~= s@.drop_first());
        }
        match r {
            Some(m) => {
                if m <= 9223372036854775807u64 {
                    -(m as i64)
                } else if m == 9223372036854775808u64 {
                    i64::MIN
                } else {
                    -1
                }
            },
            None => -1,
        }
    } else if c0 == '+' {
        let r = parse_digits(s, 1);
        proof {
            assert(s@.skip(1) =~= s@.drop_first());
        }
        match r {
            Some(m) => {
                if m <= 9223372036854775807u64 {
                    m as i64
                } else {
                    -1
                }
            },
            None => -1,
        }
    } else {
        let r = parse_digits(s, 0);
        proof {
            assert(s@.skip(0) =~= s@);
        }
        match r {
            Some(m) => {
                if m <= 9223372036854775807u64 {
                    m as i64
                } else {
                    -1
                }
            },
            None => -1,
        }
    }
}

/// Parse the unsigned reserved field, falling back to the sentinel 0.
pub fn parse_u64_field(s: &str) -> (v: u64)
    ensures
        v == u64_field(s@),
{
    let n = s.unicode_len();
    if n == 0 {
        return 0;
    }
    let c0 = s.get_char(0);
    let r = if c0 == '+' {
        let r1 = parse_digits(s, 1);
        proof {
            assert(s@.skip(1) =~= s@.drop_first());
        }
        r1
    } else {
        let r0 = parse_digits(s, 0);
        proof {
            assert(s@.skip(0) =~= s@);
        }
        r0
    };
    match r {
        Some(m) => m,
        None => 0,
    }
}

} // verus!
