//! Text helpers shared by the storage modules: decimal and hexadecimal
//! renderings of integers, and byte-string comparisons.
use vstd::prelude::*;

verus! {

/// The character of a decimal or hexadecimal digit (lower case).
pub open spec fn digit_char(d: int) -> char {
    if d == 0 {
        '0'
    } else if d == 1 {
        '1'
    } else if d == 2 {
        '2'
    } else if d == 3 {
        '3'
    } else if d == 4 {
        '4'
    } else if d == 5 {
        '5'
    } else if d == 6 {
        '6'
    } else if d == 7 {
        '7'
    } else if d == 8 {
        '8'
    } else if d == 9 {
        '9'
    } else if d == 10 {
        'a'
    } else if d == 11 {
        'b'
    } else if d == 12 {
        'c'
    } else if d == 13 {
        'd'
    } else if d == 14 {
        'e'
    } else {
        'f'
    }
}

/// The decimal digits of `n`, most significant first, without leading zeros.
pub open spec fn decimal_spec(n: nat) -> Seq<char>
    decreases n,
{
    if n < 10 {
        seq![digit_char(n as int)]
    } else {
        decimal_spec(n / 10) + seq![digit_char((n % 10) as int)]
    }
}

/// The last `width` hexadecimal digits of `n`, most significant first,
/// padded with zeros.
pub open spec fn hex_spec(n: nat, width: nat) -> Seq<char>
    decreases width,
{
    if width == 0 {
        Seq::empty()
    } else {
        hex_spec(n / 16, (width - 1) as nat) + seq![digit_char((n % 16) as int)]
    }
}

/// The one-character text of a digit below 16.
fn digit_str(d: u64) -> (r: &'static str)
    requires
        d < 16,
    ensures
        r@ == seq![digit_char(d as int)],
{
    proof {
        reveal_strlit("0");
        reveal_strlit("1");
        reveal_strlit("2");
        reveal_strlit("3");
        reveal_strlit("4");
        reveal_strlit("5");
        reveal_strlit("6");
        reveal_strlit("7");
        reveal_strlit("8");
        reveal_strlit("9");
        reveal_strlit("a");
        reveal_strlit("b");
        reveal_strlit("c");
        reveal_strlit("d");
        reveal_strlit("e");
        reveal_strlit("f");
    }
    if d == 0 {
        "0"
    } else if d == 1 {
        "1"
    } else if d == 2 {
        "2"
    } else if d == 3 {
        "3"
    } else if d == 4 {
        "4"
    } else if d == 5 {
        "5"
    } else if d == 6 {
        "6"
    } else if d == 7 {
        "7"
    } else if d == 8 {
        "8"
    } else if d == 9 {
        "9"
    } else if d == 10 {
        "a"
    } else if d == 11 {
        "b"
    } else if d == 12 {
        "c"
    } else if d == 13 {
        "d"
    } else if d == 14 {
        "e"
    } else {
        "f"
    }
}

/// The decimal text of `n`, as `format!("{}", n)` writes it.
pub fn decimal(n: u64) -> (r: String)
    ensures
        r@ == decimal_spec(n as nat),
    decreases n,
{
    if n < 10 {
        String::from_str(digit_str(n))
    } else {
        let head = decimal(n / 10);
        head.concat(digit_str(n % 10))
    }
}

/// The last `width` hexadecimal digits of `n`, lower case and zero padded,
/// as `format!("{:0w$x}", n)` writes a number below `16^width`.
pub fn hex_padded(n: u64, width: u32) -> (r: String)
    ensures
        r@ == hex_spec(n as nat, width as nat),
    decreases width,
{
    if width == 0 {
        String::new()
    } else {
        let head = hex_padded(n / 16, width - 1);
        head.concat(digit_str(n % 16))
    }
}

/// Do the bytes `a` start with the bytes `p`?
pub fn starts_with_bytes(a: &[u8], p: &[u8]) -> (r: bool)
    ensures
        r == p@.is_prefix_of(a@),
{
    if p.len() > a.len() {
        return false;
    }
    let mut i: usize = 0;
    while i < p.len()
        invariant
            i <= p@.len() <= a@.len(),
            forall|j: int| 0 <= j < i ==> a@[j] == p@[j],
        decreases p@.len() - i,
    {
        if a[i] != p[i] {
            return false;
        }
        i = i + 1;
    }
    true
}

/// Are the byte strings equal?
pub fn same_bytes(a: &[u8], b: &[u8]) -> (r: bool)
    ensures
        r == (a@ == b@),
{
    if a.len() != b.len() {
        return false;
    }
    let r = starts_with_bytes(a, b);
    proof {
        if r {
            assert(a@ =~= b@);
        }
    }
    r
}

/// Are the texts equal?
pub fn str_eq(a: &str, b: &str) -> (r: bool)
    ensures
        r == (a@ == b@),
{
    let r = same_bytes(a.as_bytes(), b.as_bytes());
    proof {
        vstd::utf8::encode_utf8_decode_utf8(a@);
        vstd::utf8::encode_utf8_decode_utf8(b@);
    }
    r
}

/// Append the bytes of `src` to `dst`.
pub fn extend_bytes(dst: &mut Vec<u8>, src: &[u8])
    ensures
        final(dst)@ == old(dst)@ + src@,
{
    let ghost d0 = dst@;
    let mut i: usize = 0;
    while i < src.len()
        invariant
            i <= src@.len(),
            dst@ == d0 + src@.subrange(0, i as int),
        decreases src@.len() - i,
    {
        dst.push(src[i]);
        i = i + 1;
        proof {
            assert(dst@ =~= d0 + src@.subrange(0, i as int));
        }
    }
    proof {
        assert(src@.subrange(0, src@.len() as int) =~= src@);
    }
}

/// Filtering a sequence extended by one element: the element is kept exactly
/// when it passes the filter.
pub proof fn lemma_filter_push<A>(s: Seq<A>, p: spec_fn(A) -> bool, e: A)
    ensures
        s.push(e).filter(p) == if p(e) { s.filter(p).push(e) } else { s.filter(p) },
{
    reveal(Seq::filter);
    assert(s.push(e).drop_last() =~= s);
}


/// Is the character an ASCII decimal digit?
pub open spec fn is_decimal_digit(c: char) -> bool {
    '0' <= c && c <= '9'
}

/// Are all the characters ASCII decimal digits?
pub open spec fn all_decimal_digits(s: Seq<char>) -> bool {
    forall|i: int| 0 <= i < s.len() ==> is_decimal_digit(#[trigger] s[i])
}

/// The number that a string of decimal digits denotes.
pub open spec fn digits_value(s: Seq<char>) -> nat
    decreases s.len(),
{
    if s.len() == 0 {
        0
    } else {
        digits_value(s.drop_last()) * 10 + ((s.last() as int) - ('0' as int)) as nat
    }
}

/// The integer that `str::parse` reads from the text before its range check:
/// an optional `+` (or, for a signed type, `-`) followed by one or more
/// decimal digits; `None` for any other text.
pub open spec fn integer_text_value(s: Seq<char>, signed: bool) -> Option<int> {
    if s.len() > 0 && s[0] == '+' {
        let d = s.drop_first();
        if d.len() > 0 && all_decimal_digits(d) {
            Some(digits_value(d) as int)
        } else {
            None
        }
    } else if signed && s.len() > 0 && s[0] == '-' {
        let d = s.drop_first();
        if d.len() > 0 && all_decimal_digits(d) {
            Some(-(digits_value(d) as int))
        } else {
            None
        }
    } else if s.len() > 0 && all_decimal_digits(s) {
        Some(digits_value(s) as int)
    } else {
        None
    }
}

/// What `str::parse` gives for an integer type with values from `lo` to `hi`.
pub open spec fn parsed_integer(s: Seq<char>, signed: bool, lo: int, hi: int) -> Option<int> {
    match integer_text_value(s, signed) {
        Some(v) => if lo <= v && v <= hi {
            Some(v)
        } else {
            None
        },
        None => None,
    }
}

/// A prefix of a digit string denotes no more than the whole string.
pub proof fn lemma_digits_prefix_le(s: Seq<char>, k: int)
    requires
        0 <= k <= s.len(),
        all_decimal_digits(s),
    ensures
        digits_value(s.take(k)) <= digits_value(s),
    decreases s.len(),
{
    if k < s.len() {
        let t = s.drop_last();
        assert(all_decimal_digits(t)) by {
            assert forall|i: int| 0 <= i < t.len() implies is_decimal_digit(#[trigger] t[i]) by {
                assert(t[i] == s[i]);
            }
        }
        lemma_digits_prefix_le(t, k);
        assert(t.take(k) =~= s.take(k));
        assert(is_decimal_digit(s[s.len() - 1]));
    } else {
        assert(s.take(k) =~= s);
    }
}

/// A decimal digit character is a digit and denotes its number.
pub proof fn lemma_digit_char_value(d: int)
    requires
        0 <= d < 10,
    ensures
        is_decimal_digit(digit_char(d)),
        (digit_char(d) as int) - ('0' as int) == d,
{
    if d == 0 {
    } else if d == 1 {
    } else if d == 2 {
    } else if d == 3 {
    } else if d == 4 {
    } else if d == 5 {
    } else if d == 6 {
    } else if d == 7 {
    } else if d == 8 {
    } else {
    }
}

/// The decimal text of a number is all digits and denotes the number.
pub proof fn lemma_decimal_digits(n: nat)
    ensures
        all_decimal_digits(decimal_spec(n)),
        decimal_spec(n).len() > 0,
        digits_value(decimal_spec(n)) == n,
    decreases n,
{
    if n < 10 {
        lemma_digit_char_value(n as int);
        assert(decimal_spec(n).drop_last() =~= Seq::<char>::empty());
        assert(decimal_spec(n).last() == digit_char(n as int));
        assert(digits_value(decimal_spec(n).drop_last()) == 0);
        assert(digits_value(decimal_spec(n)) == n);
    } else {
        lemma_digit_char_value((n % 10) as int);
        lemma_decimal_digits(n / 10);
        let h = decimal_spec(n / 10);
        let s = decimal_spec(n);
        assert(s.drop_last() =~= h);
        assert(s.last() == digit_char((n % 10) as int));
        assert(digits_value(s) == digits_value(h) * 10 + ((s.last() as int) - ('0' as int)) as nat);
        assert(n == (n / 10) * 10 + n % 10);
        assert(digits_value(h) == n / 10);
        assert(((s.last() as int) - ('0' as int)) == n % 10);
        assert(all_decimal_digits(s)) by {
            assert forall|i: int| 0 <= i < s.len() implies is_decimal_digit(#[trigger] s[i]) by {
                if i < h.len() {
                    assert(s[i] == h[i]);
                }
            }
        }
    }
}

/// The value of the digits of `t` from `start` on, if there is at least one,
/// all are decimal digits and the value fits a `u64`.
fn digits_u64(t: &str, start: usize) -> (r: Option<u64>)
    requires
        start <= t@.len(),
    ensures
        r == (if start < t@.len() && all_decimal_digits(t@.subrange(start as int, t@.len() as int)) && digits_value(
            t@.subrange(start as int, t@.len() as int),
        ) <= u64::MAX {
            Some(digits_value(t@.subrange(start as int, t@.len() as int)) as u64)
        } else {
            None
        }),
{
    let n = t.unicode_len();
    let ghost s = t@.subrange(start as int, n as int);
    if start == n {
        return None;
    }
    let mut acc: u64 = 0;
    let mut i: usize = start;
    while i < n
        invariant
            start <= i <= n,
            n == t@.len(),
            s == t@.subrange(start as int, n as int),
            all_decimal_digits(s.take(i - start)),
            acc as nat == digits_value(s.take(i - start)),
        decreases n - i,
    {
        let c = t.get_char(i);
        if c < '0' || c > '9' {
            proof {
                assert(s[i - start] == c);
                assert(!is_decimal_digit(s[i - start]));
            }
            return None;
        }
        let d: u64 = (c as u32 - '0' as u32) as u64;
        let ghost before = s.take(i - start);
        let ghost after = s.take(i - start + 1);
        proof {
            assert(after.drop_last() =~= before);
            assert(after.last() == c);
            assert(all_decimal_digits(after)) by {
                assert forall|j: int| 0 <= j < after.len() implies is_decimal_digit(#[trigger] after[j]) by {
                    if j < before.len() {
                        assert(after[j] == before[j]);
                    }
                }
            }
        }
        if acc > 1844674407370955161u64 || (acc == 1844674407370955161u64 && d > 5) {
            proof {
                assert(digits_value(after) > u64::MAX);
                if all_decimal_digits(s) {
                    lemma_digits_prefix_le(s, i - start + 1);
                }
            }
            return None;
        }
        acc = acc * 10 + d;
        i = i + 1;
    }
    proof {
        assert(s.take(n - start) =~= s);
    }
    Some(acc)
}

/// `str::parse::<u64>`: the number the text denotes, if it is an optional `+`
/// followed by decimal digits and fits a `u64`.
pub fn parse_u64_text(t: &str) -> (r: Option<u64>)
    ensures
        r == (match parsed_integer(t@, false, 0, u64::MAX as int) {
            Some(v) => Some(v as u64),
            None => None,
        }),
{
    let n = t.unicode_len();
    if n > 0 && t.get_char(0) == '+' {
        proof {
            assert(t@.drop_first() =~= t@.subrange(1, n as int));
        }
        digits_u64(t, 1)
    } else {
        proof {
            assert(t@.subrange(0, n as int) =~= t@);
        }
        digits_u64(t, 0)
    }
}

/// `str::parse::<i64>`: the number the text denotes, if it is an optional
/// sign followed by decimal digits and fits an `i64`.
pub fn parse_i64_text(t: &str) -> (r: Option<i64>)
    ensures
        r == (match parsed_integer(t@, true, i64::MIN as int, i64::MAX as int) {
            Some(v) => Some(v as i64),
            None => None,
        }),
{
    let n = t.unicode_len();
    if n > 0 && (t.get_char(0) == '+' || t.get_char(0) == '-') {
        let negative = t.get_char(0) == '-';
        proof {
            assert(t@.drop_first() =~= t@.subrange(1, n as int));
        }
        match digits_u64(t, 1) {
            None => None,
            Some(m) => {
                if negative {
                    if m <= 9223372036854775807u64 {
                        Some(-(m as i64))
                    } else if m == 9223372036854775808u64 {
                        Some(i64::MIN)
                    } else {
                        None
                    }
                } else if m <= 9223372036854775807u64 {
                    Some(m as i64)
                } else {
                    None
                }
            },
        }
    } else {
        proof {
            assert(t@.subrange(0, n as int) =~= t@);
        }
        match digits_u64(t, 0) {
            None => None,
            Some(m) => if m <= 9223372036854775807u64 {
                Some(m as i64)
            } else {
                None
            },
        }
    }
}

/// `str::parse::<i32>`: the number the text denotes, if it is an optional
/// sign followed by decimal digits and fits an `i32`.
pub fn parse_i32_text(t: &str) -> (r: Option<i32>)
    ensures
        r == (match parsed_integer(t@, true, i32::MIN as int, i32::MAX as int) {
            Some(v) => Some(v as i32),
            None => None,
        }),
{
    match parse_i64_text(t) {
        Some(v) => if -2147483648i64 <= v && v <= 2147483647i64 {
            Some(v as i32)
        } else {
            None
        },
        None => None,
    }
}

/// `str::parse::<i16>`: the number the text denotes, if it is an optional
/// sign followed by decimal digits and fits an `i16`.
pub fn parse_i16_text(t: &str) -> (r: Option<i16>)
    ensures
        r == (match parsed_integer(t@, true, i16::MIN as int, i16::MAX as int) {
            Some(v) => Some(v as i16),
            None => None,
        }),
{
    match parse_i64_text(t) {
        Some(v) => if -32768i64 <= v && v <= 32767i64 {
            Some(v as i16)
        } else {
            None
        },
        None => None,
    }
}

} // verus!
