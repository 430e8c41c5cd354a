//! The text side of the rigctld-style CAT protocol: splitting received text
//! into lines and words, reading decimal frequencies and writing replies.

use vstd::prelude::*;

verus! {

/// The Unicode `White_Space` characters, the set `char::is_whitespace`
/// tests and `str::split_whitespace` splits on.
pub open spec fn is_unicode_whitespace(c: char) -> bool {
    let v = c as u32;
    ||| 0x09 <= v <= 0x0D
    ||| v == 0x20
    ||| v == 0x85
    ||| v == 0xA0
    ||| v == 0x1680
    ||| 0x2000 <= v <= 0x200A
    ||| v == 0x2028
    ||| v == 0x2029
    ||| v == 0x202F
    ||| v == 0x205F
    ||| v == 0x3000
}

/// Whether `c` is Unicode white space.
pub fn is_whitespace(c: char) -> (r: bool)
    ensures
        r == is_unicode_whitespace(c),
{
    let v = c as u32;
    (0x09 <= v && v <= 0x0D) || v == 0x20 || v == 0x85 || v == 0xA0 || v == 0x1680 || (0x2000 <= v
        && v <= 0x200A) || v == 0x2028 || v == 0x2029 || v == 0x202F || v == 0x205F || v == 0x3000
}

/// Number of leading characters of `s` that are not white space.
pub open spec fn word_len(s: Seq<char>) -> nat
    decreases s.len(),
{
    if s.len() == 0 || is_unicode_whitespace(s[0]) {
        0
    } else {
        1 + word_len(s.skip(1))
    }
}

pub proof fn lemma_word_len(s: Seq<char>)
    ensures
        word_len(s) <= s.len(),
        s.len() > 0 && !is_unicode_whitespace(s[0]) ==> word_len(s) >= 1,
        forall|j: int| 0 <= j < word_len(s) ==> !is_unicode_whitespace(s[j]),
        word_len(s) < s.len() ==> is_unicode_whitespace(s[word_len(s) as int]),
    decreases s.len(),
{
    if s.len() > 0 && !is_unicode_whitespace(s[0]) {
        lemma_word_len(s.skip(1));
        assert forall|j: int| 0 <= j < word_len(s) implies !is_unicode_whitespace(s[j]) by {
            if j > 0 {
                assert(s[j] == s.skip(1)[j - 1]);
            }
        }
        if word_len(s) < s.len() {
            assert(s[word_len(s) as int] == s.skip(1)[word_len(s.skip(1)) as int]);
        }
    }
}

/// The maximal runs of non white space characters of `s`, in order.
pub open spec fn split_whitespace(s: Seq<char>) -> Seq<Seq<char>>
    decreases s.len(),
{
    if s.len() == 0 {
        Seq::<Seq<char>>::empty()
    } else if is_unicode_whitespace(s[0]) {
        split_whitespace(s.skip(1))
    } else {
        let n = word_len(s);
        proof {
            lemma_word_len(s);
        }
        seq![s.take(n as int)] + split_whitespace(s.skip(n as int))
    }
}

/// Index of the first line feed in `s`, if any.
pub open spec fn first_newline(s: Seq<char>) -> Option<int>
    decreases s.len(),
{
    if s.len() == 0 {
        None
    } else if s[0] == '\n' {
        Some(0)
    } else {
        match first_newline(s.drop_first()) {
            Some(i) => Some(i + 1),
            None => None,
        }
    }
}

pub proof fn lemma_first_newline(s: Seq<char>)
    ensures
        match first_newline(s) {
            Some(i) => 0 <= i < s.len() && s[i] == '\n' && forall|j: int| 0 <= j < i ==> s[j] != '\n',
            None => forall|j: int| 0 <= j < s.len() ==> s[j] != '\n',
        },
    decreases s.len(),
{
    if s.len() > 0 && s[0] != '\n' {
        lemma_first_newline(s.drop_first());
        assert forall|j: int| 1 <= j < s.len() implies s[j] == s.drop_first()[j - 1] by {}
    }
}

/// Value of a string of decimal digits, most significant first.
pub open spec fn decimal_value(d: Seq<char>) -> Option<nat>
    decreases d.len(),
{
    if d.len() == 0 {
        Some(0)
    } else {
        let c = d.last();
        if '0' <= c <= '9' {
            match decimal_value(d.drop_last()) {
                Some(v) => Some(v * 10 + (c as u32 - 0x30u32) as nat),
                None => None,
            }
        } else {
            None
        }
    }
}

/// What `str::parse::<u64>` accepts: an optional `+` followed by at least one
/// decimal digit, of a value that fits in 64 bits.
pub open spec fn parse_u64_decimal(w: Seq<char>) -> Option<u64> {
    let digits = if w.len() > 1 && w[0] == '+' {
        w.skip(1)
    } else {
        w
    };
    if digits.len() == 0 {
        None
    } else {
        match decimal_value(digits) {
            Some(v) => if v <= u64::MAX {
                Some(v as u64)
            } else {
                None
            },
            None => None,
        }
    }
}

/// The value of a digit string is at least that of each of its prefixes.
proof fn lemma_decimal_prefix(d: Seq<char>, j: int)
    requires
        0 <= j <= d.len(),
        decimal_value(d) is Some,
    ensures
        decimal_value(d.take(j)) is Some,
        decimal_value(d.take(j))->0 <= decimal_value(d)->0,
    decreases d.len() - j,
{
    if j == d.len() {
        assert(d.take(j) =~= d);
    } else {
        lemma_decimal_prefix(d, j + 1);
        let p = d.take(j + 1);
        assert(p.drop_last() =~= d.take(j));
    }
}

/// Parses a decimal `u64` the way `str::parse::<u64>` does.
pub fn parse_u64(w: &Vec<char>) -> (r: Option<u64>)
    ensures
        r == parse_u64_decimal(w@),
{
    let n = w.len();
    let start: usize = if n > 1 && w[0] == '+' {
        1
    } else {
        0
    };
    let ghost digits = if w@.len() > 1 && w@[0] == '+' {
        w@.skip(1)
    } else {
        w@
    };
    assert(digits =~= w@.skip(start as int));
    if start == n {
        return None;
    }
    let mut acc: u64 = 0;
    let mut i = start;
    assert(digits.take(0) =~= Seq::<char>::empty());
    while i < n
        invariant
            start <= i <= n,
            n == w@.len(),
            digits == w@.skip(start as int),
            digits == (if w@.len() > 1 && w@[0] == '+' {
                w@.skip(1)
            } else {
                w@
            }),
            decimal_value(digits.take(i - start)) == Some(acc as nat),
        decreases n - i,
    {
        let c = w[i];
        let ghost p = digits.take(i - start + 1);
        assert(digits[i - start] == w@[i as int]);
        assert(p.drop_last() =~= digits.take(i - start));
        assert(p.last() == c);
        if !('0' <= c && c <= '9') {
            assert(decimal_value(p) is None);
            proof {
                if decimal_value(digits) is Some {
                    lemma_decimal_prefix(digits, i - start + 1);
                }
            }
            return None;
        }
        let x = (c as u32 - '0' as u32) as u64;
        assert(x as nat == (c as u32 - 0x30u32) as nat);
        assert(decimal_value(p) == Some(acc as nat * 10 + x as nat));
        let next = match acc.checked_mul(10) {
            Some(m) => m.checked_add(x),
            None => None,
        };
        match next {
            Some(v) => {
                acc = v;
            },
            None => {
                proof {
                    if decimal_value(digits) is Some {
                        lemma_decimal_prefix(digits, i - start + 1);
                    }
                }
                return None;
            },
        }
        i = i + 1;
    }
    assert(digits.take(n - start) =~= digits);
    Some(acc)
}

/// Decimal digits of `n`, as ASCII bytes.
pub open spec fn decimal_text(n: nat) -> Seq<u8>
    decreases n,
{
    if n < 10 {
        seq![(0x30 + n) as u8]
    } else {
        decimal_text(n / 10).push((0x30 + n % 10) as u8)
    }
}

/// Writes `n` in decimal, as `format!("{}", n)` does.
pub fn decimal(n: u64) -> (text: Vec<u8>)
    ensures
        text@ == decimal_text(n as nat),
    decreases n,
{
    if n < 10 {
        let mut v = Vec::new();
        v.push(0x30 + n as u8);
        v
    } else {
        let mut v = decimal(n / 10);
        v.push(0x30 + (n % 10) as u8);
        v
    }
}

/// The characters of a line feed terminated decimal, from its ASCII bytes.
pub open spec fn ascii_chars(b: Seq<u8>) -> Seq<char> {
    b.map_values(|x: u8| x as char)
}

/// Reading back what `decimal` writes gives the number again.
pub proof fn lemma_parse_decimal(n: u64)
    ensures
        parse_u64_decimal(ascii_chars(decimal_text(n as nat))) == Some(n),
{
    lemma_decimal_text(n as nat);
    let d = ascii_chars(decimal_text(n as nat));
    assert(d[0] != '+');
}

proof fn lemma_decimal_text(n: nat)
    ensures
        decimal_value(ascii_chars(decimal_text(n))) == Some(n),
        decimal_text(n).len() >= 1,
        forall|j: int| 0 <= j < decimal_text(n).len() ==> 0x30 <= #[trigger] decimal_text(n)[j] <= 0x39,
    decreases n,
{
    let t = decimal_text(n);
    let d = ascii_chars(t);
    if n < 10 {
        assert(d.drop_last() =~= Seq::<char>::empty());
        let c = d.last();
        assert(c == (0x30 + n) as u8 as char);
        assert(c as u32 == 0x30 + n);
        assert(decimal_value(d.drop_last()) == Some(0nat));
    } else {
        lemma_decimal_text(n / 10);
        let t0 = decimal_text(n / 10);
        assert(d.drop_last() =~= ascii_chars(t0));
        let c = d.last();
        assert(c == (0x30 + n % 10) as u8 as char);
        assert(c as u32 == 0x30 + n % 10);
        assert((n / 10) * 10 + n % 10 == n);
        assert forall|j: int| 0 <= j < t.len() implies 0x30 <= #[trigger] t[j] <= 0x39 by {
            if j < t0.len() {
                assert(t[j] == t0[j]);
            }
        }
    }
}

} // verus!
