//! Hexadecimal parsing of the preamble byte and the syncword, given on the
//! command line as for instance `0x55` and `0x1ACFFC1D`.

use vstd::prelude::*;
use vstd::string::*;

verus! {

/// Why a hexadecimal string was refused, with the UTF-8 bytes of the text
/// at fault.
#[derive(Debug, PartialEq, Eq)]
pub enum HexError {
    /// More than two digits were given for a single byte: the digits, once
    /// the prefixes are trimmed.
    InvalidHexByte(Vec<u8>),
    /// A group of digits is not a hexadecimal number that fits in a byte:
    /// that group (for a single byte, all its digits; for a byte string,
    /// the first two-digit group that fails).
    ParseError(Vec<u8>),
}

/// A `HexError` as a mathematical value.
pub enum HexFault {
    InvalidHexByte(Seq<u8>),
    ParseError(Seq<u8>),
}

impl View for HexError {
    type V = HexFault;

    open spec fn view(&self) -> HexFault {
        match self {
            HexError::InvalidHexByte(t) => HexFault::InvalidHexByte(t@),
            HexError::ParseError(t) => HexFault::ParseError(t@),
        }
    }
}

/// A result whose error is seen through its view.
pub open spec fn fault_view<T>(r: Result<T, HexError>) -> Result<T, HexFault> {
    match r {
        Ok(x) => Ok(x),
        Err(e) => Err(e@),
    }
}

pub const ASCII_ZERO: u8 = 0x30;

pub const ASCII_LOWER_X: u8 = 0x78;

pub const ASCII_UPPER_X: u8 = 0x58;

pub const ASCII_PLUS: u8 = 0x2B;

// ---------------------------------------------------------------------------
// Model, over the UTF-8 bytes of the input
// ---------------------------------------------------------------------------

/// `s` with every leading repetition of the two bytes `p0 p1` removed.
pub open spec fn strip_repeated(s: Seq<u8>, p0: u8, p1: u8) -> Seq<u8>
    decreases s.len(),
{
    if s.len() >= 2 && s[0] == p0 && s[1] == p1 {
        strip_repeated(s.skip(2), p0, p1)
    } else {
        s
    }
}

/// The input without its `0x` prefixes, then without its `0X` prefixes.
pub open spec fn trim_hex_prefix(s: Seq<u8>) -> Seq<u8> {
    strip_repeated(strip_repeated(s, ASCII_ZERO, ASCII_LOWER_X), ASCII_ZERO, ASCII_UPPER_X)
}

/// Value of one hexadecimal digit, either case.
pub open spec fn hex_digit_value(c: u8) -> Option<nat> {
    if 0x30 <= c <= 0x39 {
        Some((c - 0x30) as nat)
    } else if 0x61 <= c <= 0x66 {
        Some((c - 0x61 + 10) as nat)
    } else if 0x41 <= c <= 0x46 {
        Some((c - 0x41 + 10) as nat)
    } else {
        None
    }
}

/// Value of a string of hexadecimal digits, most significant first.
pub open spec fn hex_digits_value(d: Seq<u8>) -> Option<nat>
    decreases d.len(),
{
    if d.len() == 0 {
        Some(0)
    } else {
        match (hex_digits_value(d.drop_last()), hex_digit_value(d.last())) {
            (Some(v), Some(x)) => Some(v * 16 + x),
            _ => None,
        }
    }
}

/// What `u8::from_str_radix(s, 16)` accepts: an optional `+` followed by at
/// least one hexadecimal digit, of a value that fits in a byte.
pub open spec fn radix16_u8(s: Seq<u8>) -> Option<u8> {
    let digits = if s.len() > 1 && s[0] == ASCII_PLUS {
        s.skip(1)
    } else {
        s
    };
    if digits.len() == 0 {
        None
    } else {
        match hex_digits_value(digits) {
            Some(v) => if v <= 255 {
                Some(v as u8)
            } else {
                None
            },
            None => None,
        }
    }
}

/// Result of parsing one byte written in hexadecimal.
pub open spec fn spec_parse_hex_byte(s: Seq<u8>) -> Result<u8, HexFault> {
    let t = trim_hex_prefix(s);
    if t.len() > 2 {
        Err(HexFault::InvalidHexByte(t))
    } else {
        match radix16_u8(t) {
            Some(v) => Ok(v),
            None => Err(HexFault::ParseError(t)),
        }
    }
}

/// Result of parsing consecutive two-byte groups, each a hexadecimal byte.
pub open spec fn hex_pairs(b: Seq<u8>) -> Result<Seq<u8>, HexFault>
    decreases b.len(),
{
    if b.len() == 0 {
        Ok(Seq::<u8>::empty())
    } else if b.len() < 2 {
        Err(HexFault::ParseError(b))
    } else {
        match radix16_u8(b.take(2)) {
            None => Err(HexFault::ParseError(b.take(2))),
            Some(x) => match hex_pairs(b.skip(2)) {
                Ok(r) => Ok(seq![x] + r),
                Err(e) => Err(e),
            },
        }
    }
}

/// Whether a UTF-8 string may be cut before byte `i` (the rule of `str`
/// slicing): at its end, or before a byte that does not continue a character.
pub open spec fn utf8_boundary(b: Seq<u8>, i: int) -> bool {
    i == b.len() || (0 <= i < b.len() && !(0x80 <= b[i] < 0xC0))
}

/// Whether slicing the string into two-byte groups fails before a group that
/// does not parse is met: the length is odd, or a group would cut a character.
pub open spec fn hex_pairs_panics(b: Seq<u8>) -> bool
    decreases b.len(),
{
    b.len() > 0 && (b.len() < 2 || !utf8_boundary(b, 2) || (radix16_u8(b.take(2)) is Some
        && hex_pairs_panics(b.skip(2))))
}

/// The digits of a byte string, left-padded with a `0` to an even count.
pub open spec fn pad_even(t: Seq<u8>) -> Seq<u8> {
    if t.len() % 2 == 1 {
        seq![ASCII_ZERO] + t
    } else {
        t
    }
}

/// Result of parsing a byte string written in hexadecimal.
pub open spec fn spec_parse_hex_bytes(s: Seq<u8>) -> Result<Seq<u8>, HexFault> {
    let t = trim_hex_prefix(s);
    if t.len() == 0 {
        Ok(Seq::<u8>::empty())
    } else {
        hex_pairs(pad_even(t))
    }
}

/// `Result<Vec<u8>, _>` seen through the view of the vector.
pub open spec fn result_bytes(r: Result<Vec<u8>, HexError>) -> Result<Seq<u8>, HexFault> {
    match r {
        Ok(v) => Ok(v@),
        Err(e) => Err(e@),
    }
}

/// Puts `p` in front of a successful result.
pub open spec fn prepend_ok(p: Seq<u8>, r: Result<Seq<u8>, HexFault>) -> Result<
    Seq<u8>,
    HexFault,
> {
    match r {
        Ok(x) => Ok(p + x),
        Err(e) => Err(e),
    }
}

// ---------------------------------------------------------------------------
// Laws
// ---------------------------------------------------------------------------

/// Every hexadecimal digit, alone, parses to its standard value (`0`-`9`
/// to 0-9, `a`-`f` and `A`-`F` to 10-15), and no other single byte parses.
pub proof fn lemma_single_digit(c: u8)
    ensures
        0x30 <= c <= 0x39 ==> spec_parse_hex_byte(seq![c]) == Ok::<u8, HexFault>((c - 0x30) as u8),
        0x61 <= c <= 0x66 ==> spec_parse_hex_byte(seq![c]) == Ok::<u8, HexFault>((c - 0x57) as u8),
        0x41 <= c <= 0x46 ==> spec_parse_hex_byte(seq![c]) == Ok::<u8, HexFault>((c - 0x37) as u8),
        !(0x30 <= c <= 0x39 || 0x61 <= c <= 0x66 || 0x41 <= c <= 0x46) ==> spec_parse_hex_byte(
            seq![c],
        ) is Err,
{
    let s = seq![c];
    assert(strip_repeated(s, ASCII_ZERO, ASCII_LOWER_X) == s);
    assert(strip_repeated(s, ASCII_ZERO, ASCII_UPPER_X) == s);
    assert(trim_hex_prefix(s) == s);
    assert(s.drop_last() =~= Seq::<u8>::empty());
    assert(hex_digits_value(s.drop_last()) == Some(0nat));
}

/// Two digits parse to the first digit's value times sixteen plus the
/// second's.
pub proof fn lemma_two_digits(x: u8, y: u8)
    requires
        spec_parse_hex_byte(seq![x]) is Ok,
        spec_parse_hex_byte(seq![y]) is Ok,
    ensures
        spec_parse_hex_byte(seq![x, y]) == Ok::<u8, HexFault>(
            (16 * spec_parse_hex_byte(seq![x])->Ok_0 + spec_parse_hex_byte(seq![y])->Ok_0) as u8,
        ),
        16 * spec_parse_hex_byte(seq![x])->Ok_0 + spec_parse_hex_byte(seq![y])->Ok_0 <= 255,
{
    lemma_single_digit(x);
    lemma_single_digit(y);
    let s = seq![x, y];
    assert(strip_repeated(s, ASCII_ZERO, ASCII_LOWER_X) == s);
    assert(strip_repeated(s, ASCII_ZERO, ASCII_UPPER_X) == s);
    assert(trim_hex_prefix(s) == s);
    assert(s.drop_last() =~= seq![x]);
    assert(seq![x].drop_last() =~= Seq::<u8>::empty());
    assert(hex_digits_value(seq![x].drop_last()) == Some(0nat));
}

/// The two-byte group `i` of `b`.
pub open spec fn hex_group(b: Seq<u8>, i: int) -> Seq<u8> {
    b.subrange(2 * i, 2 * i + 2)
}

/// A two-byte group is read as a single byte would be: the group parses in
/// a byte string exactly when it parses alone, to the same value.
proof fn lemma_group_as_byte(t: Seq<u8>)
    requires
        t.len() == 2,
    ensures
        match radix16_u8(t) {
            Some(v) => spec_parse_hex_byte(t) == Ok::<u8, HexFault>(v),
            None => spec_parse_hex_byte(t) is Err,
        },
{
    if t[0] == ASCII_ZERO && (t[1] == ASCII_LOWER_X || t[1] == ASCII_UPPER_X) {
        assert(t.skip(2) =~= Seq::<u8>::empty());
        assert(t.drop_last() =~= seq![t[0]]);
        assert(t.last() == t[1]);
        if t[1] == ASCII_LOWER_X {
            assert(strip_repeated(t, ASCII_ZERO, ASCII_LOWER_X) == strip_repeated(
                t.skip(2),
                ASCII_ZERO,
                ASCII_LOWER_X,
            ));
        } else {
            assert(strip_repeated(t, ASCII_ZERO, ASCII_LOWER_X) == t);
            assert(strip_repeated(t, ASCII_ZERO, ASCII_UPPER_X) == strip_repeated(
                t.skip(2),
                ASCII_ZERO,
                ASCII_UPPER_X,
            ));
        }
        assert(trim_hex_prefix(t) =~= Seq::<u8>::empty());
    } else {
        assert(strip_repeated(t, ASCII_ZERO, ASCII_LOWER_X) == t);
        assert(strip_repeated(t, ASCII_ZERO, ASCII_UPPER_X) == t);
    }
}

/// A byte string of digit pairs parses exactly when its length is even and
/// every two-byte group parses as a byte on its own, and then byte `i` is
/// the value of group `i`.
pub proof fn lemma_pairs_are_bytes(b: Seq<u8>)
    ensures
        hex_pairs(b) is Ok <==> (b.len() % 2 == 0 && forall|i: int|
            0 <= i < b.len() / 2 ==> spec_parse_hex_byte(#[trigger] hex_group(b, i)) is Ok),
        hex_pairs(b) matches Ok(v) ==> v.len() == b.len() / 2 && forall|i: int|
            0 <= i < b.len() / 2 ==> spec_parse_hex_byte(#[trigger] hex_group(b, i)) == Ok::<
                u8,
                HexFault,
            >(v[i]),
    decreases b.len(),
{
    if b.len() >= 2 {
        let rest = b.skip(2);
        lemma_pairs_are_bytes(rest);
        assert(b.take(2) =~= hex_group(b, 0));
        lemma_group_as_byte(hex_group(b, 0));
        assert forall|i: int| 0 <= i < rest.len() / 2 implies #[trigger] hex_group(rest, i)
            =~= hex_group(b, i + 1) by {}
        if hex_pairs(b) is Ok {
            let v = hex_pairs(b)->Ok_0;
            assert forall|i: int| 0 <= i < b.len() / 2 implies spec_parse_hex_byte(
                #[trigger] hex_group(b, i),
            ) == Ok::<u8, HexFault>(v[i]) by {
                if i > 0 {
                    assert(hex_group(rest, i - 1) =~= hex_group(b, i));
                }
            }
        } else if b.len() % 2 == 0 {
            if radix16_u8(b.take(2)) is Some {
                let i = choose|i: int|
                    0 <= i < rest.len() / 2 && !(spec_parse_hex_byte(#[trigger] hex_group(rest, i)) is Ok);
                assert(hex_group(rest, i) =~= hex_group(b, i + 1));
            }
        }
    } else if b.len() == 1 {
    }
}

// ---------------------------------------------------------------------------
// Executable parsing
// ---------------------------------------------------------------------------

/// Offset at which `b[start..]` stands once every leading `p0 p1` is removed.
fn skip_repeated(b: &[u8], start: usize, p0: u8, p1: u8) -> (r: usize)
    requires
        start <= b@.len(),
    ensures
        start <= r <= b@.len(),
        b@.skip(r as int) == strip_repeated(b@.skip(start as int), p0, p1),
{
    let n = b.len();
    let mut i = start;
    while n - i >= 2 && b[i] == p0 && b[i + 1] == p1
        invariant
            start <= i <= n,
            n == b@.len(),
            strip_repeated(b@.skip(start as int), p0, p1) == strip_repeated(b@.skip(i as int), p0, p1),
        decreases n - i,
    {
        let ghost t = b@.skip(i as int);
        assert(t[0] == b@[i as int] && t[1] == b@[i + 1]);
        assert(t.skip(2) =~= b@.skip(i + 2));
        i = i + 2;
    }
    proof {
        let t = b@.skip(i as int);
        if t.len() >= 2 {
            assert(t[0] == b@[i as int] && t[1] == b@[i + 1]);
        }
    }
    i
}

/// Offset at which the digits of `b` start once its prefixes are trimmed.
fn skip_hex_prefix(b: &[u8]) -> (r: usize)
    ensures
        r <= b@.len(),
        b@.skip(r as int) == trim_hex_prefix(b@),
{
    assert(b@.skip(0) =~= b@);
    let i = skip_repeated(b, 0, ASCII_ZERO, ASCII_LOWER_X);
    skip_repeated(b, i, ASCII_ZERO, ASCII_UPPER_X)
}

/// A copy of `b[lo..hi]`.
fn copy_range(b: &[u8], lo: usize, hi: usize) -> (v: Vec<u8>)
    requires
        lo <= hi <= b@.len(),
    ensures
        v@ == b@.subrange(lo as int, hi as int),
{
    let mut v: Vec<u8> = Vec::with_capacity(hi - lo);
    let mut i = lo;
    while i < hi
        invariant
            lo <= i <= hi,
            hi <= b@.len(),
            v@ == b@.subrange(lo as int, i as int),
        decreases hi - i,
    {
        v.push(b[i]);
        assert(v@ =~= b@.subrange(lo as int, i + 1));
        i = i + 1;
    }
    v
}

/// Value of one hexadecimal digit.
fn hex_digit(c: u8) -> (r: Option<u8>)
    ensures
        match r {
            Some(v) => hex_digit_value(c) == Some(v as nat) && v < 16,
            None => hex_digit_value(c) is None,
        },
{
    if 0x30 <= c && c <= 0x39 {
        Some(c - 0x30)
    } else if 0x61 <= c && c <= 0x66 {
        Some(c - 0x61 + 10)
    } else if 0x41 <= c && c <= 0x46 {
        Some(c - 0x41 + 10)
    } else {
        None
    }
}

/// `u8::from_str_radix(b[lo..hi], 16)` for at most two bytes.
fn radix16_small(b: &[u8], lo: usize, hi: usize) -> (r: Option<u8>)
    requires
        lo <= hi <= b@.len(),
        hi - lo <= 2,
    ensures
        r == radix16_u8(b@.subrange(lo as int, hi as int)),
{
    let ghost s = b@.subrange(lo as int, hi as int);
    if hi == lo {
        return None;
    }
    if hi - lo == 1 {
        let c = b[lo];
        assert(s[0] == c);
        let ghost d = s;
        assert(d.drop_last() =~= Seq::<u8>::empty());
        assert(d.last() == c);
        assert(hex_digits_value(d.drop_last()) == Some(0nat));
        return match hex_digit(c) {
            Some(v) => {
                assert(hex_digits_value(d) == Some(v as nat));
                Some(v)
            },
            None => None,
        };
    }
    let c0 = b[lo];
    let c1 = b[lo + 1];
    assert(s[0] == c0 && s[1] == c1);
    if c0 == ASCII_PLUS {
        let ghost d = s.skip(1);
        assert(d.len() == 1 && d[0] == c1);
        assert(d.drop_last() =~= Seq::<u8>::empty());
        assert(d.last() == c1);
        assert(hex_digits_value(d.drop_last()) == Some(0nat));
        match hex_digit(c1) {
            Some(v) => {
                assert(hex_digits_value(d) == Some(v as nat));
                Some(v)
            },
            None => None,
        }
    } else {
        let ghost d = s;
        assert(d.drop_last() =~= seq![c0]);
        assert(d.last() == c1);
        let ghost d0 = seq![c0];
        assert(d0.drop_last() =~= Seq::<u8>::empty());
        assert(d0.last() == c0);
        assert(hex_digits_value(d0.drop_last()) == Some(0nat));
        match (hex_digit(c0), hex_digit(c1)) {
            (Some(x), Some(y)) => {
                assert(hex_digits_value(d0) == Some(x as nat));
                assert(hex_digits_value(d) == Some((x * 16 + y) as nat));
                Some(x * 16 + y)
            },
            (None, _) => None,
            (_, None) => None,
        }
    }
}

/// Parses the two-byte groups of `b`.
fn parse_pairs(b: &[u8]) -> (res: Result<Vec<u8>, HexError>)
    requires
        !hex_pairs_panics(b@),
    ensures
        result_bytes(res) == hex_pairs(b@),
{
    let n = b.len();
    let mut res: Vec<u8> = Vec::with_capacity(n / 2);
    let mut i: usize = 0;
    assert(b@.skip(0) =~= b@);
    while i < n
        invariant
            n == b@.len(),
            i <= n,
            !hex_pairs_panics(b@.skip(i as int)),
            hex_pairs(b@) == prepend_ok(res@, hex_pairs(b@.skip(i as int))),
        decreases n - i,
    {
        let ghost t = b@.skip(i as int);
        assert(t.len() >= 2);
        assert(t.take(2) =~= b@.subrange(i as int, i + 2));
        assert(t.skip(2) =~= b@.skip(i + 2));
        match radix16_small(b, i, i + 2) {
            None => {
                return Err(HexError::ParseError(copy_range(b, i, i + 2)));
            },
            Some(x) => {
                let ghost before = res@;
                res.push(x);
                proof {
                    match hex_pairs(t.skip(2)) {
                        Ok(r) => {
                            assert(before + (seq![x] + r) =~= res@ + r);
                        },
                        Err(_) => {},
                    }
                }
                i = i + 2;
            },
        }
    }
    assert(b@.skip(i as int) =~= Seq::<u8>::empty());
    assert(res@ + Seq::<u8>::empty() =~= res@);
    Ok(res)
}

/// Parses one byte written in hexadecimal, with or without a `0x` or `0X`
/// prefix, as in `0x55` or `55`.
pub fn parse_hex_byte(s: &str) -> (res: Result<u8, HexError>)
    ensures
        fault_view(res) == spec_parse_hex_byte(s.spec_bytes()),
{
    let b = s.as_bytes();
    let start = skip_hex_prefix(b);
    let n = b.len();
    assert(b@.subrange(start as int, n as int) =~= b@.skip(start as int));
    if n - start > 2 {
        return Err(HexError::InvalidHexByte(copy_range(b, start, n)));
    }
    match radix16_small(b, start, n) {
        Some(v) => Ok(v),
        None => Err(HexError::ParseError(copy_range(b, start, n))),
    }
}

/// Parses a byte string written in hexadecimal, with or without a `0x` or
/// `0X` prefix; an odd number of digits is read as if a `0` led them, so
/// `7` gives `[0x07]`.
pub fn parse_hex_bytes(s: &str) -> (res: Result<Vec<u8>, HexError>)
    requires
        !hex_pairs_panics(pad_even(trim_hex_prefix(s.spec_bytes()))),
    ensures
        result_bytes(res) == spec_parse_hex_bytes(s.spec_bytes()),
{
    let b = s.as_bytes();
    let start = skip_hex_prefix(b);
    let n = b.len();
    if start == n {
        return Ok(Vec::new());
    }
    if (n - start) % 2 != 0 {
        let mut padded: Vec<u8> = Vec::with_capacity(n - start);
        padded.push(ASCII_ZERO);
        let mut i = start;
        while i < n
            invariant
                start <= i <= n,
                n == b@.len(),
                padded@ == seq![ASCII_ZERO] + b@.subrange(start as int, i as int),
            decreases n - i,
        {
            padded.push(b[i]);
            assert(b@.subrange(start as int, i + 1) =~= b@.subrange(start as int, i as int).push(
                b@[i as int],
            ));
            assert(padded@ =~= seq![ASCII_ZERO] + b@.subrange(start as int, i + 1));
            i = i + 1;
        }
        assert(b@.subrange(start as int, n as int) =~= b@.skip(start as int));
        parse_pairs(padded.as_slice())
    } else {
        let rest = copy_range(b, start, n);
        assert(rest@ =~= b@.skip(start as int));
        parse_pairs(rest.as_slice())
    }
}

/// Parses an even number of hexadecimal digits, two per byte, without any
/// prefix.
pub fn parse_hex_bytes_even(s: &str) -> (res: Result<Vec<u8>, HexError>)
    requires
        !hex_pairs_panics(s.spec_bytes()),
    ensures
        result_bytes(res) == hex_pairs(s.spec_bytes()),
{
    parse_pairs(s.as_bytes())
}

/// Whether cutting `b` into two-byte groups fails before a group that does
/// not parse is met.
fn pairs_slicing_fails(b: &[u8]) -> (r: bool)
    ensures
        r == hex_pairs_panics(b@),
{
    let n = b.len();
    let mut i: usize = 0;
    assert(b@.skip(0) =~= b@);
    while i < n
        invariant
            n == b@.len(),
            i <= n,
            hex_pairs_panics(b@) == hex_pairs_panics(b@.skip(i as int)),
        decreases n - i,
    {
        let ghost t = b@.skip(i as int);
        if n - i < 2 {
            return true;
        }
        let at = i + 2;
        let boundary = at == n || !(0x80 <= b[at] && b[at] < 0xC0);
        proof {
            if at < n {
                assert(t[2] == b@[at as int]);
            }
        }
        if !boundary {
            return true;
        }
        assert(t.take(2) =~= b@.subrange(i as int, i + 2));
        assert(t.skip(2) =~= b@.skip(i + 2));
        match radix16_small(b, i, i + 2) {
            None => {
                return false;
            },
            Some(_) => {},
        }
        i = i + 2;
    }
    assert(b@.skip(i as int) =~= Seq::<u8>::empty());
    false
}

/// Whether `parse_hex_bytes_even` cannot take `s`: cutting it into two-byte
/// groups fails (an odd length, or a group that would split a character)
/// before a group that does not parse is met.
pub fn hex_pairs_slicing_fails(s: &str) -> (r: bool)
    ensures
        r == hex_pairs_panics(s.spec_bytes()),
{
    pairs_slicing_fails(s.as_bytes())
}

/// Whether `parse_hex_bytes` cannot take `s`: the same test, on the digits
/// left once the prefixes are trimmed and an odd count is padded.
pub fn hex_bytes_slicing_fails(s: &str) -> (r: bool)
    ensures
        r == hex_pairs_panics(pad_even(trim_hex_prefix(s.spec_bytes()))),
{
    let b = s.as_bytes();
    let start = skip_hex_prefix(b);
    let n = b.len();
    let mut digits: Vec<u8> = Vec::with_capacity(n - start);
    if (n - start) % 2 != 0 {
        digits.push(ASCII_ZERO);
    }
    let ghost head = digits@;
    let mut i = start;
    while i < n
        invariant
            start <= i <= n,
            n == b@.len(),
            digits@ == head + b@.subrange(start as int, i as int),
        decreases n - i,
    {
        digits.push(b[i]);
        assert(digits@ =~= head + b@.subrange(start as int, i + 1));
        i = i + 1;
    }
    assert(b@.subrange(start as int, n as int) =~= b@.skip(start as int));
    assert(digits@ =~= pad_even(trim_hex_prefix(b@)));
    pairs_slicing_fails(digits.as_slice())
}

} // verus!
