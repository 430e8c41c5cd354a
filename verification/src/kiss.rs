//! KISS framing: frames are bounded by FEND bytes, and FEND / FESC inside a
//! payload are escaped as FESC TFEND / FESC TFESC.

use vstd::prelude::*;
use crate::byte_buffer::{
    bytes_mut_contents, buf_len, buf_byte, buf_advance, buf_split_to, buf_clear, buf_reserve,
    buf_put_u8,
};

verus! {

/// Frame end: opens and closes every frame.
pub const FEND: u8 = 0xC0;

/// Frame escape: introduces a transposed byte.
pub const FESC: u8 = 0xDB;

/// Transposed frame end: `FESC TFEND` stands for a FEND in the payload.
pub const TFEND: u8 = 0xDC;

/// Transposed frame escape: `FESC TFESC` stands for a FESC in the payload.
pub const TFESC: u8 = 0xDD;

/// Once this many bytes have arrived without any FEND, they are dropped.
pub const MAX_UNFRAMED: usize = 8192;

/// Declares `std::io::Error`, the error type of the codec, as an opaque type.
#[verifier::external_type_specification]
#[verifier::external_body]
pub struct ExIoError(std::io::Error);

// ---------------------------------------------------------------------------
// Mathematical model of the framing
// ---------------------------------------------------------------------------

/// Index of the first FEND in `s`, if any.
pub open spec fn first_fend(s: Seq<u8>) -> Option<int>
    decreases s.len(),
{
    if s.len() == 0 {
        None
    } else if s[0] == FEND {
        Some(0)
    } else {
        match first_fend(s.drop_first()) {
            Some(i) => Some(i + 1),
            None => None,
        }
    }
}

/// The byte that an escape sequence `FESC b` stands for.
pub open spec fn unescape_byte(b: u8) -> u8 {
    if b == TFEND {
        FEND
    } else if b == TFESC {
        FESC
    } else {
        b
    }
}

/// Payload carried by the bytes between two FENDs: `FESC x` stands for
/// `unescape_byte(x)`, a FESC with nothing after it is dropped, a FEND is
/// skipped, and any other byte stands for itself.
pub open spec fn kiss_unescape(s: Seq<u8>) -> Seq<u8>
    decreases s.len(),
{
    if s.len() == 0 {
        Seq::<u8>::empty()
    } else if s[0] == FESC {
        if s.len() == 1 {
            Seq::<u8>::empty()
        } else {
            seq![unescape_byte(s[1])] + kiss_unescape(s.skip(2))
        }
    } else if s[0] == FEND {
        kiss_unescape(s.skip(1))
    } else {
        seq![s[0]] + kiss_unescape(s.skip(1))
    }
}

/// The bytes that stand for one payload byte inside a frame.
pub open spec fn escape_byte(b: u8) -> Seq<u8> {
    if b == FEND {
        seq![FESC, TFEND]
    } else if b == FESC {
        seq![FESC, TFESC]
    } else {
        seq![b]
    }
}

/// Escaped form of a payload, byte after byte.
pub open spec fn kiss_escape(s: Seq<u8>) -> Seq<u8>
    decreases s.len(),
{
    if s.len() == 0 {
        Seq::<u8>::empty()
    } else {
        kiss_escape(s.drop_last()) + escape_byte(s.last())
    }
}

/// A complete frame carrying `payload`: FEND, the escaped payload, FEND.
pub open spec fn kiss_frame(payload: Seq<u8>) -> Seq<u8> {
    seq![FEND] + kiss_escape(payload) + seq![FEND]
}

/// One step of the decoder on the buffered bytes `s`: the payload it yields,
/// if any, and the bytes left in the buffer.
///
/// Bytes before the first FEND are discarded. Without any FEND, a buffer of
/// more than `MAX_UNFRAMED` bytes is emptied and a smaller one is kept. Without
/// a second FEND, the buffer keeps the open frame. Otherwise the frame up to
/// the next FEND is removed; an empty payload moves on to the next frame.
pub open spec fn kiss_decode(s: Seq<u8>) -> (Option<Seq<u8>>, Seq<u8>)
    decreases s.len(),
{
    match first_fend(s) {
        None => (None, if s.len() > MAX_UNFRAMED { Seq::<u8>::empty() } else { s }),
        Some(start) => {
            let t = s.skip(start);
            match first_fend(t.skip(1)) {
                None => (None, t),
                Some(e) => {
                    let end = e + 1;
                    let payload = kiss_unescape(t.subrange(1, end));
                    let rest = t.skip(end + 1);
                    proof {
                        lemma_first_fend(s);
                        lemma_first_fend(t.skip(1));
                    }
                    if payload.len() == 0 {
                        kiss_decode(rest)
                    } else {
                        (Some(payload), rest)
                    }
                }
            }
        }
    }
}

/// `Option<Vec<u8>>` seen as an optional sequence of bytes.
pub open spec fn opt_bytes(o: Option<Vec<u8>>) -> Option<Seq<u8>> {
    match o {
        Some(v) => Some(v@),
        None => None,
    }
}

// ---------------------------------------------------------------------------
// Lemmas
// ---------------------------------------------------------------------------

/// `first_fend` is the index of the first FEND.
pub proof fn lemma_first_fend(s: Seq<u8>)
    ensures
        match first_fend(s) {
            Some(i) => 0 <= i < s.len() && s[i] == FEND && forall|j: int| 0 <= j < i ==> s[j] != FEND,
            None => forall|j: int| 0 <= j < s.len() ==> s[j] != FEND,
        },
    decreases s.len(),
{
    if s.len() > 0 && s[0] != FEND {
        lemma_first_fend(s.drop_first());
        assert forall|j: int| 1 <= j < s.len() implies s[j] == s.drop_first()[j - 1] by {}
    }
}

/// Characterises `first_fend` from the position of the first FEND.
proof fn lemma_first_fend_at(s: Seq<u8>, i: int)
    requires
        0 <= i < s.len(),
        s[i] == FEND,
        forall|j: int| 0 <= j < i ==> s[j] != FEND,
    ensures
        first_fend(s) == Some(i),
{
    lemma_first_fend(s);
}

/// Characterises `first_fend` on a sequence without FEND.
proof fn lemma_first_fend_none(s: Seq<u8>)
    requires
        forall|j: int| 0 <= j < s.len() ==> s[j] != FEND,
    ensures
        first_fend(s) is None,
{
    lemma_first_fend(s);
}

/// Unfolds `kiss_unescape` by one step at position `k` of `s`.
proof fn lemma_unescape_step(s: Seq<u8>, k: int)
    requires
        0 <= k < s.len(),
    ensures
        s[k] == FESC && k + 1 < s.len() ==> kiss_unescape(s.skip(k)) == seq![unescape_byte(s[k + 1])]
            + kiss_unescape(s.skip(k + 2)),
        s[k] == FESC && k + 1 == s.len() ==> kiss_unescape(s.skip(k)) == Seq::<u8>::empty(),
        s[k] == FEND ==> kiss_unescape(s.skip(k)) == kiss_unescape(s.skip(k + 1)),
        s[k] != FESC && s[k] != FEND ==> kiss_unescape(s.skip(k)) == seq![s[k]] + kiss_unescape(
            s.skip(k + 1),
        ),
{
    let t = s.skip(k);
    assert(t[0] == s[k]);
    assert(t.skip(1) =~= s.skip(k + 1));
    if k + 1 < s.len() {
        assert(t[1] == s[k + 1]);
        assert(t.skip(2) =~= s.skip(k + 2));
    }
}

/// Escaping distributes over a byte put in front.
proof fn lemma_escape_cons(b: u8, s: Seq<u8>)
    ensures
        kiss_escape(seq![b] + s) == escape_byte(b) + kiss_escape(s),
    decreases s.len(),
{
    let bs = seq![b] + s;
    if s.len() == 0 {
        assert(bs.drop_last() =~= Seq::<u8>::empty());
        assert(bs.last() == b);
        assert(kiss_escape(bs.drop_last()) == Seq::<u8>::empty());
        assert(kiss_escape(bs) =~= escape_byte(b));
    } else {
        assert(bs.drop_last() =~= seq![b] + s.drop_last());
        assert(bs.last() == s.last());
        lemma_escape_cons(b, s.drop_last());
        assert(kiss_escape(bs) =~= escape_byte(b) + kiss_escape(s));
    }
}

/// No FEND appears in an escaped payload: the only FENDs of a frame are
/// the two that bound it.
pub proof fn lemma_escape_no_fend(s: Seq<u8>)
    ensures
        forall|j: int| 0 <= j < kiss_escape(s).len() ==> kiss_escape(s)[j] != FEND,
    decreases s.len(),
{
    if s.len() > 0 {
        lemma_escape_no_fend(s.drop_last());
        let a = kiss_escape(s.drop_last());
        let e = escape_byte(s.last());
        assert forall|j: int| 0 <= j < kiss_escape(s).len() implies kiss_escape(s)[j] != FEND by {
            if j >= a.len() {
                assert(kiss_escape(s)[j] == e[j - a.len()]);
            }
        }
    }
}

/// Unescaping undoes escaping.
proof fn lemma_unescape_escape(s: Seq<u8>)
    ensures
        kiss_unescape(kiss_escape(s)) == s,
    decreases s.len(),
{
    if s.len() == 0 {
    } else {
        let b = s[0];
        let tail = s.drop_first();
        assert(s =~= seq![b] + tail);
        lemma_escape_cons(b, tail);
        lemma_unescape_escape(tail);
        let e = kiss_escape(s);
        let et = kiss_escape(tail);
        assert(e =~= escape_byte(b) + et);
        if b == FEND || b == FESC {
            assert(e.skip(2) =~= et);
        } else {
            assert(e.skip(1) =~= et);
        }
    }
}

/// The bytes the decoder leaves in the buffer are always a suffix of what
/// was there before the call.
pub proof fn lemma_decode_leaves_suffix(s: Seq<u8>)
    ensures
        exists|k: int| 0 <= k <= s.len() && #[trigger] s.skip(k) == kiss_decode(s).1,
    decreases s.len(),
{
    lemma_first_fend(s);
    match first_fend(s) {
        None => {
            if s.len() > MAX_UNFRAMED {
                assert(s.skip(s.len() as int) =~= Seq::<u8>::empty());
            } else {
                assert(s.skip(0) =~= s);
            }
        },
        Some(start) => {
            let t = s.skip(start);
            lemma_first_fend(t.skip(1));
            match first_fend(t.skip(1)) {
                None => {},
                Some(e) => {
                    let end = e + 1;
                    let rest = t.skip(end + 1);
                    assert(rest =~= s.skip(start + end + 1));
                    if kiss_unescape(t.subrange(1, end)).len() == 0 {
                        lemma_decode_leaves_suffix(rest);
                        let k = choose|k: int|
                            0 <= k <= rest.len() && #[trigger] rest.skip(k) == kiss_decode(rest).1;
                        assert(rest.skip(k) =~= s.skip(start + end + 1 + k));
                    }
                },
            }
        },
    }
}

/// Round trip: decoding a buffer that starts with the frame of a non-empty
/// payload yields that payload and leaves exactly the bytes that followed
/// the frame.
pub proof fn lemma_kiss_roundtrip(payload: Seq<u8>, rest: Seq<u8>)
    requires
        payload.len() > 0,
    ensures
        kiss_decode(kiss_frame(payload) + rest) == (Some(payload), rest),
{
    let esc = kiss_escape(payload);
    let s = kiss_frame(payload) + rest;
    lemma_escape_no_fend(payload);
    assert(s[0] == FEND);
    lemma_first_fend_at(s, 0);
    let t = s.skip(0);
    assert(t =~= s);
    let u = t.skip(1);
    assert(u[esc.len() as int] == FEND);
    assert forall|j: int| 0 <= j < esc.len() implies u[j] != FEND by {
        assert(u[j] == esc[j]);
    }
    lemma_first_fend_at(u, esc.len() as int);
    let end = esc.len() as int + 1;
    assert(t.subrange(1, end) =~= esc);
    lemma_unescape_escape(payload);
    assert(t.skip(end + 1) =~= rest);
}

/// The frames of a sequence of payloads, one after the other.
pub open spec fn kiss_frames(ds: Seq<Seq<u8>>) -> Seq<u8>
    decreases ds.len(),
{
    if ds.len() == 0 {
        Seq::<u8>::empty()
    } else {
        kiss_frame(ds[0]) + kiss_frames(ds.drop_first())
    }
}

/// What `n` successive decoder steps yield from the buffer `s`, and the
/// bytes left in the buffer after them.
pub open spec fn decode_repeatedly(s: Seq<u8>, n: nat) -> (Seq<Option<Seq<u8>>>, Seq<u8>)
    decreases n,
{
    if n == 0 {
        (Seq::empty(), s)
    } else {
        let (first, rest) = kiss_decode(s);
        let (more, left) = decode_repeatedly(rest, (n - 1) as nat);
        (seq![first] + more, left)
    }
}

/// Encoding one more payload after the frames of `ds` appends its frame:
/// encoding payloads one after the other into an empty buffer leaves
/// `kiss_frames` of them.
pub proof fn lemma_kiss_frames_push(ds: Seq<Seq<u8>>, d: Seq<u8>)
    ensures
        kiss_frames(ds.push(d)) == kiss_frames(ds) + kiss_frame(d),
    decreases ds.len(),
{
    if ds.len() == 0 {
        assert(ds.push(d).drop_first() =~= Seq::<Seq<u8>>::empty());
        assert(ds.push(d)[0] == d);
        assert(kiss_frames(Seq::<Seq<u8>>::empty()) == Seq::<u8>::empty());
        assert(kiss_frame(d) + Seq::<u8>::empty() =~= kiss_frame(d));
        assert(kiss_frames(ds) + kiss_frame(d) =~= kiss_frame(d));
    } else {
        assert(ds.push(d).drop_first() =~= ds.drop_first().push(d));
        lemma_kiss_frames_push(ds.drop_first(), d);
        assert(kiss_frames(ds.push(d)) =~= kiss_frames(ds) + kiss_frame(d));
    }
}

/// A stream of frames decodes back to its payloads, in order: when no
/// payload is empty, as many decoder steps as there are frames yield each
/// payload in turn and leave the buffer empty, and a further step yields
/// nothing and leaves it empty.
pub proof fn lemma_kiss_stream(ds: Seq<Seq<u8>>)
    requires
        forall|i: int| 0 <= i < ds.len() ==> #[trigger] ds[i].len() > 0,
    ensures
        decode_repeatedly(kiss_frames(ds), ds.len()).0 == Seq::new(
            ds.len(),
            |i: int| Some(ds[i]),
        ),
        decode_repeatedly(kiss_frames(ds), ds.len()).1 == Seq::<u8>::empty(),
        kiss_decode(Seq::<u8>::empty()) == (None::<Seq<u8>>, Seq::<u8>::empty()),
    decreases ds.len(),
{
    let empty = Seq::<u8>::empty();
    assert(first_fend(empty) is None);
    if ds.len() > 0 {
        let tail = ds.drop_first();
        assert forall|i: int| 0 <= i < tail.len() implies #[trigger] tail[i].len() > 0 by {
            assert(tail[i] == ds[i + 1]);
        }
        lemma_kiss_stream(tail);
        assert(ds[0].len() > 0);
        lemma_kiss_roundtrip(ds[0], kiss_frames(tail));
        assert(seq![Some(ds[0])] + Seq::new(tail.len(), |i: int| Some(tail[i])) =~= Seq::new(
            ds.len(),
            |i: int| Some(ds[i]),
        ));
    }
}

// ---------------------------------------------------------------------------
// Executable codec
// ---------------------------------------------------------------------------

/// Index of the first FEND at or after `from`.
fn position_fend(b: &bytes::BytesMut, from: usize) -> (r: Option<usize>)
    requires
        from <= bytes_mut_contents(*b).len(),
    ensures
        match r {
            Some(k) => from <= k < bytes_mut_contents(*b).len() && bytes_mut_contents(*b)[k as int]
                == FEND && forall|j: int|
                from <= j < k ==> bytes_mut_contents(*b)[j] != FEND,
            None => forall|j: int|
                from <= j < bytes_mut_contents(*b).len() ==> bytes_mut_contents(*b)[j] != FEND,
        },
{
    let n = buf_len(b);
    let mut i = from;
    while i < n
        invariant
            from <= i <= n,
            n == bytes_mut_contents(*b).len(),
            forall|j: int| from <= j < i ==> bytes_mut_contents(*b)[j] != FEND,
        decreases n - i,
    {
        if buf_byte(b, i) == FEND {
            return Some(i);
        }
        i = i + 1;
    }
    None
}

/// Decodes the payload carried by `frame[1 .. frame.len() - 1]`.
fn unescape_frame(frame: &bytes::BytesMut) -> (decoded: Vec<u8>)
    requires
        bytes_mut_contents(*frame).len() >= 2,
    ensures
        decoded@ == kiss_unescape(
            bytes_mut_contents(*frame).subrange(1, bytes_mut_contents(*frame).len() - 1),
        ),
{
    let ghost f = bytes_mut_contents(*frame);
    let ghost inner = f.subrange(1, f.len() - 1);
    let n = buf_len(frame);
    let mut decoded: Vec<u8> = Vec::with_capacity(n);
    let mut i: usize = 1;
    assert(inner.skip(0) =~= inner);
    while i < n - 1
        invariant
            n == f.len(),
            n >= 2,
            f == bytes_mut_contents(*frame),
            inner == f.subrange(1, n - 1),
            1 <= i <= n,
            i >= n - 1 ==> kiss_unescape(inner) == decoded@,
            i < n - 1 ==> kiss_unescape(inner) == decoded@ + kiss_unescape(inner.skip(i - 1)),
        decreases n - i,
    {
        let b = buf_byte(frame, i);
        let ghost k = i - 1;
        assert(inner[k] == b);
        proof {
            lemma_unescape_step(inner, k);
        }
        if b == FESC {
            i = i + 1;
            if i < n - 1 {
                let x = buf_byte(frame, i);
                assert(inner[k + 1] == x);
                let y = if x == TFEND {
                    FEND
                } else if x == TFESC {
                    FESC
                } else {
                    x
                };
                decoded.push(y);
                proof {
                    if k + 2 == inner.len() {
                        assert(inner.skip(k + 2) =~= Seq::<u8>::empty());
                    }
                }
            }
        } else if b == FEND {
            // a doubled FEND carries nothing
        } else {
            decoded.push(b);
            proof {
                if k + 1 == inner.len() {
                    assert(inner.skip(k + 1) =~= Seq::<u8>::empty());
                }
            }
        }
        i = i + 1;
    }
    if n == 2 {
        assert(inner =~= Seq::<u8>::empty());
    }
    decoded
}

/// Decoder for a stream of KISS frames.
pub struct KissDecoder;

impl KissDecoder {
    /// Takes the next frame with a non-empty payload out of `src`.
    ///
    /// Returns `Ok(None)` when `src` holds no complete frame yet; see
    /// [`kiss_decode`] for what is consumed. It never fails.
    pub fn decode(&mut self, src: &mut bytes::BytesMut) -> (res: Result<
        Option<Vec<u8>>,
        std::io::Error,
    >)
        ensures
            res is Ok,
            opt_bytes(res->Ok_0) == kiss_decode(bytes_mut_contents(*old(src))).0,
            bytes_mut_contents(*final(src)) == kiss_decode(bytes_mut_contents(*old(src))).1,
        decreases bytes_mut_contents(*old(src)).len(),
    {
        let ghost s = bytes_mut_contents(*src);
        proof {
            lemma_first_fend(s);
        }
        match position_fend(src, 0) {
            None => {
                proof {
                    lemma_first_fend_none(s);
                }
                if buf_len(src) > MAX_UNFRAMED {
                    buf_clear(src);
                }
                Ok(None)
            },
            Some(start) => {
                proof {
                    lemma_first_fend_at(s, start as int);
                }
                buf_advance(src, start);
                let ghost t = bytes_mut_contents(*src);
                assert(t == s.skip(start as int));
                let ghost u = t.skip(1);
                let len_t = buf_len(src);
                match position_fend(src, 1) {
                    None => {
                        proof {
                            assert forall|j: int| 0 <= j < u.len() implies u[j] != FEND by {
                                assert(u[j] == t[j + 1]);
                            }
                            lemma_first_fend_none(u);
                        }
                        Ok(None)
                    },
                    Some(end) => {
                        proof {
                            assert forall|j: int| 0 <= j < end - 1 implies u[j] != FEND by {
                                assert(u[j] == t[j + 1]);
                            }
                            assert(u[end - 1] == t[end as int]);
                            lemma_first_fend_at(u, end - 1);
                        }
                        assert(end < len_t);
                        let frame_raw = buf_split_to(src, end + 1);
                        let ghost f = bytes_mut_contents(frame_raw);
                        assert(f.subrange(1, f.len() - 1) =~= t.subrange(1, end as int));
                        let decoded = unescape_frame(&frame_raw);
                        if decoded.len() == 0 {
                            return self.decode(src);
                        }
                        Ok(Some(decoded))
                    },
                }
            },
        }
    }
}

/// Encoder that wraps payloads in KISS frames.
pub struct KissEncoder;

impl KissEncoder {
    /// Appends the frame of `item` to `dst`. It never fails.
    pub fn encode(&mut self, item: Vec<u8>, dst: &mut bytes::BytesMut) -> (res: Result<
        (),
        std::io::Error,
    >)
        requires
            bytes_mut_contents(*old(dst)).len() + 2 * item.len() + 2 <= isize::MAX,
        ensures
            res is Ok,
            bytes_mut_contents(*final(dst)) == bytes_mut_contents(*old(dst)) + kiss_frame(item@),
    {
        let ghost d0 = bytes_mut_contents(*dst);
        let n = item.len();
        buf_reserve(dst, n * 2 + 2);
        buf_put_u8(dst, FEND);
        let mut i: usize = 0;
        while i < n
            invariant
                n == item.len(),
                i <= n,
                d0.len() + 2 * n + 2 <= isize::MAX,
                bytes_mut_contents(*dst) == d0 + seq![FEND] + kiss_escape(item@.take(i as int)),
                kiss_escape(item@.take(i as int)).len() <= 2 * i,
            decreases n - i,
        {
            let b = item[i];
            let ghost before = bytes_mut_contents(*dst);
            if b == FEND {
                buf_put_u8(dst, FESC);
                buf_put_u8(dst, TFEND);
            } else if b == FESC {
                buf_put_u8(dst, FESC);
                buf_put_u8(dst, TFESC);
            } else {
                buf_put_u8(dst, b);
            }
            proof {
                let p = item@.take(i + 1);
                assert(p.drop_last() =~= item@.take(i as int));
                assert(p.last() == b);
                assert(bytes_mut_contents(*dst) =~= before + escape_byte(b));
                assert(kiss_escape(p) == kiss_escape(item@.take(i as int)) + escape_byte(b));
                assert(bytes_mut_contents(*dst) =~= d0 + seq![FEND] + kiss_escape(p));
            }
            i = i + 1;
        }
        assert(item@.take(n as int) =~= item@);
        buf_put_u8(dst, FEND);
        assert(bytes_mut_contents(*dst) =~= d0 + kiss_frame(item@));
        Ok(())
    }

    /// Whether a buffer holding `buffered` bytes can take the frame of a
    /// payload of `payload_len` bytes: at most two bytes per payload byte and
    /// the two FENDs, within `isize::MAX` bytes.
    pub open spec fn frame_fits(buffered: nat, payload_len: nat) -> bool {
        buffered + 2 * payload_len + 2 <= isize::MAX
    }

    /// Appends the frame of `item` to `dst` when the buffer can take it, as
    /// `encode` does; otherwise returns `None` and leaves `dst` as it is.
    pub fn try_encode(&mut self, item: Vec<u8>, dst: &mut bytes::BytesMut) -> (res: Option<
        Result<(), std::io::Error>,
    >)
        ensures
            res is Some <==> Self::frame_fits(bytes_mut_contents(*old(dst)).len(), item@.len()),
            res matches Some(r) ==> r is Ok && bytes_mut_contents(*final(dst)) == bytes_mut_contents(
                *old(dst),
            ) + kiss_frame(item@),
            res is None ==> bytes_mut_contents(*final(dst)) == bytes_mut_contents(*old(dst)),
    {
        let limit = isize::MAX as usize;
        let n = buf_len(dst);
        if n <= limit - 2 && item.len() <= (limit - 2 - n) / 2 {
            Some(self.encode(item, dst))
        } else {
            None
        }
    }
}

/// The payload of a KISS data frame: a frame whose command byte (the first
/// byte, port bits ignored) is zero yields the bytes after it; an empty frame
/// or any other command yields nothing.
pub fn kiss_data_payload(frame: Vec<u8>) -> (r: Option<Vec<u8>>)
    ensures
        frame@.len() > 0 && frame@[0] % 16 == 0 ==> opt_bytes(r) == Some(frame@.skip(1)),
        !(frame@.len() > 0 && frame@[0] % 16 == 0) ==> r is None,
{
    let ghost whole = frame@;
    let mut frame = frame;
    if frame.len() == 0 {
        return None;
    }
    let first = frame[0];
    let cmd = first & 0x0F;
    assert(first & 0x0F == first % 16) by (bit_vector);
    if cmd == 0x00 {
        frame.remove(0);
        assert(frame@ =~= whole.skip(1));
        Some(frame)
    } else {
        None
    }
}

} // verus!
