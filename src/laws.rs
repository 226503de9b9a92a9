use vstd::prelude::*;
use vstd::utf8::{encode_scalar, encode_utf8, encode_utf8_decode_utf8, encode_utf8_valid_utf8};

use crate::command::{bulk_payload, command_of, command_of_bytes};
use crate::protocol::{
    frames_of, lemma_frames_of, CommandView, Element, Error, Frame, ARRAY_TAG, BULK_TAG, CR, LF,
    MINUS, ONE, SIMPLE_TAG,
};
use crate::reader::{
    bulk_body, cr_index, digit_run, element_of, elements_of, length_header,
    lemma_cr_index, lemma_digit_run, lemma_digit_run_facts, lemma_element_of_len,
    lemma_elements_of_len, lemma_length_header_len, prepend, simple_body,
};
use crate::utils::{
    all_digits, ascii_lower, decimal, digits_value, is_digit, lemma_decimal_digits,
    lemma_decimal_no_leading_zero,
};
use crate::writer::{crlf, encode_frame, encode_frames};

verus! {

/// Frames that the decoder can give: simple strings without a carriage return, bulk
/// strings, the null bulk string, and arrays of such frames.
pub open spec fn decodable(f: Frame) -> bool
    decreases f,
{
    match f {
        Frame::Simple(s) => !s.contains('\r'),
        Frame::Bulk(_) => true,
        Frame::Null => true,
        Frame::Array(xs) => forall|i: int| 0 <= i < xs.len() ==> decodable(#[trigger] xs[i]),
        _ => false,
    }
}

/// Every length in the frame can be counted by a `usize`.
pub open spec fn counts_fit(f: Frame) -> bool
    decreases f,
{
    match f {
        Frame::Bulk(b) => b.len() <= usize::MAX,
        Frame::Rdb(b) => b.len() <= usize::MAX,
        Frame::Array(xs) => xs.len() <= usize::MAX && forall|i: int|
            0 <= i < xs.len() ==> counts_fit(#[trigger] xs[i]),
        Frame::Multi(xs) => xs.len() <= usize::MAX && forall|i: int|
            0 <= i < xs.len() ==> counts_fit(#[trigger] xs[i]),
        _ => true,
    }
}

/// The model of an element that the program holds has lengths that a `usize` counts.
pub proof fn lemma_element_counts_fit(e: Element)
    ensures
        counts_fit(e@),
    decreases e,
{
    match e {
        Element::Array(v) => {
            assert(v@.len() == v.len());
            lemma_frames_of(v@);
            assert forall|i: int| 0 <= i < v@.len() implies counts_fit(#[trigger] frames_of(v@)[i]) by {
                lemma_element_counts_fit(v@[i]);
            }
            assert(e@ == Frame::Array(frames_of(v@)));
        },
        Element::MultiInternal(v) => {
            assert(v@.len() == v.len());
            lemma_frames_of(v@);
            assert forall|i: int| 0 <= i < v@.len() implies counts_fit(#[trigger] frames_of(v@)[i]) by {
                lemma_element_counts_fit(v@[i]);
            }
            assert(e@ == Frame::Multi(frames_of(v@)));
        },
        Element::BulkString(b) => {
            assert(b@.len() == b.len());
            assert(e@ == Frame::Bulk(b@));
        },
        Element::RdbFile(b) => {
            assert(b@.len() == b.len());
            assert(e@ == Frame::Rdb(b@));
        },
        _ => {},
    }
}

proof fn lemma_scalar_no_cr(c: u32)
    requires
        c != 13,
    ensures
        forall|i: int| 0 <= i < encode_scalar(c).len() ==> #[trigger] encode_scalar(c)[i] != CR,
{
    assert(forall|x: u8| #[trigger] (0x80u8 | x) != 13u8) by (bit_vector);
    assert(forall|x: u8| #[trigger] (0xC0u8 | x) != 13u8) by (bit_vector);
    assert(forall|x: u8| #[trigger] (0xE0u8 | x) != 13u8) by (bit_vector);
    assert(forall|x: u8| #[trigger] (0xF0u8 | x) != 13u8) by (bit_vector);
    assert(c <= 0x7f ==> (c & 0x7f) == c) by (bit_vector);
}

proof fn lemma_utf8_no_cr(s: Seq<char>)
    requires
        !s.contains('\r'),
    ensures
        forall|i: int| 0 <= i < encode_utf8(s).len() ==> #[trigger] encode_utf8(s)[i] != CR,
    decreases s.len(),
{
    if s.len() > 0 {
        assert(s[0] != '\r');
        assert(s[0] as u32 != 13) by {
            vstd::utf8::char_u32_cast(s[0], s[0] as u32);
        }
        lemma_scalar_no_cr(s[0] as u32);
        assert(!s.drop_first().contains('\r')) by {
            if s.drop_first().contains('\r') {
                let j = choose|j: int| 0 <= j < s.drop_first().len() && s.drop_first()[j] == '\r';
                assert(s[j + 1] == '\r');
            }
        }
        lemma_utf8_no_cr(s.drop_first());
        let a = encode_scalar(s[0] as u32);
        let b = encode_utf8(s.drop_first());
        assert forall|i: int| 0 <= i < encode_utf8(s).len() implies #[trigger] encode_utf8(s)[i]
            != CR by {
            assert(encode_utf8(s) == a + b);
            if i < a.len() {
                assert(encode_utf8(s)[i] == a[i]);
            } else {
                assert(encode_utf8(s)[i] == b[i - a.len()]);
            }
        }
    }
}

proof fn lemma_length_header_round_trip(n: nat, rest: Seq<u8>)
    requires
        n <= usize::MAX,
    ensures
        length_header(decimal(n) + crlf() + rest) == Ok::<(nat, nat), Error>(
            (n, decimal(n).len() + 2),
        ),
{
    let d = decimal(n);
    let b = d + crlf() + rest;
    lemma_decimal_digits(n);
    lemma_decimal_no_leading_zero(n);
    assert(b.take(d.len() as int) == d);
    assert(d.len() > 1 ==> b[0] == d[0]);
    assert(b[d.len() as int] == CR);
    lemma_digit_run(b, d.len() as int);
}

proof fn lemma_encode_frames_cons(x: Frame, ys: Seq<Frame>)
    ensures
        encode_frames(seq![x] + ys) == encode_frame(x) + encode_frames(ys),
    decreases ys.len(),
{
    let xs = seq![x] + ys;
    if ys.len() == 0 {
        assert(xs.drop_last() == Seq::<Frame>::empty());
        assert(encode_frames(Seq::<Frame>::empty()) == Seq::<u8>::empty());
        assert(encode_frames(xs) == Seq::<u8>::empty() + encode_frame(x));
        assert(encode_frames(xs) == encode_frame(x) + Seq::<u8>::empty());
    } else {
        lemma_encode_frames_cons(x, ys.drop_last());
        assert(xs.drop_last() == seq![x] + ys.drop_last());
        assert(xs.last() == ys.last());
        assert(encode_frames(xs) == encode_frame(x) + encode_frames(ys.drop_last()) + encode_frame(
            ys.last(),
        ));
    }
}

proof fn lemma_simple_round_trip(s: Seq<char>, rest: Seq<u8>)
    requires
        !s.contains('\r'),
    ensures
        element_of(encode_frame(Frame::Simple(s)) + rest) == Ok::<(Frame, nat), Error>(
            (Frame::Simple(s), encode_frame(Frame::Simple(s)).len()),
        ),
{
    let b = encode_frame(Frame::Simple(s)) + rest;
    let tail = b.drop_first();
    let u = encode_utf8(s);
    assert(tail == u + crlf() + rest);
    lemma_utf8_no_cr(s);
    assert(tail.take(u.len() as int) == u);
    lemma_cr_index(tail, u.len() as int);
    encode_utf8_valid_utf8(s);
    encode_utf8_decode_utf8(s);
}

proof fn lemma_bulk_body_round_trip(p: Seq<u8>, rest: Seq<u8>)
    requires
        p.len() <= usize::MAX,
    ensures
        bulk_body(decimal(p.len()) + crlf() + (p + crlf() + rest)) == Ok::<(Frame, nat), Error>(
            (Frame::Bulk(p), decimal(p.len()).len() + 2 + p.len() + 2),
        ),
{
    let d = decimal(p.len());
    let tail = d + crlf() + (p + crlf() + rest);
    lemma_decimal_digits(p.len());
    assert(tail[0] == d[0]);
    lemma_length_header_round_trip(p.len(), p + crlf() + rest);
    let r = tail.skip(d.len() + 2int);
    assert(r == p + crlf() + rest);
    assert(r.take(p.len() as int) == p);
}

proof fn lemma_bulk_round_trip(p: Seq<u8>, rest: Seq<u8>)
    requires
        p.len() <= usize::MAX,
    ensures
        element_of(encode_frame(Frame::Bulk(p)) + rest) == Ok::<(Frame, nat), Error>(
            (Frame::Bulk(p), encode_frame(Frame::Bulk(p)).len()),
        ),
{
    let b = encode_frame(Frame::Bulk(p)) + rest;
    let d = decimal(p.len());
    assert(b.drop_first() == d + crlf() + (p + crlf() + rest));
    lemma_bulk_body_round_trip(p, rest);
}

/// Decoding the encoding of an element that the decoder can give yields that element back,
/// and reads exactly the bytes of the encoding, whatever follows them.
pub proof fn lemma_element_round_trip(e: Element, rest: Seq<u8>)
    requires
        decodable(e@),
    ensures
        element_of(encode_frame(e@) + rest) == Ok::<(Frame, nat), Error>(
            (e@, encode_frame(e@).len()),
        ),
{
    lemma_element_counts_fit(e);
    lemma_round_trip(e@, rest);
}

/// Decoding the encoding of a decodable frame gives the frame back and reads exactly the
/// bytes of that encoding, whatever follows them.
pub proof fn lemma_round_trip(f: Frame, rest: Seq<u8>)
    requires
        decodable(f),
        counts_fit(f),
    ensures
        element_of(encode_frame(f) + rest) == Ok::<(Frame, nat), Error>(
            (f, encode_frame(f).len()),
        ),
    decreases f,
{
    let b = encode_frame(f) + rest;
    let tail = b.drop_first();
    match f {
        Frame::Simple(s) => {
            lemma_simple_round_trip(s, rest);
        },
        Frame::Bulk(p) => {
            lemma_bulk_round_trip(p, rest);
        },
        Frame::Null => {
            assert(tail == seq![MINUS, ONE, CR, LF] + rest);
        },
        Frame::Array(xs) => {
            let d = decimal(xs.len());
            let body = encode_frames(xs) + rest;
            assert(tail == d + crlf() + body);
            lemma_length_header_round_trip(xs.len(), body);
            assert(tail.skip(d.len() + 2int) == body);
            lemma_round_trip_all(xs, rest);
        },
        _ => {},
    }
}

/// Decoding the encodings of decodable frames, back to back, gives the frames back.
pub proof fn lemma_round_trip_all(xs: Seq<Frame>, rest: Seq<u8>)
    requires
        forall|i: int| 0 <= i < xs.len() ==> decodable(#[trigger] xs[i]) && counts_fit(xs[i]),
    ensures
        elements_of(encode_frames(xs) + rest, xs.len()) == Ok::<(Seq<Frame>, nat), Error>(
            (xs, encode_frames(xs).len()),
        ),
    decreases xs,
{
    if xs.len() > 0 {
        let x = xs[0];
        let ys = xs.drop_first();
        assert(xs == seq![x] + ys);
        lemma_encode_frames_cons(x, ys);
        let b = encode_frames(xs) + rest;
        assert(b == encode_frame(x) + (encode_frames(ys) + rest));
        assert(decodable(x));
        lemma_round_trip(x, encode_frames(ys) + rest);
        assert(b.skip(encode_frame(x).len() as int) == encode_frames(ys) + rest);
        lemma_round_trip_all(ys, rest);
    } else {
        assert(encode_frames(xs) == Seq::<u8>::empty());
        assert(xs == Seq::<Frame>::empty());
    }
}

proof fn lemma_length_header_prefix(b: Seq<u8>, c: Seq<u8>)
    requires
        length_header(b) matches Ok((v, h)) && h <= c.len() && c.take(h as int) == b.take(h as int),
    ensures
        length_header(c) == length_header(b),
{
    lemma_digit_run_facts(b);
    let k = digit_run(b) as int;
    assert(b.take(k) == c.take(k)) by {
        assert(b.take(k) == b.take(k + 2).take(k));
        assert(c.take(k) == c.take(k + 2).take(k));
    }
    assert(c[k] == b[k] && c[k + 1] == b[k + 1]) by {
        assert(c[k] == c.take(k + 2)[k] && b[k] == b.take(k + 2)[k]);
        assert(c[k + 1] == c.take(k + 2)[k + 1] && b[k + 1] == b.take(k + 2)[k + 1]);
    }
    assert(c[0] == b[0]) by {
        assert(c[0] == c.take(k + 2)[0] && b[0] == b.take(k + 2)[0]);
    }
    lemma_digit_run(c, k);
}

proof fn lemma_simple_body_prefix(b: Seq<u8>, c: Seq<u8>)
    requires
        simple_body(b) matches Ok((f, n)) && n <= c.len() && c.take(n as int) == b.take(n as int),
    ensures
        simple_body(c) == simple_body(b),
{
    crate::reader::lemma_cr_index_facts(b);
    let k = cr_index(b)->Some_0 as int;
    assert forall|j: int| 0 <= j < k implies c[j] != CR by {
        assert(c[j] == c.take(k + 2)[j] && b[j] == b.take(k + 2)[j]);
        crate::reader::lemma_cr_index_before(b, j);
    }
    assert(c[k] == c.take(k + 2)[k] && b[k] == b.take(k + 2)[k]);
    assert(c[k + 1] == c.take(k + 2)[k + 1] && b[k + 1] == b.take(k + 2)[k + 1]);
    lemma_cr_index(c, k);
    assert(c.take(k) == b.take(k)) by {
        assert(b.take(k) == b.take(k + 2).take(k));
        assert(c.take(k) == c.take(k + 2).take(k));
    }
}

proof fn lemma_bulk_body_prefix(b: Seq<u8>, c: Seq<u8>)
    requires
        bulk_body(b) matches Ok((f, n)) && n <= c.len() && c.take(n as int) == b.take(n as int),
    ensures
        bulk_body(c) == bulk_body(b),
{
    let n = bulk_body(b)->Ok_0.1 as int;
    assert(c[0] == b[0]) by {
        assert(c[0] == c.take(n)[0] && b[0] == b.take(n)[0]);
    }
    if b[0] == MINUS {
        assert forall|j: int| 0 <= j < 4 implies #[trigger] c[j] == b[j] by {
            assert(c[j] == c.take(n)[j] && b[j] == b.take(n)[j]);
        }
        return;
    }
    let (len, h) = length_header(b)->Ok_0;
    assert(c.take(h as int) == b.take(h as int)) by {
        assert(b.take(h as int) == b.take(n).take(h as int));
        assert(c.take(h as int) == c.take(n).take(h as int));
    }
    lemma_length_header_prefix(b, c);
    let rb = b.skip(h as int);
    let rc = c.skip(h as int);
    assert forall|j: int| 0 <= j < len + 2 implies #[trigger] rc[j] == rb[j] by {
        assert(rc[j] == c.take(n)[h + j] && rb[j] == b.take(n)[h + j]);
    }
    assert(rc.take(len as int) == rb.take(len as int));
}

/// The decoder reads no further than the frame it gives: bytes after the frame do not
/// change the result.
pub proof fn lemma_element_of_prefix(b: Seq<u8>, c: Seq<u8>)
    requires
        element_of(b) matches Ok((f, n)) && n <= c.len() && c.take(n as int) == b.take(n as int),
    ensures
        element_of(c) == element_of(b),
    decreases b.len(), 0nat,
{
    let n = element_of(b)->Ok_0.1 as int;
    lemma_element_of_len(b);
    assert(c[0] == c.take(n)[0] && b[0] == b.take(n)[0]);
    let rb = b.drop_first();
    let rc = c.drop_first();
    assert(rc.take(n - 1) == rb.take(n - 1)) by {
        assert forall|j: int| 0 <= j < n - 1 implies #[trigger] rc.take(n - 1)[j] == rb.take(n - 1)[j] by {
            assert(rc[j] == c.take(n)[j + 1] && rb[j] == b.take(n)[j + 1]);
        }
    }
    if b[0] == SIMPLE_TAG {
        lemma_simple_body_prefix(rb, rc);
    } else if b[0] == BULK_TAG {
        lemma_bulk_body_prefix(rb, rc);
    } else {
        let (k, h) = length_header(rb)->Ok_0;
        let m = elements_of(rb.skip(h as int), k)->Ok_0.1 as int;
        assert(rc.take(h as int) == rb.take(h as int)) by {
            assert(rb.take(h as int) == rb.take(n - 1).take(h as int));
            assert(rc.take(h as int) == rc.take(n - 1).take(h as int));
        }
        lemma_length_header_prefix(rb, rc);
        lemma_length_header_len(rb);
        let sb = rb.skip(h as int);
        let sc = rc.skip(h as int);
        assert(sc.take(m) == sb.take(m)) by {
            assert forall|j: int| 0 <= j < m implies #[trigger] sc.take(m)[j] == sb.take(m)[j] by {
                assert(sc[j] == rc.take(n - 1)[h + j] && sb[j] == rb.take(n - 1)[h + j]);
            }
        }
        lemma_elements_of_prefix(sb, sc, k);
    }
}

/// Frames back to back are read no further than their last byte.
pub proof fn lemma_elements_of_prefix(b: Seq<u8>, c: Seq<u8>, k: nat)
    requires
        elements_of(b, k) matches Ok((fs, m)) && m <= c.len() && c.take(m as int) == b.take(
            m as int,
        ),
    ensures
        elements_of(c, k) == elements_of(b, k),
    decreases b.len(), 1nat, k,
{
    if k > 0 {
        let m = elements_of(b, k)->Ok_0.1 as int;
        let (f, n) = element_of(b)->Ok_0;
        lemma_element_of_len(b);
        lemma_elements_of_len(b.skip(n as int), (k - 1) as nat);
        assert(c.take(n as int) == b.take(n as int)) by {
            assert(b.take(n as int) == b.take(m).take(n as int));
            assert(c.take(n as int) == c.take(m).take(n as int));
        }
        lemma_element_of_prefix(b, c);
        let sb = b.skip(n as int);
        let sc = c.skip(n as int);
        let m2 = m - n;
        assert(sc.take(m2) == sb.take(m2)) by {
            assert forall|j: int| 0 <= j < m2 implies #[trigger] sc.take(m2)[j] == sb.take(m2)[j] by {
                assert(sc[j] == c.take(m)[n + j] && sb[j] == b.take(m)[n + j]);
            }
        }
        lemma_elements_of_prefix(sb, sc, (k - 1) as nat);
    }
}

/// A frame cut short anywhere fails to parse: no strict prefix of the encoding of a
/// decodable frame is read as a frame, so a missing final `\r\n` is always noticed.
pub proof fn lemma_truncated_fails(f: Frame, k: int)
    requires
        decodable(f),
        counts_fit(f),
        0 <= k < encode_frame(f).len(),
    ensures
        element_of(encode_frame(f).take(k)) is Err,
{
    let e = encode_frame(f);
    let p = e.take(k);
    if let Ok((g, n)) = element_of(p) {
        lemma_element_of_len(p);
        assert(p.take(n as int) == e.take(n as int));
        lemma_element_of_prefix(p, e);
        lemma_round_trip(f, Seq::empty());
        assert(e + Seq::<u8>::empty() == e);
    }
}

/// A bulk string whose declared length is more than the bytes after its header fails to
/// parse; with a well-formed length that a `usize` holds, because the input is too short.
pub proof fn lemma_bulk_length_beyond_input(d: Seq<u8>, rest: Seq<u8>)
    requires
        all_digits(d),
        digits_value(d) > rest.len(),
    ensures
        element_of(seq![BULK_TAG] + d + crlf() + rest) is Err,
        d.len() > 0 && (d.len() == 1 || d[0] != 48) && digits_value(d) <= usize::MAX
            ==> element_of(seq![BULK_TAG] + d + crlf() + rest) == Err::<(Frame, nat), Error>(
            Error::ShortRead,
        ),
{
    let b = seq![BULK_TAG] + d + crlf() + rest;
    let t = b.drop_first();
    assert(t == d + crlf() + rest);
    assert(t.take(d.len() as int) == d);
    assert(t[d.len() as int] == CR);
    lemma_digit_run(t, d.len() as int);
    assert(t.skip(d.len() + 2int) == rest);
    if d.len() > 0 {
        assert(t[0] == d[0]);
    }
}

/// A bulk string whose payload is not followed by `\r\n` fails to parse.
pub proof fn lemma_bulk_missing_terminator(p: Seq<u8>, t: Seq<u8>)
    requires
        p.len() <= usize::MAX,
        !(t.len() >= 2 && t[0] == CR && t[1] == LF),
    ensures
        element_of(seq![BULK_TAG] + decimal(p.len()) + crlf() + p + t) is Err,
{
    let d = decimal(p.len());
    let b = seq![BULK_TAG] + d + crlf() + p + t;
    let tail = b.drop_first();
    assert(tail == d + crlf() + (p + t));
    lemma_length_header_round_trip(p.len(), p + t);
    let r = tail.skip(d.len() + 2int);
    assert(r == p + t);
    assert(r.len() >= p.len() ==> (r.len() > p.len() ==> r[p.len() as int] == t[0]));
    assert(r.len() > p.len() + 1 ==> r[p.len() + 1int] == t[1]);
}

/// A length header whose run of digits ends in anything but `\r\n` fails to parse, in a
/// bulk string and in an array alike.
pub proof fn lemma_header_missing_terminator(tag: u8, d: Seq<u8>, t: Seq<u8>)
    requires
        tag == BULK_TAG || tag == ARRAY_TAG,
        d.len() > 0,
        all_digits(d),
        t.len() == 0 || !is_digit(t[0]),
        !(t.len() >= 2 && t[0] == CR && t[1] == LF),
    ensures
        element_of(seq![tag] + d + t) is Err,
{
    let b = seq![tag] + d + t;
    let tail = b.drop_first();
    assert(tail == d + t);
    assert(tail.take(d.len() as int) == d);
    if d.len() < tail.len() {
        assert(tail[d.len() as int] == t[0]);
    }
    if d.len() + 1 < tail.len() {
        assert(tail[d.len() + 1int] == t[1]);
    }
    lemma_digit_run(tail, d.len() as int);
    assert(tail[0] == d[0]);
}

/// A simple string whose carriage return is followed by anything but a line feed fails to
/// parse.
pub proof fn lemma_simple_missing_line_feed(u: Seq<u8>, x: u8, rest: Seq<u8>)
    requires
        forall|i: int| 0 <= i < u.len() ==> #[trigger] u[i] != CR,
        x != LF,
    ensures
        element_of(seq![SIMPLE_TAG] + u + seq![CR, x] + rest) is Err,
{
    let b = seq![SIMPLE_TAG] + u + seq![CR, x] + rest;
    let tail = b.drop_first();
    assert(tail == u + seq![CR, x] + rest);
    assert forall|j: int| 0 <= j < u.len() implies tail[j] != CR by {
        assert(tail[j] == u[j]);
    }
    lemma_cr_index(tail, u.len() as int);
    assert(tail[u.len() + 1int] == x);
}

/// Decoding `k` frames that start with the encodings of decodable frames `xs` gives those
/// frames, then whatever the bytes after them give.
pub proof fn lemma_elements_of_after(xs: Seq<Frame>, b: Seq<u8>, k: nat)
    requires
        forall|i: int| 0 <= i < xs.len() ==> decodable(#[trigger] xs[i]) && counts_fit(xs[i]),
        xs.len() <= k,
    ensures
        elements_of(encode_frames(xs) + b, k) == prepend(
            xs,
            encode_frames(xs).len(),
            elements_of(b, (k - xs.len()) as nat),
        ),
    decreases xs.len(),
{
    if xs.len() == 0 {
        assert(encode_frames(xs) == Seq::<u8>::empty());
        assert(encode_frames(xs) + b == b);
        if let Ok((fs, m)) = elements_of(b, k) {
            assert(xs + fs == fs);
        }
    } else {
        let x = xs[0];
        let ys = xs.drop_first();
        assert(xs == seq![x] + ys);
        lemma_encode_frames_cons(x, ys);
        let c = encode_frames(ys) + b;
        assert(encode_frames(xs) + b == encode_frame(x) + c);
        assert(decodable(x) && counts_fit(x));
        lemma_round_trip(x, c);
        assert((encode_frame(x) + c).skip(encode_frame(x).len() as int) == c);
        lemma_elements_of_after(ys, b, (k - 1) as nat);
        if let Ok((fs, m)) = elements_of(b, (k - xs.len()) as nat) {
            assert(seq![x] + (ys + fs) == xs + fs);
        }
    }
}

/// An array whose items fail to parse at some item fails to parse, with that item's error:
/// items that parse before it do not hide the failure, however deep it is.
pub proof fn lemma_array_item_fails(xs: Seq<Frame>, k: nat, b: Seq<u8>)
    requires
        forall|i: int| 0 <= i < xs.len() ==> decodable(#[trigger] xs[i]) && counts_fit(xs[i]),
        xs.len() < k <= usize::MAX,
        element_of(b) is Err,
    ensures
        element_of(seq![ARRAY_TAG] + decimal(k) + crlf() + encode_frames(xs) + b) == Err::<
            (Frame, nat),
            Error,
        >(element_of(b)->Err_0),
{
    let body = encode_frames(xs) + b;
    let all = seq![ARRAY_TAG] + decimal(k) + crlf() + encode_frames(xs) + b;
    let tail = all.drop_first();
    assert(tail == decimal(k) + crlf() + body);
    lemma_length_header_round_trip(k, body);
    lemma_decimal_digits(k);
    assert(tail[0] == decimal(k)[0]);
    assert(tail.skip(decimal(k).len() + 2int) == body);
    lemma_elements_of_after(xs, b, k);
}

/// Bytes that do not start with a frame give no command: the framing error comes out.
pub proof fn lemma_command_needs_frame(b: Seq<u8>)
    requires
        element_of(b) is Err,
    ensures
        command_of_bytes(b) == Err::<CommandView, Error>(element_of(b)->Err_0),
{
}

/// Command names are matched without regard to ASCII case: frames that differ only in
/// the case of the command name stand for the same command.
pub proof fn lemma_command_name_case(n1: Seq<u8>, n2: Seq<u8>, rest: Seq<Frame>)
    requires
        ascii_lower(n1) == ascii_lower(n2),
    ensures
        command_of(Frame::Array(seq![Frame::Bulk(n1)] + rest)) == command_of(
            Frame::Array(seq![Frame::Bulk(n2)] + rest),
        ),
{
    let x1 = seq![Frame::Bulk(n1)] + rest;
    let x2 = seq![Frame::Bulk(n2)] + rest;
    let a1 = x1.map_values(|x: Frame| bulk_payload(x));
    let a2 = x2.map_values(|x: Frame| bulk_payload(x));
    assert(a1.drop_first() == a2.drop_first());
    assert(a1[0] == n1 && a2[0] == n2);
    assert((forall|i: int| 0 <= i < x1.len() ==> #[trigger] x1[i] is Bulk) <==> (forall|i: int|
        0 <= i < x2.len() ==> #[trigger] x2[i] is Bulk)) by {
        assert forall|i: int| 0 < i < x1.len() implies x1[i] == x2[i] by {}
    }
}

} // verus!
