use vstd::prelude::*;
use vstd::slice::{slice_subrange, slice_to_vec};
use vstd::utf8::{decode_utf8, valid_utf8};

use crate::protocol::{Element, Error, Frame, ARRAY_TAG, BULK_TAG, CR, LF, MINUS, ONE, SIMPLE_TAG};
use crate::protocol::frames_of;
use crate::utils::{all_digits, digits_value, is_digit, lemma_digits_value_prefix, string_from_utf8};

verus! {

/// The number of ASCII digits that `b` starts with.
pub open spec fn digit_run(b: Seq<u8>) -> nat
    decreases b.len(),
{
    if b.len() > 0 && is_digit(b[0]) {
        1 + digit_run(b.drop_first())
    } else {
        0
    }
}

/// The position of the first carriage return in `b`.
pub open spec fn cr_index(b: Seq<u8>) -> Option<nat>
    decreases b.len(),
{
    if b.len() == 0 {
        None
    } else if b[0] == CR {
        Some(0)
    } else {
        match cr_index(b.drop_first()) {
            Some(k) => Some(k + 1),
            None => None,
        }
    }
}

/// Whether `b` holds a line terminator at position `i`.
pub open spec fn crlf_at(b: Seq<u8>, i: int) -> Result<(), Error> {
    if b.len() <= i {
        Err(Error::ShortRead)
    } else if b[i] != CR {
        Err(Error::MalformedFrame)
    } else if b.len() <= i + 1 {
        Err(Error::ShortRead)
    } else if b[i + 1] != LF {
        Err(Error::MalformedFrame)
    } else {
        Ok(())
    }
}

/// A length header: decimal digits, with no leading zero unless the number is zero, ended
/// by a line terminator. Gives the length and the number of bytes the header takes.
pub open spec fn length_header(b: Seq<u8>) -> Result<(nat, nat), Error> {
    let k = digit_run(b);
    if k == 0 {
        if b.len() == 0 {
            Err(Error::ShortRead)
        } else {
            Err(Error::MalformedFrame)
        }
    } else if k > 1 && b[0] == 48 {
        Err(Error::MalformedFrame)
    } else if digits_value(b.take(k as int)) > usize::MAX {
        Err(Error::MalformedFrame)
    } else {
        match crlf_at(b, k as int) {
            Ok(_) => Ok((digits_value(b.take(k as int)), k + 2)),
            Err(e) => Err(e),
        }
    }
}

/// A simple string after its tag: text up to the first carriage return, then a line feed.
pub open spec fn simple_body(b: Seq<u8>) -> Result<(Frame, nat), Error> {
    match cr_index(b) {
        None => Err(Error::ShortRead),
        Some(k) => match crlf_at(b, k as int) {
            Err(e) => Err(e),
            Ok(_) => if valid_utf8(b.take(k as int)) {
                Ok((Frame::Simple(decode_utf8(b.take(k as int))), k + 2))
            } else {
                Err(Error::MalformedFrame)
            },
        },
    }
}

/// A bulk string after its tag: `-1` and a line terminator for the null bulk string, or
/// a length header, that many bytes, then a line terminator.
pub open spec fn bulk_body(b: Seq<u8>) -> Result<(Frame, nat), Error> {
    if b.len() > 0 && b[0] == MINUS {
        if b.len() < 2 {
            Err(Error::ShortRead)
        } else if b[1] != ONE {
            Err(Error::MalformedFrame)
        } else {
            match crlf_at(b, 2) {
                Ok(_) => Ok((Frame::Null, 4)),
                Err(e) => Err(e),
            }
        }
    } else {
        match length_header(b) {
            Err(e) => Err(e),
            Ok((n, h)) => {
                let rest = b.skip(h as int);
                if rest.len() < n {
                    Err(Error::ShortRead)
                } else {
                    match crlf_at(rest, n as int) {
                        Err(e) => Err(e),
                        Ok(_) => Ok((Frame::Bulk(rest.take(n as int)), h + n + 2)),
                    }
                }
            },
        }
    }
}

/// The frame that `b` starts with, and the number of bytes it takes.
pub open spec fn element_of(b: Seq<u8>) -> Result<(Frame, nat), Error>
    decreases b.len(), 0nat,
{
    if b.len() == 0 {
        Err(Error::ShortRead)
    } else {
        let rest = b.drop_first();
        if b[0] == SIMPLE_TAG {
            match simple_body(rest) {
                Ok((f, n)) => Ok((f, n + 1)),
                Err(e) => Err(e),
            }
        } else if b[0] == BULK_TAG {
            match bulk_body(rest) {
                Ok((f, n)) => Ok((f, n + 1)),
                Err(e) => Err(e),
            }
        } else if b[0] == ARRAY_TAG {
            match length_header(rest) {
                Err(e) => Err(e),
                Ok((k, h)) => if h <= rest.len() {
                    match elements_of(rest.skip(h as int), k) {
                        Ok((fs, m)) => Ok((Frame::Array(fs), 1 + h + m)),
                        Err(e) => Err(e),
                    }
                } else {
                    Err(Error::ShortRead)
                },
            }
        } else {
            Err(Error::MalformedFrame)
        }
    }
}

/// `k` frames back to back at the start of `b`, and the number of bytes they take.
pub open spec fn elements_of(b: Seq<u8>, k: nat) -> Result<(Seq<Frame>, nat), Error>
    decreases b.len(), 1nat, k,
{
    if k == 0 {
        Ok((Seq::empty(), 0))
    } else {
        match element_of(b) {
            Err(e) => Err(e),
            Ok((f, n)) => if 0 < n <= b.len() {
                match elements_of(b.skip(n as int), (k - 1) as nat) {
                    Ok((fs, m)) => Ok((seq![f] + fs, n + m)),
                    Err(e) => Err(e),
                }
            } else {
                Err(Error::ShortRead)
            },
        }
    }
}

pub(crate) proof fn lemma_digit_run(b: Seq<u8>, i: int)
    requires
        0 <= i <= b.len(),
        all_digits(b.take(i)),
        i == b.len() || !is_digit(b[i]),
    ensures
        digit_run(b) == i,
    decreases i,
{
    if i > 0 {
        assert(is_digit(b.take(i)[0]));
        assert(b.drop_first().take(i - 1) == b.take(i).drop_first());
        lemma_digit_run(b.drop_first(), i - 1);
    }
}

pub(crate) proof fn lemma_cr_index(b: Seq<u8>, i: int)
    requires
        0 <= i <= b.len(),
        forall|j: int| 0 <= j < i ==> b[j] != CR,
    ensures
        i < b.len() && b[i] == CR ==> cr_index(b) == Some(i as nat),
        i == b.len() ==> cr_index(b) is None,
    decreases i,
{
    if i > 0 {
        assert(b[0] != CR);
        lemma_cr_index(b.drop_first(), i - 1);
    }
}

pub(crate) proof fn lemma_digit_run_facts(b: Seq<u8>)
    ensures
        digit_run(b) <= b.len(),
        all_digits(b.take(digit_run(b) as int)),
        digit_run(b) < b.len() ==> !is_digit(b[digit_run(b) as int]),
    decreases b.len(),
{
    if b.len() > 0 && is_digit(b[0]) {
        lemma_digit_run_facts(b.drop_first());
        let k = digit_run(b) as int;
        assert forall|j: int| 0 <= j < k implies is_digit(#[trigger] b.take(k)[j]) by {
            if j > 0 {
                assert(b.take(k)[j] == b.drop_first().take(k - 1)[j - 1]);
            }
        }
    }
}

pub(crate) proof fn lemma_cr_index_before(b: Seq<u8>, j: int)
    requires
        cr_index(b) matches Some(k) && 0 <= j < k,
    ensures
        b[j] != CR,
    decreases b.len(),
{
    lemma_cr_index_facts(b);
    assert(b[0] != CR);
    if j > 0 {
        lemma_cr_index_before(b.drop_first(), j - 1);
    }
}

pub(crate) proof fn lemma_length_header_len(b: Seq<u8>)
    ensures
        length_header(b) matches Ok((v, h)) ==> 2 <= h <= b.len(),
{
    lemma_digit_run_facts(b);
}

pub(crate) proof fn lemma_cr_index_facts(b: Seq<u8>)
    ensures
        cr_index(b) matches Some(k) ==> k < b.len() && b[k as int] == CR,
    decreases b.len(),
{
    if b.len() > 0 && b[0] != CR {
        lemma_cr_index_facts(b.drop_first());
    }
}

/// A frame that parses takes at least one byte and no more than there are.
pub proof fn lemma_element_of_len(b: Seq<u8>)
    ensures
        element_of(b) matches Ok((f, n)) ==> 1 <= n <= b.len(),
    decreases b.len(), 0nat,
{
    if b.len() > 0 {
        let rest = b.drop_first();
        lemma_length_header_len(rest);
        lemma_cr_index_facts(rest);
        if b[0] == ARRAY_TAG {
            if let Ok((k, h)) = length_header(rest) {
                lemma_elements_of_len(rest.skip(h as int), k);
            }
        }
    }
}

/// Frames that parse take no more bytes than there are, and come in the number asked for.
pub proof fn lemma_elements_of_len(b: Seq<u8>, k: nat)
    ensures
        elements_of(b, k) matches Ok((fs, m)) ==> m <= b.len() && fs.len() == k,
    decreases b.len(), 1nat, k,
{
    if k > 0 {
        lemma_element_of_len(b);
        if let Ok((f, n)) = element_of(b) {
            if 0 < n <= b.len() {
                lemma_elements_of_len(b.skip(n as int), (k - 1) as nat);
            }
        }
    }
}

/// Frames already read, put before what is left to read.
pub open spec fn prepend(fs: Seq<Frame>, m: nat, r: Result<(Seq<Frame>, nat), Error>) -> Result<
    (Seq<Frame>, nat),
    Error,
> {
    match r {
        Ok((gs, k)) => Ok((fs + gs, m + k)),
        Err(e) => Err(e),
    }
}

/// A reader of frames from a byte slice.
pub struct ElementParser<'a> {
    bytes: &'a [u8],
    pos: usize,
}

impl<'a> View for ElementParser<'a> {
    /// The bytes not read yet.
    type V = Seq<u8>;

    closed spec fn view(&self) -> Seq<u8> {
        self.bytes@.skip(self.pos as int)
    }
}

impl<'a> ElementParser<'a> {
    #[verifier::type_invariant]
    spec fn inv(&self) -> bool {
        self.pos <= self.bytes@.len()
    }

    pub fn new(bytes: &'a [u8]) -> (r: ElementParser<'a>)
        ensures
            r@ == bytes@,
    {
        let r = ElementParser { bytes, pos: 0 };
        assert(bytes@.skip(0) == bytes@);
        r
    }

    fn read_u8(&mut self) -> (r: Option<u8>)
        ensures
            old(self)@.len() == 0 ==> r is None && final(self)@ == old(self)@,
            old(self)@.len() > 0 ==> r == Some(old(self)@[0]) && final(self)@ == old(
                self,
            )@.drop_first(),
    {
        proof {
            use_type_invariant(&*self);
        }
        if self.pos == self.bytes.len() {
            None
        } else {
            let b = self.bytes[self.pos];
            self.pos = self.pos + 1;
            assert(self@ == old(self)@.drop_first());
            Some(b)
        }
    }

    fn peek_u8(&self) -> (r: Option<u8>)
        ensures
            self@.len() == 0 ==> r is None,
            self@.len() > 0 ==> r == Some(self@[0]),
    {
        proof {
            use_type_invariant(self);
        }
        if self.pos == self.bytes.len() {
            None
        } else {
            Some(self.bytes[self.pos])
        }
    }

    fn consume_byte(&mut self, b: u8) -> (r: Result<(), Error>)
        ensures
            old(self)@.len() == 0 ==> r == Err::<(), Error>(Error::ShortRead),
            old(self)@.len() > 0 && old(self)@[0] == b ==> r == Ok::<(), Error>(())
                && final(self)@ == old(self)@.drop_first(),
            old(self)@.len() > 0 && old(self)@[0] != b ==> r == Err::<(), Error>(
                Error::MalformedFrame,
            ),
    {
        match self.read_u8() {
            Some(c) => if c == b {
                Ok(())
            } else {
                Err(Error::MalformedFrame)
            },
            None => Err(Error::ShortRead),
        }
    }

    fn expect_crlf(&mut self) -> (r: Result<(), Error>)
        ensures
            r == crlf_at(old(self)@, 0),
            r is Ok ==> final(self)@ == old(self)@.skip(2),
    {
        let ghost b0 = self@;
        if let Err(e) = self.consume_byte(CR) {
            return Err(e);
        }
        assert(self@.len() > 0 ==> self@[0] == b0[1]);
        let r = self.consume_byte(LF);
        assert(r is Ok ==> self@ == b0.skip(2));
        r
    }

    fn read_usize_crlf(&mut self) -> (r: Result<usize, Error>)
        ensures
            match length_header(old(self)@) {
                Ok((v, h)) => r == Ok::<usize, Error>(v as usize) && final(self)@ == old(
                    self,
                )@.skip(h as int),
                Err(e) => r == Err::<usize, Error>(e),
            },
    {
        let ghost b0 = self@;
        let ghost mut i: int = 0;
        let mut value: usize = 0;
        let mut first = true;
        let mut zero = false;
        proof {
            lemma_digit_run_facts(b0);
        }
        loop
            invariant
                0 <= i <= b0.len(),
                first == (i == 0),
                zero == (i >= 1 && b0[0] == 48),
                i > 1 ==> b0[0] != 48,
                b0 == old(self)@,
                self@ == b0.skip(i),
                all_digits(b0.take(i)),
                value == digits_value(b0.take(i)),
                digit_run(b0) <= b0.len(),
                all_digits(b0.take(digit_run(b0) as int)),
                digit_run(b0) < b0.len() ==> !is_digit(b0[digit_run(b0) as int]),
            decreases b0.len() - i,
        {
            assert(self@.len() > 0 ==> self@[0] == b0[i]);
            match self.read_u8() {
                Some(c) => {
                    if 48 <= c && c <= 57 {
                        let ghost next = b0.take(i + 1);
                        assert(next.drop_last() == b0.take(i));
                        assert(all_digits(next)) by {
                            assert forall|j: int| 0 <= j < next.len() implies is_digit(
                                #[trigger] next[j],
                            ) by {
                                if j < i {
                                    assert(next[j] == b0.take(i)[j]);
                                }
                            }
                        }
                        if zero {
                            proof {
                                let k = digit_run(b0) as int;
                                assert(k >= i + 1) by {
                                    if k < i {
                                        assert(is_digit(b0.take(i)[k]));
                                    }
                                }
                            }
                            return Err(Error::MalformedFrame);
                        }
                        let d = (c - 48) as usize;
                        if d > usize::MAX || value > (usize::MAX - d) / 10 {
                            proof {
                                assert(digits_value(next) > usize::MAX) by (nonlinear_arith)
                                    requires
                                        digits_value(next) == value * 10 + d,
                                        value > (usize::MAX - d) / 10,
                                        d <= 9,
                                ;
                                let k = digit_run(b0) as int;
                                assert(k >= i + 1) by {
                                    if k < i {
                                        assert(is_digit(b0.take(i)[k]));
                                    }
                                }
                                assert(b0.take(k).take(i + 1) == next);
                                lemma_digits_value_prefix(b0.take(k), i + 1);
                            }
                            return Err(Error::MalformedFrame);
                        }
                        value = value * 10 + d;
                        if first {
                            assert(digits_value(next) == digits_value(next.drop_last()) * 10 + (
                            next.last() - 48));
                            assert(next.drop_last() == Seq::<u8>::empty());
                            zero = c == 48;
                        }
                        first = false;
                        proof {
                            i = i + 1;
                        }
                    } else if c == CR {
                        proof {
                            lemma_digit_run(b0, i);
                        }
                        if first {
                            return Err(Error::MalformedFrame);
                        }
                        assert(self@.len() > 0 ==> self@[0] == b0[i + 1]);
                        if let Err(e) = self.consume_byte(LF) {
                            return Err(e);
                        }
                        assert(self@ == b0.skip(i + 2));
                        return Ok(value);
                    } else {
                        proof {
                            lemma_digit_run(b0, i);
                        }
                        return Err(Error::MalformedFrame);
                    }
                },
                None => {
                    assert(i == b0.len());

                    proof {
                        lemma_digit_run(b0, i);
                    }
                    return Err(Error::ShortRead);
                },
            }
        }
    }

    fn read_simple_string(&mut self) -> (r: Result<Element, Error>)
        ensures
            match simple_body(old(self)@) {
                Ok((f, n)) => r matches Ok(e) && e@ == f && final(self)@ == old(self)@.skip(n as int),
                Err(x) => r == Err::<Element, Error>(x),
            },
    {
        let ghost b0 = self@;
        let ghost mut i: int = 0;
        let mut buffer: Vec<u8> = Vec::new();
        loop
            invariant
                0 <= i <= b0.len(),
                b0 == old(self)@,
                self@ == b0.skip(i),
                buffer@ == b0.take(i),
                forall|j: int| 0 <= j < i ==> b0[j] != CR,
            decreases b0.len() - i,
        {
            assert(self@.len() > 0 ==> self@[0] == b0[i]);
            match self.read_u8() {
                Some(c) => {
                    if c == CR {
                        proof {
                            lemma_cr_index(b0, i);
                        }
                        assert(self@.len() > 0 ==> self@[0] == b0[i + 1]);
                        if let Err(e) = self.consume_byte(LF) {
                            return Err(e);
                        }
                        assert(self@ == b0.skip(i + 2));
                        match string_from_utf8(buffer) {
                            Some(s) => {
                                return Ok(Element::SimpleString(s));
                            },
                            None => {
                                return Err(Error::MalformedFrame);
                            },
                        }
                    }
                    buffer.push(c);
                    assert(buffer@ == b0.take(i + 1));
                    proof {
                        i = i + 1;
                    }
                },
                None => {
                    proof {
                        lemma_cr_index(b0, i);
                    }
                    return Err(Error::ShortRead);
                },
            }
        }
    }

    fn read_bulk_string(&mut self) -> (r: Result<Element, Error>)
        ensures
            match bulk_body(old(self)@) {
                Ok((f, n)) => r matches Ok(e) && e@ == f && final(self)@ == old(self)@.skip(n as int),
                Err(x) => r == Err::<Element, Error>(x),
            },
    {
        let ghost b0 = self@;
        proof {
            lemma_length_header_len(b0);
        }
        if let Some(c) = self.peek_u8() {
            if c == MINUS {
                self.read_u8();
                assert(self@.len() > 0 ==> self@[0] == b0[1]);
                if let Err(e) = self.consume_byte(ONE) {
                    return Err(e);
                }
                assert(self@ == b0.skip(2));
                if let Err(e) = self.expect_crlf() {
                    assert(crlf_at(b0, 2) == crlf_at(b0.skip(2), 0));
                    return Err(e);
                }
                assert(crlf_at(b0, 2) == crlf_at(b0.skip(2), 0));
                assert(self@ == b0.skip(4));
                return Ok(Element::NullBulkString);
            }
        }
        let n = match self.read_usize_crlf() {
            Ok(n) => n,
            Err(e) => {
                return Err(e);
            },
        };
        let ghost b1 = self@;
        proof {
            use_type_invariant(&*self);
        }
        let len = self.bytes.len();
        if len - self.pos < n {
            return Err(Error::ShortRead);
        }
        let s = slice_to_vec(slice_subrange(self.bytes, self.pos, self.pos + n));
        self.pos = self.pos + n;
        assert(s@ == b1.take(n as int));
        assert(self@ == b1.skip(n as int));
        if let Err(e) = self.expect_crlf() {
            assert(crlf_at(b1, n as int) == crlf_at(b1.skip(n as int), 0));
            return Err(e);
        }
        assert(crlf_at(b1, n as int) == crlf_at(b1.skip(n as int), 0));
        assert(self@ == b0.skip(b0.len() - b1.len() + n + 2));
        Ok(Element::BulkString(s))
    }

    fn read_array(&mut self) -> (r: Result<Element, Error>)
        ensures
            match length_header(old(self)@) {
                Err(x) => r == Err::<Element, Error>(x),
                Ok((k, h)) => match elements_of(old(self)@.skip(h as int), k) {
                    Ok((fs, m)) => r matches Ok(e) && e@ == Frame::Array(fs) && final(self)@ == old(
                        self,
                    )@.skip((h + m) as int),
                    Err(x) => r == Err::<Element, Error>(x),
                },
            },
        decreases old(self)@.len(), 0nat,
    {
        let ghost b0 = self@;
        proof {
            lemma_length_header_len(b0);
        }
        let n = match self.read_usize_crlf() {
            Ok(n) => n,
            Err(e) => {
                return Err(e);
            },
        };
        let ghost b1 = self@;
        let ghost h: nat = (b0.len() - b1.len()) as nat;
        assert(length_header(b0) == Ok::<(nat, nat), Error>((n as nat, h)));
        let ghost mut consumed: int = 0;
        let mut elements: Vec<Element> = Vec::new();
        let mut i: usize = 0;
        while i < n
            invariant
                i <= n,
                0 <= consumed <= b1.len(),
                b0 == old(self)@,
                length_header(b0) == Ok::<(nat, nat), Error>((n as nat, h)),
                b1 == b0.skip(h as int),
                b1.len() < b0.len(),
                self@ == b1.skip(consumed),
                elements_of(b1, n as nat) == prepend(
                    frames_of(elements@),
                    consumed as nat,
                    elements_of(self@, (n - i) as nat),
                ),
            decreases n - i,
        {
            let ghost cur = self@;
            proof {
                lemma_element_of_len(cur);
            }
            match self.parse() {
                Ok(e) => {
                    let ghost m = cur.len() - self@.len();
                    assert(self@ == cur.skip(m));
                    proof {
                        let tail = elements_of(cur.skip(m), (n - i - 1) as nat);
                        assert(elements_of(cur, (n - i) as nat) == prepend(seq![e@], m as nat, tail));
                        if let Ok((fs, k)) = tail {
                            assert(frames_of(elements@) + (seq![e@] + fs) == (frames_of(elements@)
                                + seq![e@]) + fs);
                        }
                        assert(frames_of(elements@.push(e)) == frames_of(elements@).push(e@)) by {
                            assert(elements@.push(e).drop_last() == elements@);
                        }
                        assert(frames_of(elements@).push(e@) == frames_of(elements@) + seq![e@]);
                        assert(b1.skip(consumed + m) == cur.skip(m));
                        consumed = consumed + m;
                    }
                    elements.push(e);
                },
                Err(x) => {
                    assert(elements_of(cur, (n - i) as nat) == Err::<(Seq<Frame>, nat), Error>(x));
                    return Err(x);
                },
            }
            i = i + 1;
        }
        assert(frames_of(elements@) + Seq::<Frame>::empty() == frames_of(elements@));
        Ok(Element::Array(elements))
    }

    /// Reads the frame that the remaining bytes start with.
    pub fn parse(&mut self) -> (r: Result<Element, Error>)
        ensures
            match element_of(old(self)@) {
                Ok((f, n)) => r matches Ok(e) && e@ == f && final(self)@ == old(self)@.skip(n as int),
                Err(x) => r == Err::<Element, Error>(x),
            },
        decreases old(self)@.len(), 1nat,
    {
        let ghost b0 = self@;
        proof {
            lemma_element_of_len(b0);
        }
        match self.read_u8() {
            Some(tag) => {
                let ghost rest = b0.drop_first();
                proof {
                    lemma_length_header_len(rest);
                }
                assert(self@ == rest);
                let r = if tag == SIMPLE_TAG {
                    self.read_simple_string()
                } else if tag == BULK_TAG {
                    self.read_bulk_string()
                } else if tag == ARRAY_TAG {
                    self.read_array()
                } else {
                    Err(Error::MalformedFrame)
                };
                proof {
                    if let Ok((f, n)) = element_of(b0) {
                        assert(rest.skip(n - 1) == b0.skip(n as int));
                    }
                }
                r
            },
            None => Err(Error::ShortRead),
        }
    }
}

} // verus!
