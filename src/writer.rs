use vstd::prelude::*;
use vstd::utf8::encode_utf8;

use crate::protocol::{
    frames_of, lemma_frames_of, Command, CommandView, Element, Frame, ReplOpt, ARRAY_TAG, BULK_TAG,
    CR, LF, MINUS, ONE, SIMPLE_TAG,
};
use crate::utils::{decimal, push_decimal};
use crate::words;

verus! {

pub open spec fn crlf() -> Seq<u8> {
    seq![CR, LF]
}

/// The bytes of a frame on the wire.
pub open spec fn encode_frame(f: Frame) -> Seq<u8>
    decreases f,
{
    match f {
        Frame::Simple(s) => seq![SIMPLE_TAG] + encode_utf8(s) + crlf(),
        Frame::Bulk(b) => seq![BULK_TAG] + decimal(b.len()) + crlf() + b + crlf(),
        Frame::Null => seq![BULK_TAG, MINUS, ONE] + crlf(),
        Frame::Array(xs) => seq![ARRAY_TAG] + decimal(xs.len()) + crlf() + encode_frames(xs),
        Frame::Rdb(b) => seq![BULK_TAG] + decimal(b.len()) + crlf() + b,
        Frame::Multi(xs) => encode_frames(xs),
    }
}

/// The encodings of the frames, back to back.
pub open spec fn encode_frames(xs: Seq<Frame>) -> Seq<u8>
    decreases xs,
{
    if xs.len() == 0 {
        Seq::empty()
    } else {
        encode_frames(xs.drop_last()) + encode_frame(xs.last())
    }
}

proof fn lemma_frames_of_take(s: Seq<Element>, i: int)
    requires
        0 <= i < s.len(),
    ensures
        frames_of(s.take(i + 1)) == frames_of(s.take(i)).push(s[i]@),
{
    assert(s.take(i + 1).drop_last() == s.take(i));
}

proof fn lemma_encode_frames_push(xs: Seq<Frame>, f: Frame)
    ensures
        encode_frames(xs.push(f)) == encode_frames(xs) + encode_frame(f),
{
    assert(xs.push(f).drop_last() == xs);
}

fn push_header(out: &mut Vec<u8>, tag: u8, n: usize)
    ensures
        final(out)@ == old(out)@ + seq![tag] + decimal(n as nat) + crlf(),
{
    out.push(tag);
    push_decimal(out, n as u128);
    out.push(CR);
    out.push(LF);
}

fn push_bytes(out: &mut Vec<u8>, b: &[u8])
    ensures
        final(out)@ == old(out)@ + b@,
{
    out.extend_from_slice(b);
}

fn write_element(e: &Element, out: &mut Vec<u8>)
    ensures
        final(out)@ == old(out)@ + encode_frame(e@),
    decreases e,
{
    match e {
        Element::SimpleString(s) => {
            out.push(SIMPLE_TAG);
            push_bytes(out, s.as_str().as_bytes());
            out.push(CR);
            out.push(LF);
        },
        Element::BulkString(b) => {
            push_header(out, BULK_TAG, b.len());
            push_bytes(out, b.as_slice());
            out.push(CR);
            out.push(LF);
        },
        Element::NullBulkString => {
            out.push(BULK_TAG);
            out.push(MINUS);
            out.push(ONE);
            out.push(CR);
            out.push(LF);
        },
        Element::Array(v) => {
            proof {
                lemma_frames_of(v@);
            }
            push_header(out, ARRAY_TAG, v.len());
            write_elements(v, out);
        },
        Element::RdbFile(b) => {
            push_header(out, BULK_TAG, b.len());
            push_bytes(out, b.as_slice());
        },
        Element::MultiInternal(v) => {
            write_elements(v, out);
        },
    }
}

fn write_elements(v: &Vec<Element>, out: &mut Vec<u8>)
    ensures
        final(out)@ == old(out)@ + encode_frames(frames_of(v@)),
    decreases v,
{
    let ghost start = out@;
    let mut i: usize = 0;
    assert(v@.take(0) == Seq::<Element>::empty());
    while i < v.len()
        invariant
            i <= v.len(),
            out@ == start + encode_frames(frames_of(v@.take(i as int))),
        decreases v.len() - i,
    {
        write_element(&v[i], out);
        proof {
            lemma_frames_of_take(v@, i as int);
            lemma_encode_frames_push(frames_of(v@.take(i as int)), v@[i as int]@);
        }
        i = i + 1;
    }
    assert(v@.take(i as int) == v@);
}

/// The bytes of an element on the wire.
pub fn serialize_element(element: Element) -> (r: Vec<u8>)
    ensures
        r@ == encode_frame(element@),
{
    let mut out: Vec<u8> = Vec::new();
    write_element(&element, &mut out);
    out
}

/// Whether a replica ever sends the command to its primary.
pub open spec fn is_outbound(c: CommandView) -> bool {
    c is Ping || c is Echo || c is ReplConf || c is Psync
}

/// The words of an outbound command, each sent as a bulk string.
pub open spec fn command_words(c: CommandView) -> Seq<Seq<u8>> {
    match c {
        CommandView::Ping(None) => seq![words::ping()],
        CommandView::Ping(Some(m)) => seq![words::ping(), encode_utf8(m)],
        CommandView::Echo(m) => seq![words::echo(), encode_utf8(m)],
        CommandView::ReplConf(ReplOpt::ListeningPort(p)) => seq![
            words::replconf(),
            words::listening_port(),
            decimal(p as nat),
        ],
        CommandView::ReplConf(ReplOpt::Capability) => seq![
            words::replconf(),
            words::capa(),
            words::psync2(),
        ],
        CommandView::Psync { replication_id, replication_offset } => seq![
            words::psync(),
            match replication_id {
                Some(id) => encode_utf8(id),
                None => words::unknown_id(),
            },
            match replication_offset {
                Some(off) => decimal(off as nat),
                None => words::unknown_offset(),
            },
        ],
        _ => Seq::empty(),
    }
}

pub open spec fn bulk_frames(ws: Seq<Seq<u8>>) -> Seq<Frame> {
    ws.map_values(|w: Seq<u8>| Frame::Bulk(w))
}

fn decimal_bytes(n: u128) -> (r: Vec<u8>)
    ensures
        r@ == decimal(n as nat),
{
    let mut out: Vec<u8> = Vec::new();
    push_decimal(&mut out, n);
    out
}

fn text_bytes(s: String) -> (r: Vec<u8>)
    ensures
        r@ == encode_utf8(s@),
{
    let mut out: Vec<u8> = Vec::new();
    push_bytes(&mut out, s.as_str().as_bytes());
    out
}

/// The bytes of a command as a replica sends it to its primary: an array of bulk strings.
pub fn serialize_command(command: Command) -> (r: Vec<u8>)
    requires
        is_outbound(command@),
    ensures
        r@ == encode_frame(Frame::Array(bulk_frames(command_words(command@)))),
{
    let ghost ws = command_words(command@);
    let mut args: Vec<Vec<u8>> = Vec::new();
    match command {
        Command::Ping(message) => {
            args.push(words::ping_bytes());
            if let Some(message) = message {
                args.push(text_bytes(message));
            }
        },
        Command::Echo(message) => {
            args.push(words::echo_bytes());
            args.push(text_bytes(message));
        },
        Command::ReplConf(opt) => {
            args.push(words::replconf_bytes());
            match opt {
                ReplOpt::ListeningPort(port) => {
                    args.push(words::listening_port_bytes());
                    args.push(decimal_bytes(port as u128));
                },
                ReplOpt::Capability => {
                    args.push(words::capa_bytes());
                    args.push(words::psync2_bytes());
                },
            }
        },
        Command::Psync(psync) => {
            args.push(words::psync_bytes());
            match psync.replication_id {
                Some(id) => args.push(text_bytes(id)),
                None => args.push(words::unknown_id_bytes()),
            }
            match psync.replication_offset {
                Some(off) => args.push(decimal_bytes(off)),
                None => args.push(words::unknown_offset_bytes()),
            }
        },
        _ => {},
    }
    assert(args@.map_values(|a: Vec<u8>| a@) == ws);
    let mut elements: Vec<Element> = Vec::new();
    let mut i: usize = 0;
    while i < args.len()
        invariant
            i <= args.len(),
            args@.map_values(|a: Vec<u8>| a@) == ws,
            elements@.len() == i,
            forall|j: int| 0 <= j < i ==> #[trigger] elements@[j]@ == Frame::Bulk(ws[j]),
        decreases args.len() - i,
    {
        elements.push(Element::BulkString(args[i].clone()));
        i = i + 1;
    }
    proof {
        lemma_frames_of(elements@);
        assert(frames_of(elements@) == bulk_frames(ws));
    }
    serialize_element(Element::Array(elements))
}

} // verus!
