use vstd::prelude::*;

verus! {

/// `+`: first byte of a simple string.
pub const SIMPLE_TAG: u8 = 43;

/// `$`: first byte of a bulk string.
pub const BULK_TAG: u8 = 36;

/// `*`: first byte of an array.
pub const ARRAY_TAG: u8 = 42;

/// `-`: starts the length `-1` of the null bulk string.
pub const MINUS: u8 = 45;

/// `1`: ends the length `-1` of the null bulk string.
pub const ONE: u8 = 49;

pub const CR: u8 = 13;

pub const LF: u8 = 10;

/// A protocol frame.
#[derive(Debug, PartialEq, Eq)]
pub enum Element {
    SimpleString(String),
    BulkString(Vec<u8>),
    NullBulkString,
    Array(Vec<Element>),
    /// A length-prefixed blob with no trailing line terminator (snapshot transfer).
    RdbFile(Vec<u8>),
    /// Frames written back to back with no framing of their own.
    MultiInternal(Vec<Element>),
}

/// Mathematical model of an [`Element`].
pub enum Frame {
    Simple(Seq<char>),
    Bulk(Seq<u8>),
    Null,
    Array(Seq<Frame>),
    Rdb(Seq<u8>),
    Multi(Seq<Frame>),
}

/// The models of the elements, in order.
pub open spec fn frames_of(s: Seq<Element>) -> Seq<Frame>
    decreases s,
{
    if s.len() == 0 {
        Seq::empty()
    } else {
        frames_of(s.drop_last()).push(frame_of(s.last()))
    }
}

pub open spec fn frame_of(e: Element) -> Frame
    decreases e,
{
    match e {
        Element::SimpleString(s) => Frame::Simple(s@),
        Element::BulkString(b) => Frame::Bulk(b@),
        Element::NullBulkString => Frame::Null,
        Element::Array(v) => Frame::Array(frames_of(v@)),
        Element::RdbFile(b) => Frame::Rdb(b@),
        Element::MultiInternal(v) => Frame::Multi(frames_of(v@)),
    }
}

pub proof fn lemma_frames_of(s: Seq<Element>)
    ensures
        frames_of(s).len() == s.len(),
        forall|i: int| 0 <= i < s.len() ==> #[trigger] frames_of(s)[i] == s[i]@,
    decreases s.len(),
{
    if s.len() > 0 {
        lemma_frames_of(s.drop_last());
    }
}

impl View for Element {
    type V = Frame;

    open spec fn view(&self) -> Frame {
        frame_of(*self)
    }
}

/// Why a frame or a command could not be read or run.
#[derive(Debug, Clone, Copy, PartialEq, Eq, Structural)]
pub enum Error {
    /// The input ended before the frame was complete.
    ShortRead,
    /// A byte of the input does not fit the frame grammar.
    MalformedFrame,
    /// The frame is not an array of bulk strings, or an argument is not text.
    MalformedCommand,
    UnknownCommand,
    MissingArg,
    UnsupportedArg,
    BadInteger,
    /// The command is valid but this server's role refuses it.
    NotSupportedInRole,
}

#[derive(Debug, Clone, Copy, PartialEq, Eq, Structural)]
pub enum InfoSection {
    Replication,
}

#[derive(Debug, Clone, Copy, PartialEq, Eq, Structural)]
pub enum ReplOpt {
    ListeningPort(usize),
    Capability,
}

/// Arguments of `SET`.
#[derive(Debug, PartialEq, Eq)]
pub struct SetArgs {
    pub key: String,
    pub value: String,
    /// Time to live, in milliseconds.
    pub expiration: Option<u64>,
}

#[derive(Debug, PartialEq, Eq)]
pub struct Psync {
    pub replication_id: Option<String>,
    pub replication_offset: Option<u128>,
}

#[derive(Debug, PartialEq, Eq)]
pub enum Command {
    Ping(Option<String>),
    Echo(String),
    SetKey(SetArgs),
    Get(String),
    Info(Vec<InfoSection>),
    ReplConf(ReplOpt),
    Psync(Psync),
}

/// Mathematical model of a [`Command`].
pub enum CommandView {
    Ping(Option<Seq<char>>),
    Echo(Seq<char>),
    SetKey { key: Seq<char>, value: Seq<char>, expiration: Option<u64> },
    Get(Seq<char>),
    Info(Seq<InfoSection>),
    ReplConf(ReplOpt),
    Psync { replication_id: Option<Seq<char>>, replication_offset: Option<u128> },
}

pub open spec fn text_view(t: Option<String>) -> Option<Seq<char>> {
    match t {
        Some(s) => Some(s@),
        None => None,
    }
}

impl View for Command {
    type V = CommandView;

    open spec fn view(&self) -> CommandView {
        match self {
            Command::Ping(m) => CommandView::Ping(text_view(*m)),
            Command::Echo(m) => CommandView::Echo(m@),
            Command::SetKey(s) => CommandView::SetKey {
                key: s.key@,
                value: s.value@,
                expiration: s.expiration,
            },
            Command::Get(k) => CommandView::Get(k@),
            Command::Info(v) => CommandView::Info(v@),
            Command::ReplConf(o) => CommandView::ReplConf(*o),
            Command::Psync(p) => CommandView::Psync {
                replication_id: text_view(p.replication_id),
                replication_offset: p.replication_offset,
            },
        }
    }
}

impl Command {
    /// Whether the command changes the store.
    pub fn is_write(&self) -> (r: bool)
        ensures
            r == (self@ is SetKey),
    {
        match self {
            Command::SetKey(_) => true,
            _ => false,
        }
    }
}

} // verus!
