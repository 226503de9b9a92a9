use vstd::prelude::*;
use vstd::slice::slice_subrange;

use crate::protocol::{
    frames_of, lemma_frames_of, Command, CommandView, Element, Error, Frame, InfoSection, Psync,
    ReplOpt, SetArgs,
};
use crate::reader::{element_of, ElementParser};
use crate::utils::{
    ascii_lower, bytes_eq, parse_uint, text_from_bytes, text_of, to_ascii_lower, uint_of,
};
use crate::words;

verus! {

pub open spec fn bulk_payload(f: Frame) -> Seq<u8> {
    match f {
        Frame::Bulk(b) => b,
        _ => Seq::empty(),
    }
}

/// The command that a frame stands for: a non-empty array of bulk strings whose first
/// item names the command, in any mix of upper and lower case.
pub open spec fn command_of(f: Frame) -> Result<CommandView, Error> {
    match f {
        Frame::Array(xs) => if xs.len() > 0 && forall|i: int| 0 <= i < xs.len() ==> #[trigger] xs[i] is Bulk {
            command_of_args(xs.map_values(|x: Frame| bulk_payload(x)))
        } else {
            Err(Error::MalformedCommand)
        },
        _ => Err(Error::MalformedCommand),
    }
}

/// The command that a non-empty list of words stands for.
pub open spec fn command_of_args(args: Seq<Seq<u8>>) -> Result<CommandView, Error> {
    let name = ascii_lower(args[0]);
    let rest = args.drop_first();
    if name == words::name_ping() {
        ping_of(rest)
    } else if name == words::name_echo() {
        echo_of(rest)
    } else if name == words::name_set() {
        set_of(rest)
    } else if name == words::name_get() {
        get_of(rest)
    } else if name == words::name_info() {
        info_of(rest)
    } else if name == words::name_replconf() {
        replconf_of(rest)
    } else if name == words::name_psync() {
        psync_of(rest)
    } else {
        Err(Error::UnknownCommand)
    }
}

/// `PING [message]`.
pub open spec fn ping_of(args: Seq<Seq<u8>>) -> Result<CommandView, Error> {
    if args.len() == 0 {
        Ok(CommandView::Ping(None))
    } else {
        match text_of(args[0]) {
            Some(t) => Ok(CommandView::Ping(Some(t))),
            None => Err(Error::MalformedCommand),
        }
    }
}

/// `ECHO message`.
pub open spec fn echo_of(args: Seq<Seq<u8>>) -> Result<CommandView, Error> {
    if args.len() == 0 {
        Err(Error::MissingArg)
    } else {
        match text_of(args[0]) {
            Some(t) => Ok(CommandView::Echo(t)),
            None => Err(Error::MalformedCommand),
        }
    }
}

/// `SET key value [PX milliseconds]`.
pub open spec fn set_of(args: Seq<Seq<u8>>) -> Result<CommandView, Error> {
    if args.len() < 2 {
        Err(Error::MissingArg)
    } else if text_of(args[0]) is None {
        Err(Error::MalformedCommand)
    } else if text_of(args[1]) is None {
        Err(Error::MalformedCommand)
    } else {
        let key = text_of(args[0])->Some_0;
        let value = text_of(args[1])->Some_0;
        if args.len() == 2 {
            Ok(CommandView::SetKey { key, value, expiration: None })
        } else if ascii_lower(args[2]) != words::px() {
            Err(Error::UnsupportedArg)
        } else if args.len() < 4 {
            Err(Error::MissingArg)
        } else if uint_of(args[3], u64::MAX as nat) is None {
            Err(Error::BadInteger)
        } else if args.len() > 4 {
            Err(Error::UnsupportedArg)
        } else {
            Ok(
                CommandView::SetKey {
                    key,
                    value,
                    expiration: Some(uint_of(args[3], u64::MAX as nat)->Some_0 as u64),
                },
            )
        }
    }
}

/// `GET key`.
pub open spec fn get_of(args: Seq<Seq<u8>>) -> Result<CommandView, Error> {
    if args.len() == 0 {
        Err(Error::MissingArg)
    } else {
        match text_of(args[0]) {
            Some(t) => Ok(CommandView::Get(t)),
            None => Err(Error::MalformedCommand),
        }
    }
}

/// `INFO [section ...]`, where the one known section is `replication`.
pub open spec fn info_of(args: Seq<Seq<u8>>) -> Result<CommandView, Error> {
    if forall|i: int| 0 <= i < args.len() ==> ascii_lower(#[trigger] args[i]) == words::replication() {
        Ok(CommandView::Info(Seq::new(args.len(), |i: int| InfoSection::Replication)))
    } else {
        Err(Error::UnsupportedArg)
    }
}

/// `REPLCONF listening-port port` or `REPLCONF capa capability`.
pub open spec fn replconf_of(args: Seq<Seq<u8>>) -> Result<CommandView, Error> {
    if args.len() == 0 {
        Err(Error::MissingArg)
    } else if ascii_lower(args[0]) == words::listening_port() {
        if args.len() < 2 {
            Err(Error::MissingArg)
        } else {
            match uint_of(args[1], usize::MAX as nat) {
                Some(p) => Ok(CommandView::ReplConf(ReplOpt::ListeningPort(p as usize))),
                None => Err(Error::BadInteger),
            }
        }
    } else if ascii_lower(args[0]) == words::capa() {
        if args.len() < 2 {
            Err(Error::MissingArg)
        } else {
            Ok(CommandView::ReplConf(ReplOpt::Capability))
        }
    } else {
        Err(Error::UnsupportedArg)
    }
}

/// `PSYNC id offset`, where `?` stands for no id and `-1` for no offset.
pub open spec fn psync_of(args: Seq<Seq<u8>>) -> Result<CommandView, Error> {
    if args.len() < 2 {
        Err(Error::MissingArg)
    } else if text_of(args[0]) is None {
        Err(Error::MalformedCommand)
    } else {
        let replication_id = if args[0] == words::unknown_id() {
            None
        } else {
            text_of(args[0])
        };
        if args[1] == words::unknown_offset() {
            Ok(CommandView::Psync { replication_id, replication_offset: None })
        } else {
            match uint_of(args[1], u128::MAX as nat) {
                Some(n) => Ok(
                    CommandView::Psync { replication_id, replication_offset: Some(n as u128) },
                ),
                None => Err(Error::BadInteger),
            }
        }
    }
}

pub open spec fn arg_views(args: Seq<Vec<u8>>) -> Seq<Seq<u8>> {
    args.map_values(|a: Vec<u8>| a@)
}

/// `r` is the outcome that `s` describes.
pub open spec fn outcome_is(r: Result<Command, Error>, s: Result<CommandView, Error>) -> bool {
    match s {
        Ok(c) => r matches Ok(x) && x@ == c,
        Err(e) => r == Err::<Command, Error>(e),
    }
}

fn is_word(arg: &Vec<u8>, word: Vec<u8>) -> (r: bool)
    ensures
        r == (arg@ == word@),
{
    bytes_eq(arg.as_slice(), word.as_slice())
}

fn is_lower_word(arg: &Vec<u8>, word: Vec<u8>) -> (r: bool)
    ensures
        r == (ascii_lower(arg@) == word@),
{
    let lower = to_ascii_lower(arg.as_slice());
    bytes_eq(lower.as_slice(), word.as_slice())
}

fn parse_ping(args: &[Vec<u8>]) -> (r: Result<Command, Error>)
    ensures
        outcome_is(r, ping_of(arg_views(args@))),
{
    if args.len() == 0 {
        Ok(Command::Ping(None))
    } else {
        match text_from_bytes(&args[0]) {
            Some(t) => Ok(Command::Ping(Some(t))),
            None => Err(Error::MalformedCommand),
        }
    }
}

fn parse_echo(args: &[Vec<u8>]) -> (r: Result<Command, Error>)
    ensures
        outcome_is(r, echo_of(arg_views(args@))),
{
    if args.len() == 0 {
        Err(Error::MissingArg)
    } else {
        match text_from_bytes(&args[0]) {
            Some(t) => Ok(Command::Echo(t)),
            None => Err(Error::MalformedCommand),
        }
    }
}

fn parse_set(args: &[Vec<u8>]) -> (r: Result<Command, Error>)
    ensures
        outcome_is(r, set_of(arg_views(args@))),
{
    if args.len() < 2 {
        return Err(Error::MissingArg);
    }
    let key = match text_from_bytes(&args[0]) {
        Some(k) => k,
        None => {
            return Err(Error::MalformedCommand);
        },
    };
    let value = match text_from_bytes(&args[1]) {
        Some(v) => v,
        None => {
            return Err(Error::MalformedCommand);
        },
    };
    if args.len() == 2 {
        return Ok(Command::SetKey(SetArgs { key, value, expiration: None }));
    }
    if !is_lower_word(&args[2], words::px_bytes()) {
        return Err(Error::UnsupportedArg);
    }
    if args.len() < 4 {
        return Err(Error::MissingArg);
    }
    let millis = match parse_uint(args[3].as_slice(), u64::MAX as u128) {
        Some(n) => n as u64,
        None => {
            return Err(Error::BadInteger);
        },
    };
    if args.len() > 4 {
        return Err(Error::UnsupportedArg);
    }
    Ok(Command::SetKey(SetArgs { key, value, expiration: Some(millis) }))
}

fn parse_get(args: &[Vec<u8>]) -> (r: Result<Command, Error>)
    ensures
        outcome_is(r, get_of(arg_views(args@))),
{
    if args.len() == 0 {
        Err(Error::MissingArg)
    } else {
        match text_from_bytes(&args[0]) {
            Some(t) => Ok(Command::Get(t)),
            None => Err(Error::MalformedCommand),
        }
    }
}

fn parse_info(args: &[Vec<u8>]) -> (r: Result<Command, Error>)
    ensures
        outcome_is(r, info_of(arg_views(args@))),
{
    let ghost a = arg_views(args@);
    let mut sections: Vec<InfoSection> = Vec::new();
    let mut i: usize = 0;
    while i < args.len()
        invariant
            i <= args.len(),
            a == arg_views(args@),
            forall|j: int| 0 <= j < i ==> ascii_lower(#[trigger] a[j]) == words::replication(),
            sections@ == Seq::new(i as nat, |j: int| InfoSection::Replication),
        decreases args.len() - i,
    {
        if !is_lower_word(&args[i], words::replication_bytes()) {
            assert(a[i as int] == args@[i as int]@);
            assert(!(ascii_lower(a[i as int]) == words::replication()));
            return Err(Error::UnsupportedArg);
        }
        sections.push(InfoSection::Replication);
        assert(sections@ == Seq::new((i + 1) as nat, |j: int| InfoSection::Replication));
        i = i + 1;
    }
    Ok(Command::Info(sections))
}

fn parse_replconf(args: &[Vec<u8>]) -> (r: Result<Command, Error>)
    ensures
        outcome_is(r, replconf_of(arg_views(args@))),
{
    if args.len() == 0 {
        return Err(Error::MissingArg);
    }
    let opt = if is_lower_word(&args[0], words::listening_port_bytes()) {
        if args.len() < 2 {
            return Err(Error::MissingArg);
        }
        match parse_uint(args[1].as_slice(), usize::MAX as u128) {
            Some(p) => ReplOpt::ListeningPort(p as usize),
            None => {
                return Err(Error::BadInteger);
            },
        }
    } else if is_lower_word(&args[0], words::capa_bytes()) {
        if args.len() < 2 {
            return Err(Error::MissingArg);
        }
        ReplOpt::Capability
    } else {
        return Err(Error::UnsupportedArg);
    };
    Ok(Command::ReplConf(opt))
}

fn parse_psync(args: &[Vec<u8>]) -> (r: Result<Command, Error>)
    ensures
        outcome_is(r, psync_of(arg_views(args@))),
{
    if args.len() < 2 {
        return Err(Error::MissingArg);
    }
    let id = match text_from_bytes(&args[0]) {
        Some(id) => id,
        None => {
            return Err(Error::MalformedCommand);
        },
    };
    let replication_id = if is_word(&args[0], words::unknown_id_bytes()) {
        None
    } else {
        Some(id)
    };
    let replication_offset = if is_word(&args[1], words::unknown_offset_bytes()) {
        None
    } else {
        match parse_uint(args[1].as_slice(), u128::MAX) {
            Some(n) => Some(n),
            None => {
                return Err(Error::BadInteger);
            },
        }
    };
    Ok(Command::Psync(Psync { replication_id, replication_offset }))
}

impl Element {
    /// The command that this element stands for.
    pub fn to_command(&self) -> (r: Result<Command, Error>)
        ensures
            outcome_is(r, command_of(self@)),
    {
        let elements = match self {
            Element::Array(elements) => elements,
            _ => {
                return Err(Error::MalformedCommand);
            },
        };
        let ghost xs = frames_of(elements@);
        proof {
            lemma_frames_of(elements@);
        }
        assert(self@ == Frame::Array(xs));
        let mut args: Vec<Vec<u8>> = Vec::new();
        let mut i: usize = 0;
        while i < elements.len()
            invariant
                i <= elements.len(),
                self@ == Frame::Array(xs),
                xs == frames_of(elements@),
                xs.len() == elements@.len(),
                forall|j: int| 0 <= j < elements@.len() ==> #[trigger] xs[j] == elements@[j]@,
                forall|j: int| 0 <= j < i ==> #[trigger] xs[j] is Bulk,
                arg_views(args@) == xs.take(i as int).map_values(|x: Frame| bulk_payload(x)),
            decreases elements.len() - i,
        {
            match &elements[i] {
                Element::BulkString(b) => {
                    let ghost before = args@;
                    let c = b.clone();
                    assert(c@ == b@);
                    args.push(c);
                    assert(xs[i as int] == Frame::Bulk(b@));
                    assert(arg_views(args@) =~= arg_views(before).push(b@));
                    assert(xs.take(i + 1).map_values(|x: Frame| bulk_payload(x)) =~= xs.take(
                        i as int,
                    ).map_values(|x: Frame| bulk_payload(x)).push(b@));
                },
                _ => {
                    assert(!(xs[i as int] is Bulk));
                    return Err(Error::MalformedCommand);
                },
            }
            i = i + 1;
        }
        assert(xs.take(i as int) == xs);
        if args.len() == 0 {
            return Err(Error::MalformedCommand);
        }
        let rest = slice_subrange(args.as_slice(), 1, args.len());
        assert(arg_views(rest@) == arg_views(args@).drop_first());
        let name = &args[0];
        if is_lower_word(name, words::name_ping_bytes()) {
            parse_ping(rest)
        } else if is_lower_word(name, words::name_echo_bytes()) {
            parse_echo(rest)
        } else if is_lower_word(name, words::name_set_bytes()) {
            parse_set(rest)
        } else if is_lower_word(name, words::name_get_bytes()) {
            parse_get(rest)
        } else if is_lower_word(name, words::name_info_bytes()) {
            parse_info(rest)
        } else if is_lower_word(name, words::name_replconf_bytes()) {
            parse_replconf(rest)
        } else if is_lower_word(name, words::name_psync_bytes()) {
            parse_psync(rest)
        } else {
            Err(Error::UnknownCommand)
        }
    }
}

/// The command that bytes start with: a frame, read as a command.
pub open spec fn command_of_bytes(b: Seq<u8>) -> Result<CommandView, Error> {
    match element_of(b) {
        Ok((f, _)) => command_of(f),
        Err(e) => Err(e),
    }
}

/// A reader of one command at a time from a byte slice.
pub struct CommandParser<'a> {
    elements: ElementParser<'a>,
}

impl<'a> View for CommandParser<'a> {
    /// The bytes not read yet.
    type V = Seq<u8>;

    closed spec fn view(&self) -> Seq<u8> {
        self.elements@
    }
}

impl<'a> CommandParser<'a> {
    pub fn new(bytes: &'a [u8]) -> (r: CommandParser<'a>)
        ensures
            r@ == bytes@,
    {
        CommandParser { elements: ElementParser::new(bytes) }
    }

    /// Reads the frame that the remaining bytes start with, as a command.
    pub fn parse(&mut self) -> (r: Result<Command, Error>)
        ensures
            outcome_is(r, command_of_bytes(old(self)@)),
            element_of(old(self)@) matches Ok((f, n)) ==> final(self)@ == old(self)@.skip(
                n as int,
            ),
    {
        match self.elements.parse() {
            Ok(e) => e.to_command(),
            Err(x) => Err(x),
        }
    }
}

} // verus!
