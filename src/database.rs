use vstd::prelude::*;
use vstd::string::StringExecFns;
use vstd::utf8::encode_utf8;

use crate::command::{command_of_bytes, CommandParser};
use crate::writer::{encode_frame, serialize_element};
use crate::protocol::{
    frames_of, lemma_frames_of, Command, CommandView, Element, Error, Frame, Psync,
};
use crate::store::{get_model, put_model, Store, StoredValue};
use crate::utils::{
    ascii_chars, ascii_string, decimal, decode_hex, hex_decoded, lemma_decimal_ascii, push_decimal,
};

verus! {

/// The replication id of every primary: fixed for the lifetime of the process.
pub const REPLICATION_ID: &'static str = "8371b4fb1155b71f4a04d3e1bc3e18c4a990aeeb";

/// The image of an empty database that a primary sends after `FULLRESYNC`, in hexadecimal.
pub const EMPTY_SNAPSHOT_HEX: &'static str = "524544495330303131fa0972656469732d76657205372e322e30fa0a72656469732d62697473c040fa056374696d65c26d08bc65fa08757365642d6d656dc2b0c41000fa08616f662d62617365c000fff06e3bfec0ff5aa2";

/// The bytes of the empty database image.
pub open spec fn empty_snapshot() -> Seq<u8> {
    hex_decoded(EMPTY_SNAPSHOT_HEX@)
}

/// The decimal digits of `n`, as text.
fn decimal_string(n: u128) -> (r: String)
    ensures
        r@ == ascii_chars(decimal(n as nat)),
{
    let mut b: Vec<u8> = Vec::new();
    push_decimal(&mut b, n);
    proof {
        lemma_decimal_ascii(n as nat);
    }
    ascii_string(b)
}

fn snapshot_bytes() -> (r: Vec<u8>)
    ensures
        r@ == empty_snapshot(),
{
    proof {
        reveal_strlit("524544495330303131fa0972656469732d76657205372e322e30fa0a72656469732d62697473c040fa056374696d65c26d08bc65fa08757365642d6d656dc2b0c41000fa08616f662d62617365c000fff06e3bfec0ff5aa2");
    }
    decode_hex(EMPTY_SNAPSHOT_HEX)
}

/// What a server does that depends on its role.
pub trait RoleInfo {
    /// The body of the reply to `INFO replication`.
    spec fn info_text(&self) -> Seq<char>;

    /// The reply to `PSYNC`.
    spec fn psync_reply(&self) -> Result<Frame, Error>;

    fn as_info_section(&self) -> (r: String)
        ensures
            r@ == self.info_text(),
    ;

    fn handle_psync(&self, psync: Psync) -> (r: Result<Element, Error>)
        ensures
            match self.psync_reply() {
                Ok(f) => r matches Ok(e) && e@ == f,
                Err(x) => r == Err::<Element, Error>(x),
            },
    ;
}

/// A primary: the source of replication.
pub struct MasterInfo {
    replication_id: String,
    replication_offset: u128,
}

/// A replica, and the primary that it follows.
pub struct ReplicaInfo {
    master_host: String,
    master_port: usize,
}

/// The `INFO replication` text of a primary.
pub open spec fn master_info_text(id: Seq<char>, offset: u128) -> Seq<char> {
    "role:master\nmaster_replid:"@ + id + "\nmaster_repl_offset:"@ + ascii_chars(
        decimal(offset as nat),
    ) + "\n"@
}

/// The status line with which a primary answers `PSYNC`.
pub open spec fn fullresync_text(id: Seq<char>, offset: u128) -> Seq<char> {
    "FULLRESYNC "@ + id + " "@ + ascii_chars(decimal(offset as nat))
}

impl MasterInfo {
    /// The replication id.
    pub closed spec fn id(&self) -> Seq<char> {
        self.replication_id@
    }

    /// The replication offset.
    pub closed spec fn offset(&self) -> u128 {
        self.replication_offset
    }
}

impl RoleInfo for MasterInfo {
    open spec fn info_text(&self) -> Seq<char> {
        master_info_text(self.id(), self.offset())
    }

    open spec fn psync_reply(&self) -> Result<Frame, Error> {
        Ok(
            Frame::Multi(
                seq![
                    Frame::Simple(fullresync_text(self.id(), self.offset())),
                    Frame::Rdb(empty_snapshot()),
                ],
            ),
        )
    }

    fn as_info_section(&self) -> (r: String) {
        let mut s = String::from_str("role:master\nmaster_replid:");
        s.append(self.replication_id.as_str());
        s.append("\nmaster_repl_offset:");
        s.append(decimal_string(self.replication_offset).as_str());
        s.append("\n");
        s
    }

    fn handle_psync(&self, psync: Psync) -> (r: Result<Element, Error>) {
        let mut text = String::from_str("FULLRESYNC ");
        text.append(self.replication_id.as_str());
        text.append(" ");
        text.append(decimal_string(self.replication_offset).as_str());
        let fullresync = Element::SimpleString(text);
        let rdb = Element::RdbFile(snapshot_bytes());
        let parts = vec![fullresync, rdb];
        proof {
            lemma_frames_of(parts@);
        }
        assert(frames_of(parts@) =~= seq![
            Frame::Simple(fullresync_text(self.id(), self.offset())),
            Frame::Rdb(empty_snapshot()),
        ]);
        let r = Element::MultiInternal(parts);
        Ok(r)
    }
}

impl ReplicaInfo {
    /// The host of the primary.
    pub closed spec fn host(&self) -> Seq<char> {
        self.master_host@
    }

    /// The primary's listening port.
    pub closed spec fn port(&self) -> usize {
        self.master_port
    }

    /// The host of the primary that this replica follows.
    pub fn master_host(&self) -> (r: &String)
        ensures
            r@ == self.host(),
    {
        &self.master_host
    }

    /// The listening port of the primary that this replica follows.
    pub fn master_port(&self) -> (r: usize)
        ensures
            r == self.port(),
    {
        self.master_port
    }
}

impl RoleInfo for ReplicaInfo {
    open spec fn info_text(&self) -> Seq<char> {
        "role:slave"@
    }

    open spec fn psync_reply(&self) -> Result<Frame, Error> {
        Err(Error::NotSupportedInRole)
    }

    fn as_info_section(&self) -> (r: String) {
        String::from_str("role:slave")
    }

    fn handle_psync(&self, psync: Psync) -> (r: Result<Element, Error>) {
        Err(Error::NotSupportedInRole)
    }
}

/// The reply to a command, given the role, the store and the instant `now` in milliseconds.
pub open spec fn reply_of<W: RoleInfo>(
    role: W,
    store: Map<Seq<char>, StoredValue>,
    c: CommandView,
    now: u64,
) -> Result<Frame, Error> {
    match c {
        CommandView::Ping(None) => Ok(Frame::Simple("PONG"@)),
        CommandView::Ping(Some(m)) => Ok(Frame::Simple(m)),
        CommandView::Echo(m) => Ok(Frame::Simple(m)),
        CommandView::SetKey { .. } => Ok(Frame::Simple("OK"@)),
        CommandView::Get(k) => Ok(
            match get_model(store, k, now) {
                Some(v) => Frame::Bulk(encode_utf8(v)),
                None => Frame::Null,
            },
        ),
        CommandView::Info(_) => Ok(Frame::Bulk(encode_utf8(role.info_text()))),
        CommandView::ReplConf(_) => Ok(Frame::Simple("OK"@)),
        CommandView::Psync { .. } => role.psync_reply(),
    }
}

/// The store after a command at instant `now`: only `SET` changes it.
pub open spec fn store_after(
    store: Map<Seq<char>, StoredValue>,
    c: CommandView,
    now: u64,
) -> Map<Seq<char>, StoredValue> {
    match c {
        CommandView::SetKey { key, value, expiration } => put_model(
            store,
            key,
            value,
            expiration,
            now,
        ),
        _ => store,
    }
}

/// `r` is the reply that `s` describes.
pub open spec fn reply_is(r: Result<Element, Error>, s: Result<Frame, Error>) -> bool {
    match s {
        Ok(f) => r matches Ok(e) && e@ == f,
        Err(x) => r == Err::<Element, Error>(x),
    }
}

/// What the server does after reading a request: write the bytes, or drop the connection.
#[derive(Debug, PartialEq, Eq)]
pub enum Turn {
    Reply(Vec<u8>),
    Close,
}

/// The bytes that a turn writes, if it does not drop the connection.
pub open spec fn turn_bytes(t: Turn) -> Option<Seq<u8>> {
    match t {
        Turn::Reply(b) => Some(b@),
        Turn::Close => None,
    }
}

/// One turn of a connection: the request (all the bytes of one read) is read as a command
/// and run at instant `now`. Gives the store left and the bytes of the reply, or no bytes
/// when the request cannot be read or run, which drops the connection. An empty read is
/// such a request: the peer has closed.
pub open spec fn turn_of<W: RoleInfo>(
    role: W,
    store: Map<Seq<char>, StoredValue>,
    request: Seq<u8>,
    now: u64,
) -> (Map<Seq<char>, StoredValue>, Option<Seq<u8>>) {
    match command_of_bytes(request) {
        Ok(c) => match reply_of(role, store, c, now) {
            Ok(f) => (store_after(store, c, now), Some(encode_frame(f))),
            Err(_) => (store, None),
        },
        Err(_) => (store, None),
    }
}

/// One connection's state: the store as it is left, the bytes written so far, one entry per
/// reply, and whether the connection has been dropped.
pub struct Session {
    pub store: Map<Seq<char>, StoredValue>,
    pub replies: Seq<Seq<u8>>,
    pub closed: bool,
}

/// The session after one more request (its bytes, and the instant it is run at): a dropped
/// connection serves nothing more.
pub open spec fn next_session<W: RoleInfo>(role: W, s: Session, request: (Seq<u8>, u64)) -> Session {
    if s.closed {
        s
    } else {
        let (store, out) = turn_of(role, s.store, request.0, request.1);
        match out {
            Some(b) => Session { store, replies: s.replies.push(b), closed: false },
            None => Session { store, replies: s.replies, closed: true },
        }
    }
}

/// A connection served request by request: the turns, one after another, each on the store
/// that the turns before it left.
pub open spec fn serve<W: RoleInfo>(
    role: W,
    store: Map<Seq<char>, StoredValue>,
    requests: Seq<(Seq<u8>, u64)>,
) -> Session
    decreases requests.len(),
{
    if requests.len() == 0 {
        Session { store, replies: Seq::empty(), closed: false }
    } else {
        next_session(role, serve(role, store, requests.drop_last()), requests.last())
    }
}

/// Serving one more request after others is one more turn on the session they left: the
/// turns that `Database::turn` and `Database::turn_read` make, one per read, are `serve`.
pub proof fn lemma_serve_turns<W: RoleInfo>(
    role: W,
    store: Map<Seq<char>, StoredValue>,
    requests: Seq<(Seq<u8>, u64)>,
    request: (Seq<u8>, u64),
)
    ensures
        serve(role, store, requests.push(request)) == next_session(
            role,
            serve(role, store, requests),
            request,
        ),
{
    assert(requests.push(request).drop_last() == requests);
}

proof fn lemma_serve_open<W: RoleInfo>(
    role: W,
    store: Map<Seq<char>, StoredValue>,
    requests: Seq<(Seq<u8>, u64)>,
)
    ensures
        serve(role, store, requests).replies.len() <= requests.len(),
        !serve(role, store, requests).closed ==> serve(role, store, requests).replies.len()
            == requests.len(),
    decreases requests.len(),
{
    if requests.len() > 0 {
        lemma_serve_open(role, store, requests.drop_last());
    }
}

/// On one connection, replies come in the order of the requests: the `i`-th reply is the
/// reply to the `i`-th request, run on the store that the requests before it left.
pub proof fn lemma_replies_in_order<W: RoleInfo>(
    role: W,
    store: Map<Seq<char>, StoredValue>,
    requests: Seq<(Seq<u8>, u64)>,
    i: int,
)
    requires
        0 <= i < serve(role, store, requests).replies.len(),
    ensures
        i < requests.len(),
        !serve(role, store, requests.take(i)).closed,
        serve(role, store, requests.take(i)).replies == serve(role, store, requests).replies.take(i),
        turn_of(role, serve(role, store, requests.take(i)).store, requests[i].0, requests[i].1).1
            == Some(serve(role, store, requests).replies[i]),
    decreases requests.len(),
{
    let full = serve(role, store, requests);
    let prev = requests.drop_last();
    let s = serve(role, store, prev);
    lemma_serve_open(role, store, requests);
    lemma_serve_open(role, store, prev);
    if i < s.replies.len() {
        lemma_replies_in_order(role, store, prev, i);
        assert(prev.take(i) == requests.take(i));
        assert(full.replies.take(i) == s.replies.take(i));
    } else {
        assert(requests.take(i) == prev);
        assert(full.replies.take(i) == s.replies);
    }
}

/// A server: its listening port, its store, and its role.
pub struct Database<W> {
    port: usize,
    db: Store,
    role: W,
}

impl<W: RoleInfo> Database<W> {
    /// The store is well formed.
    pub closed spec fn wf(&self) -> bool {
        self.db.wf()
    }

    /// What the store holds.
    pub closed spec fn store(&self) -> Map<Seq<char>, StoredValue> {
        self.db@
    }

    /// The server's role.
    pub closed spec fn role(&self) -> W {
        self.role
    }

    /// The port that the server listens on.
    pub closed spec fn port_spec(&self) -> usize {
        self.port
    }

    pub fn port(&self) -> (r: usize)
        ensures
            r == self.port_spec(),
    {
        self.port
    }

    pub fn role_info(&self) -> (r: &W)
        ensures
            *r == self.role(),
    {
        &self.role
    }

    /// One turn of a connection under exclusive access: reads the request as a command,
    /// runs it, and gives the bytes to write, or `Close` to drop the connection.
    pub fn turn(&mut self, request: &[u8], now: u64) -> (r: Turn)
        requires
            old(self).wf(),
        ensures
            final(self).wf(),
            final(self).role() == old(self).role(),
            final(self).port_spec() == old(self).port_spec(),
            turn_of(old(self).role(), old(self).store(), request@, now) == (
                final(self).store(),
                turn_bytes(r),
            ),
    {
        let command = match CommandParser::new(request).parse() {
            Ok(c) => c,
            Err(_) => {
                return Turn::Close;
            },
        };
        match self.execute(command, now) {
            Ok(reply) => Turn::Reply(serialize_element(reply)),
            Err(_) => Turn::Close,
        }
    }

    /// One turn of a connection under shared access: as [`Database::turn`] for a request
    /// that leaves the store as it is; `None` for a `SET`, which needs exclusive access.
    pub fn turn_read(&self, request: &[u8], now: u64) -> (r: Option<Turn>)
        requires
            self.wf(),
        ensures
            r is None <==> (command_of_bytes(request@) matches Ok(c) && c is SetKey),
            r matches Some(t) ==> turn_of(self.role(), self.store(), request@, now) == (
                self.store(),
                turn_bytes(t),
            ),
    {
        let command = match CommandParser::new(request).parse() {
            Ok(c) => c,
            Err(_) => {
                return Some(Turn::Close);
            },
        };
        if command.is_write() {
            return None;
        }
        match self.execute_read(command, now) {
            Ok(reply) => Some(Turn::Reply(serialize_element(reply))),
            Err(_) => Some(Turn::Close),
        }
    }

    /// Runs a command that leaves the store as it is (any but `SET`).
    pub fn execute_read(&self, command: Command, now: u64) -> (r: Result<Element, Error>)
        requires
            self.wf(),
            !(command@ is SetKey),
        ensures
            reply_is(r, reply_of(self.role(), self.store(), command@, now)),
    {
        match command {
            Command::Ping(message) => match message {
                Some(m) => Ok(Element::SimpleString(m)),
                None => Ok(Element::SimpleString(String::from_str("PONG"))),
            },
            Command::Echo(message) => Ok(Element::SimpleString(message)),
            Command::SetKey(_) => Ok(Element::SimpleString(String::from_str("OK"))),
            Command::Get(key) => match self.db.get(&key, now) {
                Some(v) => Ok(Element::BulkString(vstd::slice::slice_to_vec(v.as_str().as_bytes()))),
                None => Ok(Element::NullBulkString),
            },
            Command::Info(_sections) => {
                let text = self.role.as_info_section();
                Ok(Element::BulkString(vstd::slice::slice_to_vec(text.as_str().as_bytes())))
            },
            Command::ReplConf(_opt) => Ok(Element::SimpleString(String::from_str("OK"))),
            Command::Psync(psync) => self.role.handle_psync(psync),
        }
    }

    /// Runs a command: `SET` changes the store, the others read it.
    pub fn execute(&mut self, command: Command, now: u64) -> (r: Result<Element, Error>)
        requires
            old(self).wf(),
        ensures
            final(self).wf(),
            final(self).store() == store_after(old(self).store(), command@, now),
            final(self).role() == old(self).role(),
            final(self).port_spec() == old(self).port_spec(),
            reply_is(r, reply_of(old(self).role(), old(self).store(), command@, now)),
    {
        match command {
            Command::SetKey(set) => {
                self.db.put(set.key, set.value, set.expiration, now);
                Ok(Element::SimpleString(String::from_str("OK")))
            },
            other => self.execute_read(other, now),
        }
    }
}

impl Database<MasterInfo> {
    /// A primary that listens on `port`, with an empty store.
    pub fn new_master(port: usize) -> (r: Self)
        ensures
            r.wf(),
            r.port_spec() == port,
            r.store() == Map::<Seq<char>, StoredValue>::empty(),
            r.role().id() == REPLICATION_ID@,
            r.role().offset() == 0,
    {
        Database {
            port,
            db: Store::new(),
            role: MasterInfo { replication_id: REPLICATION_ID.to_owned(), replication_offset: 0 },
        }
    }
}

impl Database<ReplicaInfo> {
    /// A replica that listens on `port` and follows the primary at `master_host:master_port`,
    /// with an empty store.
    pub fn new_replica(port: usize, master_host: String, master_port: usize) -> (r: Self)
        ensures
            r.wf(),
            r.port_spec() == port,
            r.store() == Map::<Seq<char>, StoredValue>::empty(),
            r.role().host() == master_host@,
            r.role().port() == master_port,
    {
        Database { port, db: Store::new(), role: ReplicaInfo { master_host, master_port } }
    }
}

} // verus!
