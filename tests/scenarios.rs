use minikv::command::CommandParser;
use minikv::database::{Database, MasterInfo, ReplicaInfo, Turn};
use minikv::handshake::HandshakeState;
use minikv::protocol::Error;
use minikv::writer::{serialize_command, serialize_element};

fn run(db: &mut Database<MasterInfo>, request: &[u8], now: u64) -> Vec<u8> {
    let command = CommandParser::new(request).parse().unwrap();
    serialize_element(db.execute(command, now).unwrap())
}

fn run_replica(db: &mut Database<ReplicaInfo>, request: &[u8], now: u64) -> Result<Vec<u8>, Error> {
    let command = CommandParser::new(request).parse()?;
    Ok(serialize_element(db.execute(command, now)?))
}

#[test]
fn ping_without_argument() {
    let mut db = Database::new_master(6379);
    assert_eq!(run(&mut db, b"*1\r\n$4\r\nPING\r\n", 0), b"+PONG\r\n".to_vec());
}

#[test]
fn ping_with_payload() {
    let mut db = Database::new_master(6379);
    assert_eq!(
        run(&mut db, b"*2\r\n$4\r\nPING\r\n$5\r\nhello\r\n", 0),
        b"+hello\r\n".to_vec()
    );
}

#[test]
fn echo_replies_with_message() {
    let mut db = Database::new_master(6379);
    assert_eq!(
        run(&mut db, b"*2\r\n$4\r\nECHO\r\n$3\r\nhey\r\n", 0),
        b"+hey\r\n".to_vec()
    );
}

#[test]
fn set_then_get() {
    let mut db = Database::new_master(6379);
    assert_eq!(
        run(&mut db, b"*3\r\n$3\r\nSET\r\n$3\r\nfoo\r\n$3\r\nbar\r\n", 0),
        b"+OK\r\n".to_vec()
    );
    assert_eq!(
        run(&mut db, b"*2\r\n$3\r\nGET\r\n$3\r\nfoo\r\n", 5),
        b"$3\r\nbar\r\n".to_vec()
    );
}

#[test]
fn get_missing_key() {
    let mut db = Database::new_master(6379);
    assert_eq!(
        run(&mut db, b"*2\r\n$3\r\nGET\r\n$4\r\nmiss\r\n", 0),
        b"$-1\r\n".to_vec()
    );
}

#[test]
fn set_with_px_expires() {
    let mut db = Database::new_master(6379);
    let set = b"*5\r\n$3\r\nSET\r\n$1\r\nk\r\n$1\r\nv\r\n$2\r\nPX\r\n$3\r\n100\r\n";
    assert_eq!(run(&mut db, set, 1000), b"+OK\r\n".to_vec());
    let get = b"*2\r\n$3\r\nGET\r\n$1\r\nk\r\n";
    assert_eq!(run(&mut db, get, 1050), b"$1\r\nv\r\n".to_vec());
    assert_eq!(run(&mut db, get, 1099), b"$1\r\nv\r\n".to_vec());
    assert_eq!(run(&mut db, get, 1101), b"$-1\r\n".to_vec());
    assert_eq!(run(&mut db, get, 5000), b"$-1\r\n".to_vec());
}

#[test]
fn ttl_expiry_instant_reads_null() {
    let mut db = Database::new_master(6379);
    let set = b"*5\r\n$3\r\nSET\r\n$1\r\nk\r\n$1\r\nv\r\n$2\r\npx\r\n$3\r\n100\r\n";
    run(&mut db, set, 0);
    let get = b"*2\r\n$3\r\nGET\r\n$1\r\nk\r\n";
    assert_eq!(run(&mut db, get, 99), b"$1\r\nv\r\n".to_vec());
    assert_eq!(run(&mut db, get, 100), b"$-1\r\n".to_vec());
    assert_eq!(run(&mut db, get, 101), b"$-1\r\n".to_vec());
}

#[test]
fn info_replication_on_primary() {
    let mut db = Database::new_master(6379);
    let expected = b"role:master\nmaster_replid:8371b4fb1155b71f4a04d3e1bc3e18c4a990aeeb\nmaster_repl_offset:0\n";
    let mut wire = format!("${}\r\n", expected.len()).into_bytes();
    wire.extend_from_slice(expected);
    wire.extend_from_slice(b"\r\n");
    assert_eq!(
        run(&mut db, b"*2\r\n$4\r\nINFO\r\n$11\r\nreplication\r\n", 0),
        wire
    );
}

#[test]
fn info_replication_on_replica() {
    let mut db = Database::new_replica(6380, "127.0.0.1".to_string(), 6379);
    assert_eq!(
        run_replica(&mut db, b"*2\r\n$4\r\nINFO\r\n$11\r\nreplication\r\n", 0),
        Ok(b"$10\r\nrole:slave\r\n".to_vec())
    );
}

#[test]
fn replconf_replies_ok() {
    let mut db = Database::new_master(6379);
    assert_eq!(
        run(&mut db, b"*3\r\n$8\r\nREPLCONF\r\n$14\r\nlistening-port\r\n$4\r\n6380\r\n", 0),
        b"+OK\r\n".to_vec()
    );
    assert_eq!(
        run(&mut db, b"*3\r\n$8\r\nREPLCONF\r\n$4\r\ncapa\r\n$6\r\npsync2\r\n", 0),
        b"+OK\r\n".to_vec()
    );
}

#[test]
fn psync_on_primary_sends_fullresync_and_snapshot() {
    let mut db = Database::new_master(6379);
    let out = run(&mut db, b"*3\r\n$5\r\nPSYNC\r\n$1\r\n?\r\n$2\r\n-1\r\n", 0);
    let head = b"+FULLRESYNC 8371b4fb1155b71f4a04d3e1bc3e18c4a990aeeb 0\r\n$88\r\n";
    assert_eq!(&out[..head.len()], &head[..]);
    assert_eq!(out.len(), head.len() + 88);
    assert_eq!(&out[head.len()..head.len() + 9], b"REDIS0011");
    assert_eq!(&out[out.len() - 2..], &[0x5a, 0xa2]);
}

#[test]
fn psync_on_replica_is_refused() {
    let mut db = Database::new_replica(6380, "127.0.0.1".to_string(), 6379);
    assert_eq!(
        run_replica(&mut db, b"*3\r\n$5\r\nPSYNC\r\n$1\r\n?\r\n$2\r\n-1\r\n", 0),
        Err(Error::NotSupportedInRole)
    );
}

#[test]
fn replica_handshake_wire() {
    let mut state = HandshakeState::Init;
    let mut sent: Vec<Vec<u8>> = Vec::new();
    while let Some(command) = state.request(6380) {
        sent.push(serialize_command(command));
        state = state.advance(b"+OK\r\n").unwrap();
    }
    assert_eq!(state, HandshakeState::Synced);
    assert_eq!(
        sent,
        vec![
            b"*1\r\n$4\r\nPING\r\n".to_vec(),
            b"*3\r\n$8\r\nREPLCONF\r\n$14\r\nlistening-port\r\n$4\r\n6380\r\n".to_vec(),
            b"*3\r\n$8\r\nREPLCONF\r\n$4\r\ncapa\r\n$6\r\npsync2\r\n".to_vec(),
            b"*3\r\n$5\r\nPSYNC\r\n$1\r\n?\r\n$2\r\n-1\r\n".to_vec(),
        ]
    );
}

#[test]
fn handshake_stops_on_unparsable_reply() {
    let state = HandshakeState::Pinged;
    assert_eq!(state.advance(b""), Err(Error::ShortRead));
    assert_eq!(state.advance(b"-ERR\r\n"), Err(Error::MalformedFrame));
    assert_eq!(state.advance(b"+PONG\r\n"), Ok(HandshakeState::PortAdvertised));
}

#[test]
fn responses_follow_request_order() {
    let mut db = Database::new_master(6379);
    let requests: Vec<&[u8]> = vec![
        b"*3\r\n$3\r\nSET\r\n$1\r\na\r\n$1\r\n1\r\n",
        b"*2\r\n$3\r\nGET\r\n$1\r\na\r\n",
        b"*3\r\n$3\r\nSET\r\n$1\r\na\r\n$1\r\n2\r\n",
        b"*2\r\n$3\r\nGET\r\n$1\r\na\r\n",
        b"*1\r\n$4\r\nPING\r\n",
    ];
    let replies: Vec<Vec<u8>> = requests.iter().map(|r| run(&mut db, r, 0)).collect();
    assert_eq!(
        replies,
        vec![
            b"+OK\r\n".to_vec(),
            b"$1\r\n1\r\n".to_vec(),
            b"+OK\r\n".to_vec(),
            b"$1\r\n2\r\n".to_vec(),
            b"+PONG\r\n".to_vec(),
        ]
    );
}

#[test]
fn connection_turns() {
    let mut db = Database::new_master(6379);
    assert_eq!(
        db.turn(b"*3\r\n$3\r\nSET\r\n$1\r\nk\r\n$1\r\nv\r\n", 0),
        Turn::Reply(b"+OK\r\n".to_vec())
    );
    assert_eq!(
        db.turn_read(b"*2\r\n$3\r\nGET\r\n$1\r\nk\r\n", 0),
        Some(Turn::Reply(b"$1\r\nv\r\n".to_vec()))
    );
    assert_eq!(db.turn_read(b"*3\r\n$3\r\nSET\r\n$1\r\nk\r\n$1\r\nw\r\n", 0), None);
    assert_eq!(db.turn_read(b"", 0), Some(Turn::Close));
    assert_eq!(db.turn(b"", 0), Turn::Close);
    assert_eq!(db.turn(b"*1\r\n$4\r\nNOPE\r\n", 0), Turn::Close);
    assert_eq!(db.turn_read(b"$3\r\nab", 0), Some(Turn::Close));
    assert_eq!(
        db.turn_read(b"*1\r\n$4\r\nping\r\n", 0),
        Some(Turn::Reply(b"+PONG\r\n".to_vec()))
    );
}

#[test]
fn replica_turn_closes_on_psync() {
    let mut db = Database::new_replica(6380, "127.0.0.1".to_string(), 6379);
    assert_eq!(
        db.turn(b"*3\r\n$5\r\nPSYNC\r\n$1\r\n?\r\n$2\r\n-1\r\n", 0),
        Turn::Close
    );
}
