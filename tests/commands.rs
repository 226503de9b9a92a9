use minikv::command::CommandParser;
use minikv::protocol::{Command, Element, Error, InfoSection, Psync, ReplOpt, SetArgs};
use minikv::writer::serialize_command;

fn command(words: &[&[u8]]) -> Result<Command, Error> {
    Element::Array(words.iter().map(|w| Element::BulkString(w.to_vec())).collect()).to_command()
}

#[test]
fn command_names_ignore_case() {
    for name in [&b"PING"[..], b"ping", b"Ping", b"pInG"] {
        assert_eq!(command(&[name]), Ok(Command::Ping(None)));
        assert_eq!(
            command(&[name, b"x"]),
            Ok(Command::Ping(Some("x".to_string())))
        );
    }
    assert_eq!(
        command(&[b"gEt", b"k"]),
        Ok(Command::Get("k".to_string()))
    );
}

#[test]
fn command_parser_reads_bytes() {
    assert_eq!(
        CommandParser::new(b"*2\r\n$4\r\nEcHo\r\n$2\r\nhi\r\n").parse(),
        Ok(Command::Echo("hi".to_string()))
    );
    assert_eq!(CommandParser::new(b"").parse(), Err(Error::ShortRead));
    assert_eq!(
        CommandParser::new(b"*2\r\n$3\r\nGET\r\n$10\r\nfoo\r\n").parse(),
        Err(Error::ShortRead)
    );
    assert_eq!(
        CommandParser::new(b"*2\r\n$3\r\nGET\r\n$3\r\nfooXY").parse(),
        Err(Error::MalformedFrame)
    );
}

#[test]
fn set_arguments() {
    assert_eq!(
        command(&[b"SET", b"k", b"v"]),
        Ok(Command::SetKey(SetArgs {
            key: "k".to_string(),
            value: "v".to_string(),
            expiration: None
        }))
    );
    assert_eq!(
        command(&[b"set", b"k", b"v", b"pX", b"250"]),
        Ok(Command::SetKey(SetArgs {
            key: "k".to_string(),
            value: "v".to_string(),
            expiration: Some(250)
        }))
    );
    assert_eq!(command(&[b"SET"]), Err(Error::MissingArg));
    assert_eq!(command(&[b"SET", b"k"]), Err(Error::MissingArg));
    assert_eq!(command(&[b"SET", b"k", b"v", b"PX"]), Err(Error::MissingArg));
    assert_eq!(command(&[b"SET", b"k", b"v", b"EX", b"1"]), Err(Error::UnsupportedArg));
    assert_eq!(command(&[b"SET", b"k", b"v", b"PX", b"abc"]), Err(Error::BadInteger));
    assert_eq!(command(&[b"SET", b"k", b"v", b"PX", b"-5"]), Err(Error::BadInteger));
    assert_eq!(
        command(&[b"SET", b"k", b"v", b"PX", b"18446744073709551616"]),
        Err(Error::BadInteger)
    );
    assert_eq!(
        command(&[b"SET", b"k", b"v", b"PX", b"10", b"NX"]),
        Err(Error::UnsupportedArg)
    );
    assert_eq!(command(&[b"SET", b"\xff", b"v"]), Err(Error::MalformedCommand));
    assert_eq!(command(&[b"SET", b"\xff"]), Err(Error::MissingArg));
}

#[test]
fn echo_and_get_need_an_argument() {
    assert_eq!(command(&[b"ECHO"]), Err(Error::MissingArg));
    assert_eq!(command(&[b"GET"]), Err(Error::MissingArg));
}

#[test]
fn info_sections() {
    assert_eq!(command(&[b"INFO"]), Ok(Command::Info(vec![])));
    assert_eq!(
        command(&[b"INFO", b"Replication"]),
        Ok(Command::Info(vec![InfoSection::Replication]))
    );
    assert_eq!(command(&[b"INFO", b"memory"]), Err(Error::UnsupportedArg));
}

#[test]
fn replconf_options() {
    assert_eq!(
        command(&[b"REPLCONF", b"listening-port", b"6380"]),
        Ok(Command::ReplConf(ReplOpt::ListeningPort(6380)))
    );
    assert_eq!(
        command(&[b"REPLCONF", b"capa", b"psync2"]),
        Ok(Command::ReplConf(ReplOpt::Capability))
    );
    assert_eq!(command(&[b"REPLCONF"]), Err(Error::MissingArg));
    assert_eq!(command(&[b"REPLCONF", b"capa"]), Err(Error::MissingArg));
    assert_eq!(command(&[b"REPLCONF", b"listening-port", b"x"]), Err(Error::BadInteger));
    assert_eq!(command(&[b"REPLCONF", b"other", b"1"]), Err(Error::UnsupportedArg));
}

#[test]
fn psync_sentinels() {
    assert_eq!(
        command(&[b"PSYNC", b"?", b"-1"]),
        Ok(Command::Psync(Psync {
            replication_id: None,
            replication_offset: None
        }))
    );
    assert_eq!(
        command(&[b"PSYNC", b"abc", b"+42"]),
        Ok(Command::Psync(Psync {
            replication_id: Some("abc".to_string()),
            replication_offset: Some(42)
        }))
    );
    assert_eq!(command(&[b"PSYNC", b"?"]), Err(Error::MissingArg));
    assert_eq!(command(&[b"PSYNC", b"\xff"]), Err(Error::MissingArg));
    assert_eq!(command(&[b"PSYNC", b"\xff", b"-1"]), Err(Error::MalformedCommand));
    assert_eq!(command(&[b"PSYNC", b"?", b"-2"]), Err(Error::BadInteger));
}

#[test]
fn unknown_and_malformed_commands() {
    assert_eq!(command(&[b"FLUSHALL"]), Err(Error::UnknownCommand));
    assert_eq!(command(&[]), Err(Error::MalformedCommand));
    assert_eq!(
        Element::SimpleString("PING".to_string()).to_command(),
        Err(Error::MalformedCommand)
    );
    assert_eq!(
        Element::Array(vec![Element::SimpleString("PING".to_string())]).to_command(),
        Err(Error::MalformedCommand)
    );
}

#[test]
fn outbound_commands() {
    assert_eq!(
        serialize_command(Command::Echo("hi".to_string())),
        b"*2\r\n$4\r\nECHO\r\n$2\r\nhi\r\n".to_vec()
    );
    assert_eq!(
        serialize_command(Command::Ping(Some("x".to_string()))),
        b"*2\r\n$4\r\nPING\r\n$1\r\nx\r\n".to_vec()
    );
    assert_eq!(
        serialize_command(Command::Psync(Psync {
            replication_id: Some("id".to_string()),
            replication_offset: Some(17)
        })),
        b"*3\r\n$5\r\nPSYNC\r\n$2\r\nid\r\n$2\r\n17\r\n".to_vec()
    );
}
