use vdb::protocol::handle_line;
use vdb::protocol::parse_command;
use vdb::protocol::parse_reply;
use vdb::protocol::ClientReply;
use vdb::protocol::Command;
use vdb::protocol::ConnState;
use vdb::protocol::ProtocolError;
use vdb::protocol::Session;
use vdb::store::KvStore;

#[test]
fn parse_accepts_verbs_in_any_case() {
    assert!(matches!(parse_command("GET foo"), Ok(Command::Get { key }) if key == "foo"));
    assert!(matches!(parse_command("get foo"), Ok(Command::Get { key }) if key == "foo"));
    assert!(matches!(parse_command("GeT foo"), Ok(Command::Get { key }) if key == "foo"));
    assert!(matches!(parse_command("quit"), Ok(Command::Quit)));
    assert!(matches!(parse_command("Search x"), Ok(Command::Search { query }) if query == "x"));
}

#[test]
fn parse_keeps_embedded_spaces_in_set_values() {
    match parse_command("SET greeting hello wide world") {
        Ok(Command::Store { key, value }) => {
            assert_eq!(key, "greeting");
            assert_eq!(value, "hello wide world");
        }
        other => panic!("unexpected parse: {:?}", other.is_ok()),
    }
}

#[test]
fn parse_limits_get_and_search_to_one_token() {
    assert!(matches!(parse_command("GET a b"), Ok(Command::Get { key }) if key == "a"));
    assert!(matches!(parse_command("SEARCH a b"), Ok(Command::Search { query }) if query == "a"));
}

#[test]
fn parse_reports_each_malformed_line() {
    assert!(matches!(parse_command("GET"), Err(ProtocolError::MissingKey)));
    assert!(matches!(parse_command("SET"), Err(ProtocolError::MissingKeyOrValue)));
    assert!(matches!(parse_command("SET key"), Err(ProtocolError::MissingKeyOrValue)));
    assert!(matches!(parse_command("SEARCH"), Err(ProtocolError::MissingQuery)));
    assert!(matches!(parse_command("NOPE x"), Err(ProtocolError::UnknownCommand)));
    assert!(matches!(parse_command(""), Err(ProtocolError::UnknownCommand)));
}

#[test]
fn kv_session_scenario() {
    let mut store = KvStore::new();
    let mut session = Session::new();
    assert_eq!(session.state, ConnState::Greeting);
    let banner = session.greet();
    assert_eq!(banner, "+OK vdb 0.1\r\n");
    assert_eq!(session.state, ConnState::CommandLoop);

    let resp = session.on_line(&mut store, "SET foo bar");
    assert_eq!(resp, "+OK\r\n");
    assert_eq!(session.state, ConnState::CommandLoop);

    let resp = session.on_line(&mut store, "GET foo");
    assert_eq!(resp, "+bar\r\n");

    let resp = session.on_line(&mut store, "GET missing");
    assert_eq!(resp, "$-1\r\n");

    let resp = session.on_line(&mut store, "QUIT");
    assert_eq!(resp, "+BYE\r\n");
    assert_eq!(session.state, ConnState::Closed);
    assert!(session.closed());
}

#[test]
fn malformed_commands_keep_the_connection_open() {
    let mut store = KvStore::new();
    let mut session = Session::new();
    let _ = session.greet();
    let resp = session.on_line(&mut store, "FROB x");
    assert_eq!(resp, "-ERR unknown command\r\n");
    assert_eq!(session.state, ConnState::CommandLoop);
    let resp = session.on_line(&mut store, "GET");
    assert_eq!(resp, "-ERR missing key\r\n");
    let resp = session.on_line(&mut store, "SET only");
    assert_eq!(resp, "-ERR missing key or value\r\n");
    let resp = session.on_line(&mut store, "SEARCH");
    assert_eq!(resp, "-ERR missing query\r\n");
    assert_eq!(session.state, ConnState::CommandLoop);
}

#[test]
fn read_failure_closes_without_response() {
    let mut session = Session::new();
    let _ = session.greet();
    session.on_read_error();
    assert_eq!(session.state, ConnState::Closed);
}

#[test]
fn search_returns_nil_on_zero_matches_and_json_on_hits() {
    let mut store = KvStore::new();
    let (resp, closed) = handle_line(&mut store, "SEARCH anything");
    assert_eq!(resp, "$-1\r\n");
    assert!(!closed);

    let (resp, _) = handle_line(&mut store, "SET foo bar");
    assert_eq!(resp, "+OK\r\n");
    let (resp, _) = handle_line(&mut store, "SET fop baz");
    assert_eq!(resp, "+OK\r\n");

    // Two matching entries: a JSON array of exactly the two formatted lines.
    let (resp, closed) = handle_line(&mut store, "SEARCH fo");
    assert_eq!(resp, "+[\"foo: bar\",\"fop: baz\"]\r\n");
    assert!(!closed);

    // One matching entry, hit on the value.
    let (resp, _) = handle_line(&mut store, "SEARCH baz");
    assert_eq!(resp, "+[\"fop: baz\"]\r\n");
}

#[test]
fn client_reply_classification() {
    assert!(matches!(parse_reply("+bar"), ClientReply::Value { text } if text == "bar"));
    assert!(matches!(parse_reply("+"), ClientReply::Value { text } if text.is_empty()));
    assert!(matches!(parse_reply("$-1"), ClientReply::Nil));
    assert!(
        matches!(parse_reply("-ERR missing key"), ClientReply::Error { reason } if reason == "-ERR missing key")
    );
    assert!(matches!(parse_reply(""), ClientReply::Error { .. }));
}
