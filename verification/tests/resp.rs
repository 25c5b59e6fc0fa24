//! The client protocol and its command table.
use ccdb::command::{parse_command, ClientCommand};
use ccdb::ids::Duration;
use ccdb::resp::{encode, parse, parse_at, RespError, RespValue};

#[test]
fn resp_round_trip_nested_values() {
    let value = RespValue::Array(vec![
        RespValue::Bulk(Some(b"SET".to_vec())),
        RespValue::Bulk(Some(b"key".to_vec())),
        RespValue::Integer(3),
    ]);
    let encoded = encode(&value);
    let (decoded, used) = parse(&encoded).expect("parse");
    assert_eq!(decoded, value);
    assert_eq!(used, encoded.len());
}

#[test]
fn command_table_maps_ttl_and_nx() {
    let value = RespValue::Array(vec![
        RespValue::Bulk(Some(b"set".to_vec())),
        RespValue::Bulk(Some(b"a".to_vec())),
        RespValue::Bulk(Some(b"one".to_vec())),
        RespValue::Bulk(Some(b"PX".to_vec())),
        RespValue::Bulk(Some(b"10".to_vec())),
        RespValue::Bulk(Some(b"NX".to_vec())),
    ]);
    assert_eq!(
        parse_command(value).expect("command"),
        ClientCommand::SetKey {
            key: b"a".to_vec(),
            value: b"one".to_vec(),
            ttl: Some(Duration::from_millis(10)),
            nx: true,
            xx: false,
        }
    );
}

#[test]
fn command_table_maps_rmw_and_ttl_family() {
    let command = |parts: &[&[u8]]| {
        RespValue::Array(
            parts
                .iter()
                .map(|part| RespValue::Bulk(Some(part.to_vec())))
                .collect(),
        )
    };
    assert_eq!(
        parse_command(command(&[b"APPEND", b"k", b"v"])).expect("append"),
        ClientCommand::Append {
            key: b"k".to_vec(),
            value: b"v".to_vec()
        }
    );
    assert_eq!(
        parse_command(command(&[b"GETDEL", b"k"])).expect("getdel"),
        ClientCommand::GetDel(b"k".to_vec())
    );
    assert_eq!(
        parse_command(command(&[b"EXPIREAT", b"k", b"42"])).expect("expireat"),
        ClientCommand::ExpireAt {
            key: b"k".to_vec(),
            at_seconds: 42
        }
    );
    assert_eq!(
        parse_command(command(&[b"TTL", b"k"])).expect("ttl"),
        ClientCommand::Ttl(b"k".to_vec())
    );
}

#[test]
fn trap_cc_request_keeps_the_caller_identity_outside_the_inner_command() {
    let parts: &[&[u8]] = &[b"CC.REQUEST", b"77", b"4", b"INCRBY", b"counter", b"2"];
    let command = RespValue::Array(
        parts
            .iter()
            .map(|part| RespValue::Bulk(Some(part.to_vec())))
            .collect(),
    );
    assert_eq!(
        parse_command(command).expect("CC.REQUEST"),
        ClientCommand::Request {
            client: 77,
            sequence: 4,
            command: Box::new(ClientCommand::IncrBy {
                key: b"counter".to_vec(),
                delta: 2,
            }),
        }
    );
}

#[test]
fn trap_inline_commands_are_rejected() {
    assert!(matches!(
        parse(b"GET a\r\n"),
        Err(RespError::InlineUnsupported | RespError::InvalidType(_))
    ));
}

#[test]
fn malformed_bulk_is_total() {
    assert!(matches!(
        parse(b"$4\r\na\r\n"),
        Err(RespError::Incomplete | RespError::Protocol(_))
    ));
}

#[test]
fn pipelined_frames_parse_without_dropping_the_suffix() {
    let first = encode(&RespValue::Simple(String::from("PONG")));
    let second = encode(&RespValue::Integer(2));
    let mut bytes = first.clone();
    bytes.extend_from_slice(&second);
    let (value, used) = parse(&bytes).expect("first frame");
    assert_eq!(value, RespValue::Simple(String::from("PONG")));
    assert_eq!(used, first.len());
    assert_eq!(
        parse(&bytes[used..]).expect("second frame").0,
        RespValue::Integer(2)
    );
}

#[test]
fn frames_shift_with_their_offset() {
    let value = RespValue::Array(vec![
        RespValue::Simple("OK".to_owned()),
        RespValue::Array(vec![RespValue::Bulk(Some(b"deep".to_vec()))]),
        RespValue::Bulk(None),
    ]);
    let frame = encode(&value);
    let mut input = b"+skipped\r\n".to_vec();
    let by = input.len();
    input.extend_from_slice(&frame);
    let alone = parse_at(&frame, 0, 0).expect("alone");
    let behind = parse_at(&input, by, 0).expect("behind");
    assert_eq!(behind.0, alone.0);
    assert_eq!(behind.1, alone.1 + by);
    assert_eq!(
        parse_at(&input[..input.len() - 1], by, 0),
        parse_at(&frame[..frame.len() - 1], 0, 0)
    );
    assert_eq!(parse_at(&frame, 0, 64), Err(RespError::Incomplete));
    assert_eq!(parse_at(&frame, 0, 65), Err(RespError::Incomplete));
    assert_eq!(parse_at(b"+OK\r\n", 0, 65), Err(RespError::Incomplete));
    assert_eq!(
        parse_at(b"+OK\r\n", 0, 64),
        Ok((RespValue::Simple("OK".to_owned()), 5))
    );
    assert_eq!(value.clone(), value);
}

#[test]
fn commands_are_copied_whole() {
    let command = ClientCommand::Request {
        client: 7,
        sequence: 1,
        command: Box::new(ClientCommand::Batch(vec![
            ClientCommand::Del(vec![b"a".to_vec(), b"b".to_vec()]),
            ClientCommand::Scan {
                cursor: 2,
                prefix: Some(b"p".to_vec()),
                count: 3,
            },
            ClientCommand::ReadStale(Box::new(ClientCommand::Get(b"k".to_vec()))),
        ])),
    };
    assert_eq!(command.clone(), command);
}
