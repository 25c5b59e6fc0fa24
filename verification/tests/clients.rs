//! What clients send and what they are answered.
use ccdb::client::{
    admin_identity, execute_client, execute_client_immediate, follower_read_answer,
    follower_read_retry, queue_client_transaction, refuse_admin_submission, render_admin_reply,
    resume_client, stale_read_answer, AdminResultTag, BatchLimits, ClientAction,
    ClientTransaction, Pending, SubmitFailure,
};
use ccdb::command::{parse_command, AdminOperation, ClientCommand};
use ccdb::ids::{Duration, Time};
use ccdb::kv::{to_resp, KvCommand, KvError, KvReply, SetCondition};
use ccdb::resp::{encode, parse, RespError, RespValue, MAX_FRAME};
use ccdb::serving::{
    serve_client, submit, transition, ClientFrame, Delivery, Submitted, TransitionStep,
};

fn bulk(value: &[u8]) -> RespValue {
    RespValue::Bulk(Some(value.to_vec()))
}

fn command(parts: &[&[u8]]) -> ClientCommand {
    parse_command(RespValue::Array(
        parts.iter().map(|part| bulk(part)).collect(),
    ))
    .expect("command")
}

fn limits() -> BatchLimits {
    BatchLimits {
        max_commands: 4,
        max_bytes: 100,
    }
}

fn run(
    text: &[&[u8]],
    transaction: &mut Option<ClientTransaction>,
    batches_active: bool,
) -> ClientAction {
    execute_client(command(text), transaction, batches_active, true, limits(), 10)
}

#[test]
fn transactions_wait_for_the_feature() {
    let mut transaction = None;
    let action = run(&[b"MULTI"], &mut transaction, false);
    match action {
        ClientAction::Reply(reply) => assert_eq!(encode(&reply), b"-FEATUREDISABLED\r\n"),
        _ => panic!("MULTI before activation"),
    }
    assert!(transaction.is_none());
}

#[test]
fn transactions_are_one_batch() {
    let mut transaction = None;
    let mut wire = Vec::new();
    let steps: [&[&[u8]]; 3] = [
        &[b"MULTI"],
        &[b"SET", b"batch-key", b"value"],
        &[b"GET", b"batch-key"],
    ];
    for text in steps {
        match run(text, &mut transaction, true) {
            ClientAction::Reply(reply) => wire.extend_from_slice(&encode(&reply)),
            _ => panic!("queueing answers at once"),
        }
    }
    match run(&[b"EXEC"], &mut transaction, true) {
        ClientAction::Submit {
            session,
            command,
            next,
        } => {
            assert_eq!(session, None);
            assert!(
                matches!(&command, KvCommand::Batch { commands } if commands.len() == 2),
                "one batch"
            );
            let outcome = Ok(KvReply::Batch(vec![
                KvReply::Done,
                KvReply::Value(Some(b"value".to_vec())),
            ]));
            match resume_client(next, outcome) {
                ClientAction::Reply(reply) => wire.extend_from_slice(&encode(&reply)),
                _ => panic!("the batch answers"),
            }
        }
        _ => panic!("EXEC submits"),
    }
    assert!(transaction.is_none());
    assert_eq!(
        wire,
        b"+OK\r\n+QUEUED\r\n+QUEUED\r\n*2\r\n+OK\r\n$5\r\nvalue\r\n"
    );
}

#[test]
fn failing_batches_name_their_command() {
    let reply = to_resp(&KvReply::BatchError {
        failed_index: 1,
        error: KvError {
            busy: false,
            text: String::from("not-numeric"),
        },
    });
    assert_eq!(
        encode(&reply),
        b"-ERR batch failed at index 1: not-numeric\r\n"
    );
}

#[test]
fn nested_batches_are_read() {
    let value = RespValue::Array(vec![
        bulk(b"BATCH"),
        RespValue::Array(vec![
            RespValue::Array(vec![bulk(b"SET"), bulk(b"one-shot"), bulk(b"value")]),
            RespValue::Array(vec![bulk(b"GET"), bulk(b"one-shot")]),
        ]),
    ]);
    let parsed = parse_command(value).expect("BATCH");
    assert_eq!(
        parsed,
        ClientCommand::Batch(vec![
            ClientCommand::SetKey {
                key: b"one-shot".to_vec(),
                value: b"value".to_vec(),
                ttl: None,
                nx: false,
                xx: false,
            },
            ClientCommand::Get(b"one-shot".to_vec()),
        ])
    );
    let durable = RespValue::Array(vec![
        bulk(b"CC.REQUEST"),
        bulk(b"902"),
        bulk(b"1"),
        bulk(b"BATCH"),
        RespValue::Array(vec![RespValue::Array(vec![
            bulk(b"INCR"),
            bulk(b"batch-retry"),
        ])]),
    ]);
    match execute_client_immediate(parse_command(durable).expect("CC.REQUEST"), true) {
        ClientAction::Submit {
            session, command, ..
        } => {
            assert_eq!(session, Some((902, 1)));
            assert!(matches!(command, KvCommand::Batch { .. }));
        }
        _ => panic!("a durable batch is submitted"),
    }
}

#[test]
fn a_spoiled_transaction_is_refused() {
    let mut transaction = None;
    run(&[b"MULTI"], &mut transaction, true);
    let refused = run(&[b"DEL", b"a", b"b"], &mut transaction, true);
    assert!(matches!(refused, ClientAction::Reply(RespValue::Error(_))));
    match run(&[b"EXEC"], &mut transaction, true) {
        ClientAction::Reply(RespValue::Error(text)) => assert!(text.starts_with("EXECABORT")),
        _ => panic!("a spoiled transaction proposes nothing"),
    }
    assert!(transaction.is_none());
    run(&[b"MULTI"], &mut transaction, true);
    run(&[b"DISCARD"], &mut transaction, true);
    assert!(transaction.is_none());
}

#[test]
fn transactions_stay_within_their_limits() {
    let mut transaction = ClientTransaction::Clean {
        commands: Vec::new(),
        translated: Vec::new(),
        encoded_bytes: 0,
    };
    for _ in 0..4 {
        assert_eq!(
            queue_client_transaction(
                &mut transaction,
                ClientCommand::Get(b"k".to_vec()),
                limits(),
                10
            ),
            RespValue::Simple(String::from("QUEUED"))
        );
    }
    assert!(matches!(
        queue_client_transaction(
            &mut transaction,
            ClientCommand::Get(b"k".to_vec()),
            limits(),
            10
        ),
        RespValue::Error(_)
    ));
    assert!(matches!(transaction, ClientTransaction::Dirty));
}

#[test]
fn commands_become_store_commands() {
    let cases: [(&[&[u8]], KvCommand); 4] = [
        (
            &[b"SET", b"a", b"1", b"EX", b"2", b"XX"],
            KvCommand::ConditionalSet {
                key: b"a".to_vec(),
                value: b"1".to_vec(),
                ttl: Some(Duration::from_secs(2)),
                condition: SetCondition::Xx,
            },
        ),
        (
            &[b"INCR", b"n"],
            KvCommand::Incr {
                key: b"n".to_vec(),
                delta: 1,
            },
        ),
        (
            &[b"CAS", b"a", b"old", b"new"],
            KvCommand::Cas {
                key: b"a".to_vec(),
                expected: Some(b"old".to_vec()),
                value: Some(b"new".to_vec()),
            },
        ),
        (&[b"TTL", b"a"], KvCommand::Ttl { key: b"a".to_vec() }),
    ];
    for (text, expected) in cases {
        match execute_client_immediate(command(text), true) {
            ClientAction::Submit { command, .. } => assert_eq!(command, expected),
            _ => panic!("a store command is submitted"),
        }
    }
    assert_eq!(encode(&to_resp(&KvReply::Integer(-2))), b":-2\r\n");
}

#[test]
fn deletions_go_one_by_one() {
    let mut action = execute_client_immediate(command(&[b"DEL", b"a", b"b"]), true);
    for _ in 0..2 {
        action = match action {
            ClientAction::Submit { next, command, .. } => {
                assert!(matches!(command, KvCommand::Del { .. }));
                resume_client(next, Ok(KvReply::Integer(1)))
            }
            _ => panic!("each key is deleted"),
        };
    }
    match action {
        ClientAction::Reply(reply) => assert_eq!(encode(&reply), b":2\r\n"),
        _ => panic!("the sum is answered"),
    }
}

#[test]
fn failures_reach_the_client() {
    let failed = submit(Submitted::NotLeader(Some((2, String::from("127.0.0.1:7102")))))
        .expect_err("another node leads");
    assert_eq!(
        failed.to_fault().message,
        "NOTLEADER leader=n2 addr=127.0.0.1:7102"
    );
    assert_eq!(
        submit(Submitted::NotLeader(None))
            .expect_err("nobody leads")
            .to_fault()
            .message,
        "NOTLEADER leader=n0 addr=unknown"
    );
    assert_eq!(submit(Submitted::Silence), Err(SubmitFailure::Timeout));
    assert_eq!(
        submit(Submitted::Unreadable),
        Err(SubmitFailure::InvalidReply)
    );
    assert_eq!(
        submit(Submitted::FeatureDisabled),
        Err(SubmitFailure::FeatureDisabled)
    );
    assert_eq!(submit(Submitted::Reply(KvReply::Done)), Ok(KvReply::Done));
    match resume_client(Pending::Plain, Err(SubmitFailure::Timeout)) {
        ClientAction::Fail(fault) => assert_eq!(fault.message, "request did not commit"),
        _ => panic!("a failure is a fault"),
    }
}

#[test]
fn operators_are_answered_with_lossy_text() {
    assert_eq!(AdminResultTag::Applied.name(), "Applied");
    let whole = render_admin_reply(AdminResultTag::Applied, 7, b"done");
    let broken = render_admin_reply(AdminResultTag::Applied, 7, &[0x66, 0xff]);
    assert_ne!(whole, broken);
    assert!(
        encode(&broken)
            .windows(4)
            .any(|window| window == [0x66, 0xef, 0xbf, 0xbd]),
        "a byte that is no text becomes the replacement character"
    );
    assert!(admin_identity(0, 1).is_none());
    assert!(admin_identity(1, 0).is_none());
    assert!(admin_identity(9, 1).is_some());
    assert!(!matches!(
        refuse_admin_submission(SubmitFailure::Timeout, 9, 1),
        ClientAction::Submit { .. }
    ));
    assert_eq!(
        command(&[b"CC.ADMIN", b"LEAVEJOINT", b"9", b"1"]),
        ClientCommand::Admin {
            operator_id: 9,
            sequence: 1,
            operation: AdminOperation::LeaveJoint,
        }
    );
}

#[test]
fn local_reads_are_tagged() {
    let stale = encode(&stale_read_answer(
        &KvReply::Value(Some(b"v".to_vec())),
        3,
        2,
        Time::from_nanos(9),
        -1,
    ));
    assert!(stale.windows(5).any(|window| window == b"STALE"));
    let follower = encode(&follower_read_answer(
        &KvReply::Value(Some(b"v".to_vec())),
        3,
        4,
        2,
        Time::from_nanos(9),
    ));
    assert!(follower.windows(8).any(|window| window == b"FOLLOWER"));
    assert!(matches!(
        follower_read_retry(2, "127.0.0.1:7102"),
        RespValue::Error(_)
    ));
}

#[test]
fn connections_are_served_frame_by_frame() {
    let mut transaction = Some(ClientTransaction::Clean {
        commands: Vec::new(),
        translated: Vec::new(),
        encoded_bytes: 0,
    });
    assert!(matches!(
        serve_client(b"*1\r\n$4\r\nPI", true, &mut transaction),
        ClientFrame::Wait
    ));
    match serve_client(b"*1\r\n$4\r\nPING\r\nrest", true, &mut transaction) {
        ClientFrame::Command { used, command } => {
            assert_eq!(used, 14);
            assert_eq!(command, ClientCommand::Ping);
        }
        _ => panic!("a whole command"),
    }
    match serve_client(b"*1\r\n$4\r\nPING\r\n", false, &mut transaction) {
        ClientFrame::Close(reply) => {
            assert_eq!(encode(&reply), b"-TRYAGAIN joining node is not active\r\n");
        }
        _ => panic!("an inactive node serves nobody"),
    }
    assert!(matches!(transaction, Some(ClientTransaction::Clean { .. })));
    match serve_client(b"*2\r\n$3\r\nGET\r\n:1\r\n", true, &mut transaction) {
        ClientFrame::Answer { reply, .. } => assert!(matches!(reply, RespValue::Error(_))),
        _ => panic!("a malformed command is answered"),
    }
    assert!(matches!(transaction, Some(ClientTransaction::Dirty)));
    let flood = vec![b'*'; 2 * MAX_FRAME + 1];
    match serve_client(&flood, true, &mut transaction) {
        ClientFrame::Close(reply) => assert_eq!(encode(&reply), b"-ERR frame too large\r\n"),
        _ => panic!("a flood is refused"),
    }
    assert_eq!(transition(true, Delivery::Taken), TransitionStep::Drop);
    assert_eq!(
        transition(false, Delivery::PersistencePending),
        TransitionStep::Enqueue
    );
    assert_eq!(transition(false, Delivery::Taken), TransitionStep::Perform);
    assert_eq!(transition(false, Delivery::Failed), TransitionStep::Fail);
}

#[test]
fn malformed_frames_have_their_errors() {
    assert_eq!(parse(b""), Err(RespError::Incomplete));
    assert_eq!(parse(b":12"), Err(RespError::Incomplete));
    assert_eq!(parse(b":1x\r\n"), Err(RespError::InvalidInteger));
    assert_eq!(parse(b"$-2\r\n"), Err(RespError::InvalidLength));
    assert_eq!(parse(b"+\xff\r\n"), Err(RespError::InvalidUtf8));
    assert_eq!(
        parse(b"+caf\xc3\xa9\r\n").expect("text").0,
        RespValue::Simple(String::from("caf\u{e9}"))
    );
    assert_eq!(parse(b"$-1\r\n").expect("null").0, RespValue::Bulk(None));
}
