use rudis::executor::execute_command_at;
use rudis::protocol::{parse_command, serialize_response, RedisCommand, RedisValue};
use rudis::storage::Storage;

fn run(storage: &mut Storage, line: &str, now: u64) -> Vec<u8> {
    let mut buf = line.as_bytes().to_vec();
    let cmd = parse_command(&mut buf).unwrap().unwrap();
    serialize_response(execute_command_at(cmd, storage, now))
}

#[test]
fn set_get_expire_scenario() {
    let mut storage = Storage::new();
    assert_eq!(run(&mut storage, "SET a hello EX 1\r\n", 0), b"+OK\r\n".to_vec());
    assert_eq!(run(&mut storage, "GET a\r\n", 0), b"$5\r\nhello\r\n".to_vec());
    assert_eq!(run(&mut storage, "KEYS a*\r\n", 500), b"*1\r\n+a\r\n".to_vec());
    assert_eq!(run(&mut storage, "GET a\r\n", 1001), b"$-1\r\n".to_vec());
    assert_eq!(run(&mut storage, "KEYS a*\r\n", 1001), b"*0\r\n".to_vec());
}

#[test]
fn delete_answers_count() {
    let mut storage = Storage::new();
    run(&mut storage, "SET k v\r\n", 0);
    assert_eq!(run(&mut storage, "DEL k\r\n", 0), b":1\r\n".to_vec());
    assert_eq!(run(&mut storage, "DEL k\r\n", 0), b":0\r\n".to_vec());
}

#[test]
fn pop_answers_pair_or_nil() {
    let mut storage = Storage::new();
    assert_eq!(run(&mut storage, "POP\r\n", 0), b"$-1\r\n".to_vec());
    run(&mut storage, "SET first 1\r\n", 0);
    run(&mut storage, "SET second 2\r\n", 0);
    assert_eq!(run(&mut storage, "POP\r\n", 0), b"*2\r\n+first\r\n$1\r\n1\r\n".to_vec());
    assert_eq!(run(&mut storage, "POP\r\n", 0), b"*2\r\n+second\r\n$1\r\n2\r\n".to_vec());
    assert_eq!(run(&mut storage, "POP\r\n", 0), b"$-1\r\n".to_vec());
}

#[test]
fn ping_and_info() {
    let mut storage = Storage::new();
    assert_eq!(run(&mut storage, "PING\r\n", 0), b"+PONG\r\n".to_vec());
    assert_eq!(
        run(&mut storage, "INFO\r\n", 0),
        b"+# Rudis\r\nversion:0.1.0\r\nrust_version:1.68.0\r\n\r\n".to_vec()
    );
}

#[test]
fn ttl_seconds_become_milliseconds() {
    let mut storage = Storage::new();
    let cmd = RedisCommand::SetKey { key: "t".to_string(), value: b"x".to_vec(), ttl: Some(2) };
    assert!(matches!(execute_command_at(cmd, &mut storage, 100), RedisValue::String(_)));
    assert_eq!(storage.get_at("t", 2100), Ok(b"x".to_vec()));
    assert!(storage.get_at("t", 2101).is_err());
}

#[test]
fn clocked_execute_sets_and_gets() {
    let mut storage = Storage::new();
    let cmd = RedisCommand::SetKey { key: "c".to_string(), value: b"v".to_vec(), ttl: None };
    assert!(matches!(rudis::executor::execute_command(cmd, &mut storage), RedisValue::String(_)));
    match rudis::executor::execute_command(RedisCommand::Get { key: "c".to_string() }, &mut storage) {
        RedisValue::Bytes(b) => assert_eq!(b, b"v".to_vec()),
        other => panic!("unexpected {:?}", other),
    }
}

#[test]
fn respond_waits_for_complete_frame() {
    let mut storage = Storage::new();
    let mut buf = b"SET k".to_vec();
    assert_eq!(rudis::executor::respond_at(&mut buf, &mut storage, 0), None);
    assert_eq!(buf, b"SET k".to_vec());
    buf.extend_from_slice(b" v\r\n");
    assert_eq!(rudis::executor::respond_at(&mut buf, &mut storage, 0), Some(b"+OK\r\n".to_vec()));
    assert!(buf.is_empty());
    let mut get = b"GET k\r\n".to_vec();
    assert_eq!(rudis::executor::respond(&mut get, &mut storage), Some(b"$1\r\nv\r\n".to_vec()));
}

#[test]
fn respond_reports_errors_and_goes_on() {
    let mut storage = Storage::new();
    let mut buf = b"BOGUS\r\n".to_vec();
    assert_eq!(
        rudis::executor::respond_at(&mut buf, &mut storage, 0),
        Some(b"-Error: invalid command\r\n".to_vec())
    );
    assert!(buf.is_empty());
    let mut buf = b"GET\r\n".to_vec();
    assert_eq!(
        rudis::executor::respond_at(&mut buf, &mut storage, 0),
        Some(b"-Error: invalid protocol format\r\n".to_vec())
    );
    let mut buf = b"PING\r\n".to_vec();
    assert_eq!(rudis::executor::respond_at(&mut buf, &mut storage, 0), Some(b"+PONG\r\n".to_vec()));
}
