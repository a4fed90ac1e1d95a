//! The command executor: one decoded command, applied to the store, gives one
//! result value.
use vstd::prelude::*;
use vstd::utf8::encode_utf8;
use crate::protocol::{
    RedisCommand, RedisValue, CommandView, ProtocolError, parse_command, serialize_response, parse_spec, encode_value,
    protocol_error_text, crlf, push_all, push_crlf, consumed,
};
use crate::storage::{Storage, SlotView, is_live, is_oldest_live, deadline, lists_keys, inserted_after, in_insertion_order};

verus! {

/// Milliseconds in `secs` seconds, held at the largest `u64`.
pub open spec fn secs_to_millis(secs: u64) -> u64 {
    if secs * 1000 > u64::MAX { u64::MAX } else { (secs * 1000) as u64 }
}

pub open spec fn info_text() -> Seq<char> {
    "# Rudis\r\nversion:0.1.0\r\nrust_version:1.68.0\r\n"@
}

pub open spec fn full_text() -> Seq<char> {
    "Set error: no insertion numbers left"@
}

/// The key texts of a list of `String` values.
pub open spec fn texts(items: Seq<RedisValue>) -> Seq<String> {
    items.map_values(|x: RedisValue| x->String_0)
}

/// Running `c` on a store holding `e` with next insertion number `n`, at time
/// `now`, answers `r` and leaves `e2` and `n2`.
pub open spec fn executed(
    c: CommandView,
    e: Map<Seq<char>, SlotView>,
    n: u64,
    now: u64,
    r: RedisValue,
    e2: Map<Seq<char>, SlotView>,
    n2: u64,
) -> bool {
    match c {
        CommandView::Get { key } => {
            &&& n2 == n
            &&& if is_live(e, key, now) {
                &&& r is Bytes && r->Bytes_0@ == e[key].0
                &&& e2 == e
            } else {
                &&& r is Nil
                &&& e2 == (if e.contains_key(key) { e.remove(key) } else { e })
            }
        },
        CommandView::SetKey { key, value, ttl } => {
            let ttl_ms = match ttl { Some(t) => Some(secs_to_millis(t)), None => None };
            if n == u64::MAX {
                &&& r is Error && r->Error_0@ == full_text()
                &&& e2 == e && n2 == n
            } else {
                &&& r is String && r->String_0@ == "OK"@
                &&& e2 == e.insert(key, (value, deadline(now, ttl_ms), n))
                &&& n2 == n + 1
            }
        },
        CommandView::Delete { key } => {
            &&& r is Integer && r->Integer_0 == (if e.contains_key(key) { 1i64 } else { 0i64 })
            &&& e2 == e.remove(key)
            &&& n2 == n
        },
        CommandView::Keys { pattern } => {
            &&& r is Array
            &&& forall|i: int| 0 <= i < r->Array_0@.len() ==> #[trigger] r->Array_0@[i] is String
            &&& lists_keys(texts(r->Array_0@), e, pattern, now)
            &&& in_insertion_order(texts(r->Array_0@), e)
            &&& e2 == e && n2 == n
        },
        CommandView::Pop => {
            &&& n2 == n
            &&& if exists|k: Seq<char>| is_live(e, k, now) {
                &&& r is Array && r->Array_0@.len() == 2
                &&& r->Array_0@[0] is String && r->Array_0@[1] is Bytes
                &&& {
                    let k = r->Array_0@[0]->String_0@;
                    &&& is_oldest_live(e, k, now)
                    &&& r->Array_0@[1]->Bytes_0@ == e[k].0
                    &&& e2 == inserted_after(e, e[k].2)
                }
            } else {
                &&& r is Nil
                &&& e2 == Map::<Seq<char>, SlotView>::empty()
            }
        },
        CommandView::Ping => r is String && r->String_0@ == "PONG"@ && e2 == e && n2 == n,
        CommandView::Info => r is String && r->String_0@ == info_text() && e2 == e && n2 == n,
    }
}

/// Runs `cmd` on `storage` at time `now` (milliseconds); a `SET`'s ttl is in seconds.
pub fn execute_command_at(cmd: RedisCommand, storage: &mut Storage, now: u64) -> (r: RedisValue)
    requires
        old(storage).wf(),
    ensures
        final(storage).wf(),
        executed(cmd@, old(storage).entries(), old(storage).next(), now, r, final(storage).entries(),
            final(storage).next()),
{
    match cmd {
        RedisCommand::Get { key } => {
            match storage.get_at(key.as_str(), now) {
                Ok(value) => RedisValue::Bytes(value),
                Err(_) => RedisValue::Nil,
            }
        },
        RedisCommand::SetKey { key, value, ttl } => {
            if storage.is_full() {
                return RedisValue::Error(String::from_str("Set error: no insertion numbers left"));
            }
            let ttl_ms: Option<u64> = match ttl {
                Some(t) => Some(if t > u64::MAX / 1000 { u64::MAX } else { t * 1000 }),
                None => None,
            };
            let _ = storage.set_at(key, value, ttl_ms, now);
            RedisValue::String(String::from_str("OK"))
        },
        RedisCommand::Delete { key } => {
            match storage.delete(key.as_str()) {
                Ok(()) => RedisValue::Integer(1),
                Err(_) => RedisValue::Integer(0),
            }
        },
        RedisCommand::Keys { pattern } => {
            let keys = storage.keys_at(pattern.as_str(), now);
            let mut items: Vec<RedisValue> = Vec::new();
            let mut i: usize = 0;
            while i < keys.len()
                invariant
                    i <= keys@.len(),
                    items@.len() == i,
                    forall|j: int| 0 <= j < i ==> #[trigger] items@[j] is String && items@[j]->String_0 == keys@[j],
                decreases keys.len() - i,
            {
                items.push(RedisValue::String(keys[i].clone()));
                i = i + 1;
            }
            assert(texts(items@) =~= keys@);
            RedisValue::Array(items)
        },
        RedisCommand::Pop => {
            match storage.pop_fifo_at(now) {
                Ok((key, value)) => {
                    let mut pair: Vec<RedisValue> = Vec::new();
                    pair.push(RedisValue::String(key));
                    pair.push(RedisValue::Bytes(value));
                    RedisValue::Array(pair)
                },
                Err(_) => RedisValue::Nil,
            }
        },
        RedisCommand::Ping => RedisValue::String(String::from_str("PONG")),
        RedisCommand::Info => RedisValue::String(String::from_str("# Rudis\r\nversion:0.1.0\r\nrust_version:1.68.0\r\n")),
    }
}

/// Runs `cmd` on `storage` now, by the store's own clock.
pub fn execute_command(cmd: RedisCommand, storage: &mut Storage) -> (r: RedisValue)
    requires
        old(storage).wf(),
    ensures
        final(storage).wf(),
        exists|now: u64| #[trigger] executed(cmd@, old(storage).entries(), old(storage).next(), now, r,
            final(storage).entries(), final(storage).next()),
{
    let now = storage.now();
    execute_command_at(cmd, storage, now)
}

/// The error frame that answers a malformed request.
pub open spec fn error_frame(e: ProtocolError) -> Seq<u8> {
    seq![45u8] + encode_utf8("Error: "@) + encode_utf8(protocol_error_text(e)) + crlf()
}

/// One step of a connection at time `now`, after `buffer` has grown: while
/// the frame at its front is incomplete, no answer and the buffer stays;
/// otherwise the frame's bytes leave the buffer (all of them, if it is
/// malformed) and the answer is the encoded result of its command, or an
/// error frame.
pub fn respond_at(buffer: &mut Vec<u8>, storage: &mut Storage, now: u64) -> (r: Option<Vec<u8>>)
    requires
        old(storage).wf(),
    ensures
        final(storage).wf(),
        parse_spec(old(buffer)@) == Ok::<Option<CommandView>, ProtocolError>(None) ==> r is None
            && final(buffer)@ == old(buffer)@
            && final(storage).entries() == old(storage).entries() && final(storage).next() == old(storage).next(),
        parse_spec(old(buffer)@) is Err ==> final(buffer)@ == old(buffer)@.subrange(consumed(old(buffer)@), old(buffer)@.len() as int) && r is Some
            && (r->0)@ == error_frame(parse_spec(old(buffer)@)->Err_0)
            && final(storage).entries() == old(storage).entries() && final(storage).next() == old(storage).next(),
        parse_spec(old(buffer)@) is Ok && parse_spec(old(buffer)@)->Ok_0 is Some ==> final(buffer)@ == old(buffer)@.subrange(consumed(old(buffer)@), old(buffer)@.len() as int)
            && r is Some && exists|v: RedisValue| #[trigger] executed(parse_spec(old(buffer)@)->Ok_0->0, old(storage).entries(),
                old(storage).next(), now, v, final(storage).entries(), final(storage).next()) && (r->0)@ == encode_value(v),
{
    match parse_command(buffer) {
        Ok(Some(cmd)) => {
            let value = execute_command_at(cmd, storage, now);
            let ghost v = value;
            let out = serialize_response(value);
            assert(executed(parse_spec(old(buffer)@)->Ok_0->0, old(storage).entries(), old(storage).next(), now, v,
                storage.entries(), storage.next()));
            Some(out)
        },
        Ok(None) => None,
        Err(e) => {
            let mut out: Vec<u8> = Vec::new();
            out.push(45u8);
            push_all(&mut out, "Error: ".as_bytes());
            let msg = e.message();
            push_all(&mut out, msg.as_str().as_bytes());
            push_crlf(&mut out);
            assert(out@ =~= error_frame(e));
            Some(out)
        },
    }
}

/// One step of a connection now, by the store's own clock; see `respond_at`.
pub fn respond(buffer: &mut Vec<u8>, storage: &mut Storage) -> (r: Option<Vec<u8>>)
    requires
        old(storage).wf(),
    ensures
        final(storage).wf(),
        parse_spec(old(buffer)@) == Ok::<Option<CommandView>, ProtocolError>(None) ==> r is None
            && final(buffer)@ == old(buffer)@
            && final(storage).entries() == old(storage).entries() && final(storage).next() == old(storage).next(),
        parse_spec(old(buffer)@) is Err ==> final(buffer)@ == old(buffer)@.subrange(consumed(old(buffer)@), old(buffer)@.len() as int) && r is Some
            && (r->0)@ == error_frame(parse_spec(old(buffer)@)->Err_0)
            && final(storage).entries() == old(storage).entries() && final(storage).next() == old(storage).next(),
        parse_spec(old(buffer)@) is Ok && parse_spec(old(buffer)@)->Ok_0 is Some ==> final(buffer)@ == old(buffer)@.subrange(consumed(old(buffer)@), old(buffer)@.len() as int)
            && r is Some && exists|now: u64, v: RedisValue| #[trigger] executed(parse_spec(old(buffer)@)->Ok_0->0,
                old(storage).entries(), old(storage).next(), now, v, final(storage).entries(), final(storage).next())
                && (r->0)@ == encode_value(v),
{
    let now = storage.now();
    respond_at(buffer, storage, now)
}

} // verus!
