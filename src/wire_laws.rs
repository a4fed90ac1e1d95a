//! The codec's round trip: a request written with the encoder as an array of
//! bulk strings decodes, as one whole frame, to the command that its words
//! name.
use vstd::prelude::*;
use vstd::utf8::valid_utf8;
use crate::protocol::{
    RedisValue, Num, Frame, parse_spec, consumed, frame_of, num_line, element, elements, command_of, encode_value,
    encode_items, decimal, crlf, next_crlf, crlf_at, all_digits, digits_value, parse_u64_spec,
};

verus! {

/// The encoding of one bulk string.
pub open spec fn bulk(w: Seq<u8>) -> Seq<u8> {
    seq![36u8] + decimal(w.len()) + crlf() + w + crlf()
}

/// The encodings of `ws`, first to last.
pub open spec fn bulks(ws: Seq<Seq<u8>>) -> Seq<u8>
    decreases ws.len(),
{
    if ws.len() == 0 { seq![] } else { bulk(ws[0]) + bulks(ws.drop_first()) }
}

/// The byte strings that an array of `Bytes` values holds.
pub open spec fn bytes_of(items: Seq<RedisValue>) -> Seq<Seq<u8>> {
    items.map_values(|v: RedisValue| v->Bytes_0@)
}

proof fn lemma_decimal_digits(n: nat)
    ensures
        decimal(n).len() > 0,
        forall|i: int| 0 <= i < decimal(n).len() ==> 48u8 <= #[trigger] decimal(n)[i] <= 57u8,
    decreases n,
{
    if n >= 10 {
        lemma_decimal_digits(n / 10);
    }
}

proof fn lemma_next_crlf_at(b: Seq<u8>, s: int, e: int)
    requires
        0 <= s <= e,
        crlf_at(b, e),
        forall|j: int| s <= j < e ==> !(#[trigger] b[j] == 13u8 && b[j + 1] == 10u8),
    ensures
        next_crlf(b, s) == e,
    decreases e - s,
{
    if s < e {
        lemma_next_crlf_at(b, s + 1, e);
    }
}

proof fn lemma_decimal_value(n: nat)
    ensures
        all_digits(decimal(n)),
        digits_value(decimal(n)) == n,
    decreases n,
{
    lemma_decimal_digits(n);
    if n >= 10 {
        lemma_decimal_value(n / 10);
        let d = decimal(n);
        assert(d.drop_last() =~= decimal(n / 10));
        assert(d.last() == (48 + n % 10) as u8);
        assert((d.last() - 48) as nat == n % 10);
        assert(digits_value(d) == digits_value(d.drop_last()) * 10 + (d.last() - 48) as nat);
        assert(n == (n / 10) * 10 + n % 10);
    } else {
        let d = decimal(n);
        assert(d.drop_last() =~= Seq::<u8>::empty());
        assert(digits_value(d.drop_last()) == 0);
        assert(digits_value(d) == digits_value(d.drop_last()) * 10 + (d.last() - 48) as nat);
    }
}

/// A line holding the decimal digits of `n` reads back as `n`.
proof fn lemma_num_line(b: Seq<u8>, i: int, n: nat)
    requires
        0 <= i,
        n <= u64::MAX,
        i + decimal(n).len() + 2 <= b.len(),
        b.subrange(i, i + decimal(n).len() + 2) == decimal(n) + crlf(),
    ensures
        num_line(b, i) == (Num::Done { value: n as u64, next: i + decimal(n).len() + 2 }),
{
    let d = decimal(n);
    let e = i + d.len();
    lemma_decimal_value(n);
    assert forall|j: int| i <= j < e implies !(#[trigger] b[j] == 13u8 && b[j + 1] == 10u8) by {
        assert(b[j] == b.subrange(i, e + 2)[j - i]);
        assert(b[j] == d[j - i]);
    }
    assert(b[e] == b.subrange(i, e + 2)[e - i]);
    assert(b[e + 1] == b.subrange(i, e + 2)[e + 1 - i]);
    assert(crlf_at(b, e));
    lemma_next_crlf_at(b, i, e);
    assert(b.subrange(i, e) =~= d);
    assert(d[0] != 43u8);
}

/// The encodings of `ws`, after any prefix `p`, read back as `ws`, ending at
/// the end of the bytes.
proof fn lemma_elements_bulks(p: Seq<u8>, ws: Seq<Seq<u8>>)
    requires
        forall|i: int| 0 <= i < ws.len() ==> (#[trigger] ws[i]).len() <= u64::MAX,
    ensures
        elements(p + bulks(ws), p.len() as int, ws.len()) == (Frame::Done {
            words: ws,
            end: (p + bulks(ws)).len() as int,
        }),
    decreases ws.len(),
{
    let b = p + bulks(ws);
    if ws.len() == 0 {
        assert(b =~= p);
        assert(ws =~= Seq::<Seq<u8>>::empty());
    } else {
        let w = ws[0];
        let rest = ws.drop_first();
        let d = decimal(w.len());
        let next_prefix = p + bulk(w);
        assert(b =~= next_prefix + bulks(rest));
        let s0 = p.len() as int;
        let q = s0 + 1 + d.len() + 2;
        let stop = q + w.len();
        assert(b[s0] == 36u8);
        assert(b.subrange(s0 + 1, s0 + 1 + d.len() + 2) =~= d + crlf());
        lemma_num_line(b, s0 + 1, w.len());
        assert(b[stop] == 13u8);
        assert(b[stop + 1] == 10u8);
        assert(b.subrange(q, stop) =~= w);
        assert(element(b, s0) == (Frame::Done { words: seq![w], end: stop + 2 }));
        assert(next_prefix.len() == stop + 2);
        assert forall|i: int| 0 <= i < rest.len() implies (#[trigger] rest[i]).len() <= u64::MAX by {
            assert(rest[i] == ws[i + 1]);
        }
        lemma_elements_bulks(next_prefix, rest);
        assert(seq![w] + rest =~= ws);
    }
}

proof fn lemma_bulks_push(ws: Seq<Seq<u8>>, w: Seq<u8>)
    ensures
        bulks(ws.push(w)) == bulks(ws) + bulk(w),
    decreases ws.len(),
{
    if ws.len() == 0 {
        assert(ws.push(w).drop_first() =~= ws);
        assert(bulks(ws.push(w)) =~= bulks(ws) + bulk(w));
    } else {
        lemma_bulks_push(ws.drop_first(), w);
        assert(ws.push(w).drop_first() =~= ws.drop_first().push(w));
        assert(bulks(ws.push(w)) =~= bulks(ws) + bulk(w));
    }
}

proof fn lemma_encode_bulks(items: Seq<RedisValue>)
    requires
        forall|i: int| 0 <= i < items.len() ==> #[trigger] items[i] is Bytes,
    ensures
        encode_items(items) == bulks(bytes_of(items)),
    decreases items.len(),
{
    if items.len() == 0 {
        assert(bytes_of(items) =~= Seq::<Seq<u8>>::empty());
    } else {
        let init = items.drop_last();
        assert forall|i: int| 0 <= i < init.len() implies #[trigger] init[i] is Bytes by {
            assert(init[i] == items[i]);
        }
        lemma_encode_bulks(init);
        assert(items[items.len() - 1] is Bytes);
        lemma_bulks_push(bytes_of(init), items.last()->Bytes_0@);
        assert(bytes_of(items) =~= bytes_of(init).push(items.last()->Bytes_0@));
        assert(encode_value(items.last()) == bulk(items.last()->Bytes_0@));
        assert(encode_items(items) == encode_items(init) + encode_value(items.last()));
    }
}

proof fn lemma_ascii_valid(s: Seq<u8>)
    requires
        forall|i: int| 0 <= i < s.len() ==> #[trigger] s[i] <= 0x7Fu8,
    ensures
        valid_utf8(s),
    decreases s.len(),
{
    if s.len() > 0 {
        let b = s[0];
        assert(b & 0x7Fu8 == b) by (bit_vector)
            requires
                b <= 0x7Fu8,
        ;
        let rest = s.subrange(1, s.len() as int);
        assert forall|i: int| 0 <= i < rest.len() implies #[trigger] rest[i] <= 0x7Fu8 by {
            assert(rest[i] == s[i + 1]);
        }
        lemma_ascii_valid(rest);
    }
}

proof fn lemma_bulks_valid(ws: Seq<Seq<u8>>)
    requires
        forall|i: int| 0 <= i < ws.len() ==> valid_utf8(#[trigger] ws[i]),
    ensures
        valid_utf8(bulks(ws)),
    decreases ws.len(),
{
    if ws.len() > 0 {
        let rest = ws.drop_first();
        assert forall|i: int| 0 <= i < rest.len() implies valid_utf8(#[trigger] rest[i]) by {
            assert(rest[i] == ws[i + 1]);
        }
        lemma_bulks_valid(rest);
        let h = seq![36u8] + decimal(ws[0].len()) + crlf();
        lemma_decimal_digits(ws[0].len());
        assert forall|i: int| 0 <= i < h.len() implies #[trigger] h[i] <= 0x7Fu8 by {
            if 1 <= i < h.len() - 2 {
                assert(h[i] == decimal(ws[0].len())[i - 1]);
            }
        }
        lemma_ascii_valid(h);
        lemma_ascii_valid(crlf());
        assert(valid_utf8(ws[0]));
        vstd::utf8::valid_utf8_concat(h, ws[0]);
        vstd::utf8::valid_utf8_concat(h + ws[0], crlf());
        vstd::utf8::valid_utf8_concat(h + ws[0] + crlf(), bulks(rest));
        assert(bulk(ws[0]) =~= h + ws[0] + crlf());
        assert(bulks(ws) =~= h + ws[0] + crlf() + bulks(rest));
    } else {
        lemma_ascii_valid(bulks(ws));
    }
}

proof fn lemma_frame_valid(n: nat, ws: Seq<Seq<u8>>)
    requires
        forall|i: int| 0 <= i < ws.len() ==> valid_utf8(#[trigger] ws[i]),
    ensures
        valid_utf8((seq![42u8] + decimal(n) + crlf()) + bulks(ws)),
{
    let hc = seq![42u8] + decimal(n) + crlf();
    lemma_decimal_digits(n);
    assert forall|i: int| 0 <= i < hc.len() implies #[trigger] hc[i] <= 0x7Fu8 by {
        if 1 <= i < hc.len() - 2 {
            assert(hc[i] == decimal(n)[i - 1]);
        }
    }
    lemma_ascii_valid(hc);
    lemma_bulks_valid(ws);
    vstd::utf8::valid_utf8_concat(hc, bulks(ws));
}

/// A request written by the encoder as an array of bulk strings, each UTF-8
/// text, is one complete frame: a parse takes all of its bytes and answers
/// the command that its words name.
pub proof fn law_array_request_round_trip(v: RedisValue)
    requires
        v is Array,
        v->Array_0@.len() <= u64::MAX,
        forall|i: int| 0 <= i < v->Array_0@.len() ==> (#[trigger] v->Array_0@[i]) is Bytes
            && v->Array_0@[i]->Bytes_0@.len() <= u64::MAX && valid_utf8(v->Array_0@[i]->Bytes_0@),
    ensures
        parse_spec(encode_value(v)) == command_of(bytes_of(v->Array_0@)),
        consumed(encode_value(v)) == encode_value(v).len(),
{
    let items = v->Array_0@;
    let ws = bytes_of(items);
    assert forall|i: int| 0 <= i < items.len() implies #[trigger] items[i] is Bytes by {}
    lemma_encode_bulks(items);
    let hc = seq![42u8] + decimal(items.len()) + crlf();
    let e = encode_value(v);
    assert(e =~= hc + bulks(ws));
    assert forall|i: int| 0 <= i < ws.len() implies (#[trigger] ws[i]).len() <= u64::MAX && valid_utf8(ws[i]) by {
        assert(items[i] is Bytes);
    }
    assert(e.subrange(1, 1 + decimal(items.len()).len() as int + 2) =~= decimal(items.len()) + crlf());
    lemma_num_line(e, 1, items.len());
    lemma_elements_bulks(hc, ws);
    assert(hc.len() == 1 + decimal(items.len()).len() + 2);
    assert(frame_of(e) == (Frame::Done { words: ws, end: e.len() as int }));
    lemma_frame_valid(items.len(), ws);
    assert(e.subrange(0, e.len() as int) =~= e);
}

} // verus!
