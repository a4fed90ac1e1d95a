//! The wire codec: request frames to commands, result values to bytes.
//!
//! A request is either an array frame (`*<n>\r\n` then `$<len>\r\n<bytes>\r\n`
//! per element) or a line of whitespace-separated words ending in `\r\n`.
//! Both become one list of words, which a single step turns into a command.
use vstd::prelude::*;
use vstd::utf8::{valid_utf8, decode_utf8, encode_utf8};

verus! {

#[derive(Debug)]
pub enum RedisCommand {
    Get { key: String },
    SetKey { key: String, value: Vec<u8>, ttl: Option<u64> },
    Delete { key: String },
    Pop,
    Ping,
    Info,
    Keys { pattern: String },
}

#[derive(Debug)]
pub enum RedisValue {
    String(String),
    Bytes(Vec<u8>),
    Integer(i64),
    Nil,
    Error(String),
    Array(Vec<RedisValue>),
}

#[derive(Debug, Clone, Copy, PartialEq, Eq, Structural)]
pub enum ProtocolError {
    InvalidFormat,
    InvalidCommand,
}

impl ProtocolError {
    /// A short description of the error.
    pub fn message(&self) -> (r: String)
        ensures
            r@ == protocol_error_text(*self),
    {
        match self {
            ProtocolError::InvalidFormat => String::from_str("invalid protocol format"),
            ProtocolError::InvalidCommand => String::from_str("invalid command"),
        }
    }
}

pub open spec fn protocol_error_text(e: ProtocolError) -> Seq<char> {
    match e {
        ProtocolError::InvalidFormat => "invalid protocol format"@,
        ProtocolError::InvalidCommand => "invalid command"@,
    }
}

/// A command as mathematical values.
pub enum CommandView {
    Get { key: Seq<char> },
    SetKey { key: Seq<char>, value: Seq<u8>, ttl: Option<u64> },
    Delete { key: Seq<char> },
    Pop,
    Ping,
    Info,
    Keys { pattern: Seq<char> },
}

impl View for RedisCommand {
    type V = CommandView;

    open spec fn view(&self) -> CommandView {
        match self {
            RedisCommand::Get { key } => CommandView::Get { key: key@ },
            RedisCommand::SetKey { key, value, ttl } => CommandView::SetKey { key: key@, value: value@, ttl: *ttl },
            RedisCommand::Delete { key } => CommandView::Delete { key: key@ },
            RedisCommand::Pop => CommandView::Pop,
            RedisCommand::Ping => CommandView::Ping,
            RedisCommand::Info => CommandView::Info,
            RedisCommand::Keys { pattern } => CommandView::Keys { pattern: pattern@ },
        }
    }
}

pub open spec fn outcome_view(r: Result<Option<RedisCommand>, ProtocolError>) -> Result<Option<CommandView>, ProtocolError> {
    match r {
        Ok(Some(c)) => Ok(Some(c@)),
        Ok(None) => Ok(None),
        Err(e) => Err(e),
    }
}

/// The byte-sequence views of a list of byte vectors.
pub open spec fn views(v: Seq<Vec<u8>>) -> Seq<Seq<u8>> {
    v.map_values(|x: Vec<u8>| x@)
}

// ---------------------------------------------------------------- framing

/// The position of the first `\r\n` at or after `i`, or -1.
pub open spec fn next_crlf(b: Seq<u8>, i: int) -> int
    decreases b.len() - i,
{
    if i < 0 || i + 1 >= b.len() {
        -1
    } else if b[i] == 13u8 && b[i + 1] == 10u8 {
        i
    } else {
        next_crlf(b, i + 1)
    }
}

pub open spec fn crlf_at(b: Seq<u8>, j: int) -> bool {
    0 <= j && j + 1 < b.len() && b[j] == 13u8 && b[j + 1] == 10u8
}

/// A decimal count read from one line.
pub enum Num {
    Done { value: u64, next: int },
    More,
    Bad,
}

/// The words of a frame (or of part of one) and where they end.
pub enum Frame {
    Done { words: Seq<Seq<u8>>, end: int },
    More,
    Bad,
}

/// The number written on the line that starts at `i`, and where the next
/// line starts; `More` until that line's `\r\n` has arrived.
pub open spec fn num_line(b: Seq<u8>, i: int) -> Num {
    let j = next_crlf(b, i);
    if j < 0 {
        Num::More
    } else {
        match parse_u64_spec(b.subrange(i, j)) {
            Some(v) => Num::Done { value: v, next: j + 2 },
            None => Num::Bad,
        }
    }
}

/// The bulk string that starts at `p`: `$<len>\r\n`, then exactly `len`
/// bytes, then `\r\n`.
pub open spec fn element(b: Seq<u8>, p: int) -> Frame {
    if p < 0 || p >= b.len() {
        Frame::More
    } else if b[p] != 36u8 {
        Frame::Bad
    } else {
        match num_line(b, p + 1) {
            Num::More => Frame::More,
            Num::Bad => Frame::Bad,
            Num::Done { value, next } => {
                let stop = next + value;
                if stop + 2 > b.len() {
                    Frame::More
                } else if b[stop] == 13u8 && b[stop + 1] == 10u8 {
                    Frame::Done { words: seq![b.subrange(next, stop)], end: stop + 2 }
                } else {
                    Frame::Bad
                }
            },
        }
    }
}

/// `ws` put before the words of `f`.
pub open spec fn prepend(ws: Seq<Seq<u8>>, f: Frame) -> Frame {
    match f {
        Frame::Done { words, end } => Frame::Done { words: ws + words, end },
        Frame::More => Frame::More,
        Frame::Bad => Frame::Bad,
    }
}

/// `k` bulk strings, one after another, from `p` on.
pub open spec fn elements(b: Seq<u8>, p: int, k: nat) -> Frame
    decreases k,
{
    if k == 0 {
        Frame::Done { words: seq![], end: p }
    } else {
        match element(b, p) {
            Frame::Done { words, end } => prepend(words, elements(b, end, (k - 1) as nat)),
            Frame::More => Frame::More,
            Frame::Bad => Frame::Bad,
        }
    }
}

/// The frame at the front of `b`: an array frame (`*<n>\r\n`, then `n` bulk
/// strings) if `b` starts with `*`, else one line of words up to the first
/// `\r\n`.
pub open spec fn frame_of(b: Seq<u8>) -> Frame {
    if b.len() == 0 {
        Frame::More
    } else if b[0] == 42u8 {
        match num_line(b, 1) {
            Num::More => Frame::More,
            Num::Bad => Frame::Bad,
            Num::Done { value, next } => elements(b, next, value as nat),
        }
    } else {
        let j = next_crlf(b, 0);
        if j < 0 {
            Frame::More
        } else {
            Frame::Done { words: words_from(b.subrange(0, j), 0, -1), end: j + 2 }
        }
    }
}

/// The length of the UTF-8 form of a Unicode White_Space character that
/// starts at `i` in `b`, or 0 if none does: U+0009 to U+000D, U+0020, U+0085,
/// U+00A0, U+1680, U+2000 to U+200A, U+2028, U+2029, U+202F, U+205F, U+3000.
pub open spec fn space_len(b: Seq<u8>, i: int) -> int {
    if i < 0 || i >= b.len() {
        0
    } else if b[i] == 32u8 || (9u8 <= b[i] && b[i] <= 13u8) {
        1
    } else if i + 1 < b.len() && b[i] == 0xC2u8 && (b[i + 1] == 0x85u8 || b[i + 1] == 0xA0u8) {
        2
    } else if i + 2 < b.len() && b[i] == 0xE1u8 && b[i + 1] == 0x9Au8 && b[i + 2] == 0x80u8 {
        3
    } else if i + 2 < b.len() && b[i] == 0xE2u8 && b[i + 1] == 0x80u8 && ((0x80u8 <= b[i + 2] && b[i + 2] <= 0x8Au8)
        || b[i + 2] == 0xA8u8 || b[i + 2] == 0xA9u8 || b[i + 2] == 0xAFu8) {
        3
    } else if i + 2 < b.len() && b[i] == 0xE2u8 && b[i + 1] == 0x81u8 && b[i + 2] == 0x9Fu8 {
        3
    } else if i + 2 < b.len() && b[i] == 0xE3u8 && b[i + 1] == 0x80u8 && b[i + 2] == 0x80u8 {
        3
    } else {
        0
    }
}

/// The whitespace-separated words of `b` from `i` on; `st` is where the word
/// being read began, or -1 between words.
pub open spec fn words_from(b: Seq<u8>, i: int, st: int) -> Seq<Seq<u8>>
    decreases b.len() - i,
{
    if i < 0 || i >= b.len() {
        if 0 <= st { seq![b.subrange(st, b.len() as int)] } else { seq![] }
    } else if space_len(b, i) > 0 {
        if 0 <= st {
            seq![b.subrange(st, i)] + words_from(b, i + space_len(b, i), -1)
        } else {
            words_from(b, i + space_len(b, i), -1)
        }
    } else {
        words_from(b, i + 1, if 0 <= st { st } else { i })
    }
}

// ---------------------------------------------------------------- words

/// What `str::to_uppercase` makes of the characters `s`.
pub uninterp spec fn upper_of(s: Seq<char>) -> Seq<char>;

/// The UTF-8 bytes of the upper-case form of the text that `t` encodes, if
/// `t` is UTF-8.
pub open spec fn upper_bytes(t: Seq<u8>) -> Option<Seq<u8>> {
    match text_of(t) {
        Some(c) => Some(encode_utf8(upper_of(c))),
        None => None,
    }
}

/// `t` is the word `w` (given in upper case), in any case.
pub open spec fn is_word(t: Seq<u8>, w: Seq<u8>) -> bool {
    upper_bytes(t) == Some(w)
}

#[derive(Debug, Clone, Copy, PartialEq, Eq, Structural)]
pub enum Verb {
    Get,
    SetKey,
    Del,
    Keys,
    Pop,
    Ping,
    Info,
    Other,
}

pub open spec fn word_get() -> Seq<u8> { seq![71u8, 69u8, 84u8] }
pub open spec fn word_set() -> Seq<u8> { seq![83u8, 69u8, 84u8] }
pub open spec fn word_del() -> Seq<u8> { seq![68u8, 69u8, 76u8] }
pub open spec fn word_keys() -> Seq<u8> { seq![75u8, 69u8, 89u8, 83u8] }
pub open spec fn word_pop() -> Seq<u8> { seq![80u8, 79u8, 80u8] }
pub open spec fn word_ping() -> Seq<u8> { seq![80u8, 73u8, 78u8, 71u8] }
pub open spec fn word_info() -> Seq<u8> { seq![73u8, 78u8, 70u8, 79u8] }
pub open spec fn word_ex() -> Seq<u8> { seq![69u8, 88u8] }

/// Which command word the upper-cased word `u` is.
pub open spec fn verb_from_upper(u: Seq<u8>) -> Verb {
    if u == word_get() { Verb::Get }
    else if u == word_set() { Verb::SetKey }
    else if u == word_del() { Verb::Del }
    else if u == word_keys() { Verb::Keys }
    else if u == word_pop() { Verb::Pop }
    else if u == word_ping() { Verb::Ping }
    else if u == word_info() { Verb::Info }
    else { Verb::Other }
}

/// Which command word `t` is: the verb its upper-case form names.
pub open spec fn verb_of(t: Seq<u8>) -> Verb {
    match upper_bytes(t) {
        Some(u) => verb_from_upper(u),
        None => Verb::Other,
    }
}

/// The text that the bytes `t` encode, if they are UTF-8.
pub open spec fn text_of(t: Seq<u8>) -> Option<Seq<char>> {
    if valid_utf8(t) { Some(decode_utf8(t)) } else { None }
}

pub open spec fn all_digits(s: Seq<u8>) -> bool {
    forall|i: int| 0 <= i < s.len() ==> 48u8 <= #[trigger] s[i] && s[i] <= 57u8
}

/// The number that the decimal digits `s` write.
pub open spec fn digits_value(s: Seq<u8>) -> nat
    decreases s.len(),
{
    if s.len() == 0 {
        0
    } else {
        digits_value(s.drop_last()) * 10 + (s.last() - 48) as nat
    }
}

/// `t` read as an unsigned 64-bit decimal: an optional `+`, then at least one digit.
pub open spec fn parse_u64_spec(t: Seq<u8>) -> Option<u64> {
    let d = if t.len() > 0 && t[0] == 43u8 { t.subrange(1, t.len() as int) } else { t };
    if d.len() > 0 && all_digits(d) && digits_value(d) <= u64::MAX {
        Some(digits_value(d) as u64)
    } else {
        None
    }
}

/// The command that a list of words names.
pub open spec fn command_of(p: Seq<Seq<u8>>) -> Result<Option<CommandView>, ProtocolError> {
    if p.len() == 0 {
        Err(ProtocolError::InvalidFormat)
    } else {
        match verb_of(p[0]) {
            Verb::Get => if p.len() < 2 { Err(ProtocolError::InvalidFormat) } else {
                match text_of(p[1]) {
                    Some(k) => Ok(Some(CommandView::Get { key: k })),
                    None => Err(ProtocolError::InvalidFormat),
                }
            },
            Verb::Del => if p.len() < 2 { Err(ProtocolError::InvalidFormat) } else {
                match text_of(p[1]) {
                    Some(k) => Ok(Some(CommandView::Delete { key: k })),
                    None => Err(ProtocolError::InvalidFormat),
                }
            },
            Verb::Keys => if p.len() < 2 { Err(ProtocolError::InvalidFormat) } else {
                match text_of(p[1]) {
                    Some(k) => Ok(Some(CommandView::Keys { pattern: k })),
                    None => Err(ProtocolError::InvalidFormat),
                }
            },
            Verb::SetKey => if p.len() < 3 { Err(ProtocolError::InvalidFormat) } else {
                match text_of(p[1]) {
                    Some(k) => Ok(Some(CommandView::SetKey {
                        key: k,
                        value: p[2],
                        ttl: if p.len() > 4 && is_word(p[3], word_ex()) { parse_u64_spec(p[4]) } else { None },
                    })),
                    None => Err(ProtocolError::InvalidFormat),
                }
            },
            Verb::Pop => Ok(Some(CommandView::Pop)),
            Verb::Ping => Ok(Some(CommandView::Ping)),
            Verb::Info => Ok(Some(CommandView::Info)),
            Verb::Other => Err(ProtocolError::InvalidCommand),
        }
    }
}

/// What the front of a buffer holds: nothing yet while its frame is
/// incomplete; `InvalidFormat` for a malformed frame or one that is not UTF-8
/// text; else the command that the frame's words name.
pub open spec fn parse_spec(b: Seq<u8>) -> Result<Option<CommandView>, ProtocolError> {
    match frame_of(b) {
        Frame::More => Ok(None),
        Frame::Bad => Err(ProtocolError::InvalidFormat),
        Frame::Done { words, end } => if !valid_utf8(b.subrange(0, end)) {
            Err(ProtocolError::InvalidFormat)
        } else {
            command_of(words)
        },
    }
}

/// How many bytes a parse of `b` takes: none while the frame is incomplete,
/// the frame once it is complete, and all of a buffer that is malformed.
pub open spec fn consumed(b: Seq<u8>) -> int {
    match frame_of(b) {
        Frame::More => 0,
        Frame::Bad => b.len() as int,
        Frame::Done { words, end } => end,
    }
}

/// Relies on String::from_utf8: it succeeds exactly on UTF-8 bytes, and the
/// string holds the characters they encode.
#[verifier::external_body]
fn decode_text(b: Vec<u8>) -> (r: Option<String>)
    ensures
        r is Some <==> valid_utf8(b@),
        r is Some ==> (r->0)@ == decode_utf8(b@),
{
    String::from_utf8(b).ok()
}

/// The bytes of `b` from `lo` up to `hi`.
fn copy_range(b: &[u8], lo: usize, hi: usize) -> (r: Vec<u8>)
    requires
        lo <= hi <= b@.len(),
    ensures
        r@ == b@.subrange(lo as int, hi as int),
{
    let mut r: Vec<u8> = Vec::new();
    let mut i: usize = lo;
    while i < hi
        invariant
            lo <= i <= hi <= b@.len(),
            r@ == b@.subrange(lo as int, i as int),
        decreases hi - i,
    {
        r.push(b[i]);
        assert(r@ =~= b@.subrange(lo as int, i + 1));
        i = i + 1;
    }
    r
}

/// The position of the first `\r\n` at or after `start`.
fn find_crlf(b: &[u8], start: usize) -> (r: Option<usize>)
    ensures
        r is None ==> next_crlf(b@, start as int) == -1,
        r is Some ==> next_crlf(b@, start as int) == r->0 && crlf_at(b@, r->0 as int) && start <= r->0,
{
    let n = b.len();
    if n < 2 {
        return None;
    }
    let mut i: usize = start;
    while i < n - 1
        invariant
            n == b@.len(),
            n >= 2,
            start <= i,
            next_crlf(b@, start as int) == next_crlf(b@, i as int),
        decreases n - i,
    {
        if b[i] == 13u8 && b[i + 1] == 10u8 {
            return Some(i);
        }
        i = i + 1;
    }
    None
}

enum NumRead {
    Done(u64, usize),
    More,
    Bad,
}

enum FrameRead {
    Done(Vec<Vec<u8>>, usize),
    More,
    Bad,
}

enum ElementRead {
    Done(Vec<u8>, usize),
    More,
    Bad,
}

spec fn num_view(r: NumRead) -> Num {
    match r {
        NumRead::Done(v, n) => Num::Done { value: v, next: n as int },
        NumRead::More => Num::More,
        NumRead::Bad => Num::Bad,
    }
}

spec fn element_view(r: ElementRead) -> Frame {
    match r {
        ElementRead::Done(w, e) => Frame::Done { words: seq![w@], end: e as int },
        ElementRead::More => Frame::More,
        ElementRead::Bad => Frame::Bad,
    }
}

spec fn frame_view(r: FrameRead) -> Frame {
    match r {
        FrameRead::Done(ws, e) => Frame::Done { words: views(ws@), end: e as int },
        FrameRead::More => Frame::More,
        FrameRead::Bad => Frame::Bad,
    }
}

/// The number on the line that starts at `i`.
fn read_num(b: &[u8], i: usize) -> (r: NumRead)
    ensures
        num_view(r) == num_line(b@, i as int),
        r matches NumRead::Done(_, n) ==> i < n <= b@.len(),
{
    let n = b.len();
    match find_crlf(b, i) {
        None => NumRead::More,
        Some(j) => {
            assert(j + 2 <= n);
            let digits = copy_range(b, i, j);
            match parse_u64(digits.as_slice()) {
                Some(v) => NumRead::Done(v, j + 2),
                None => NumRead::Bad,
            }
        },
    }
}

/// The bulk string that starts at `p`.
fn read_element(b: &[u8], p: usize) -> (r: ElementRead)
    ensures
        element_view(r) == element(b@, p as int),
        r matches ElementRead::Done(_, e) ==> p < e <= b@.len(),
{
    let n = b.len();
    if p >= n {
        return ElementRead::More;
    }
    if b[p] != 36u8 {
        return ElementRead::Bad;
    }
    match read_num(b, p + 1) {
        NumRead::More => ElementRead::More,
        NumRead::Bad => ElementRead::Bad,
        NumRead::Done(len, next) => {
            let room: usize = n - next;
            if len > room as u64 || room - (len as usize) < 2 {
                return ElementRead::More;
            }
            let stop: usize = next + len as usize;
            if b[stop] == 13u8 && b[stop + 1] == 10u8 {
                ElementRead::Done(copy_range(b, next, stop), stop + 2)
            } else {
                ElementRead::Bad
            }
        },
    }
}

proof fn lemma_prepend_twice(a: Seq<Seq<u8>>, c: Seq<Seq<u8>>, f: Frame)
    ensures
        prepend(a, prepend(c, f)) == prepend(a + c, f),
{
    match f {
        Frame::Done { words, end } => {
            assert(a + (c + words) =~= (a + c) + words);
        },
        _ => {},
    }
}

/// `count` bulk strings from `p` on.
fn read_elements(b: &[u8], p: usize, count: u64) -> (r: FrameRead)
    requires
        p <= b@.len(),
    ensures
        frame_view(r) == elements(b@, p as int, count as nat),
        r matches FrameRead::Done(_, e) ==> e <= b@.len(),
{
    let mut words: Vec<Vec<u8>> = Vec::new();
    let mut pos: usize = p;
    let mut k: u64 = 0;
    assert(views(words@) =~= Seq::<Seq<u8>>::empty());
    assert(prepend(Seq::<Seq<u8>>::empty(), elements(b@, p as int, count as nat)) =~= elements(b@, p as int, count as nat)) by {
        match elements(b@, p as int, count as nat) {
            Frame::Done { words, end } => {
                assert(Seq::<Seq<u8>>::empty() + words =~= words);
            },
            _ => {},
        }
    }
    while k < count
        invariant
            pos <= b@.len(),
            k <= count,
            prepend(views(words@), elements(b@, pos as int, (count - k) as nat)) == elements(b@, p as int, count as nat),
        decreases count - k,
    {
        let ghost before = views(words@);
        let ghost m = (count - k) as nat;
        match read_element(b, pos) {
            ElementRead::More => {
                return FrameRead::More;
            },
            ElementRead::Bad => {
                return FrameRead::Bad;
            },
            ElementRead::Done(w, e) => {
                proof {
                    lemma_prepend_twice(before, seq![w@], elements(b@, e as int, (m - 1) as nat));
                }
                words.push(w);
                assert(views(words@) =~= before + seq![w@]);
                pos = e;
                k = k + 1;
            },
        }
    }
    assert(prepend(views(words@), Frame::Done { words: seq![], end: pos as int })
        == Frame::Done { words: views(words@), end: pos as int }) by {
        assert(views(words@) + Seq::<Seq<u8>>::empty() =~= views(words@));
    }
    FrameRead::Done(words, pos)
}

/// The length of the White_Space character that starts at `i` in `b`, or 0.
fn space_at(b: &[u8], i: usize) -> (r: usize)
    requires
        i < b@.len(),
    ensures
        r as int == space_len(b@, i as int),
        r <= 3,
{
    let n = b.len();
    let c = b[i];
    if c == 32u8 || (9u8 <= c && c <= 13u8) {
        1
    } else if n - i > 1 && c == 0xC2u8 && (b[i + 1] == 0x85u8 || b[i + 1] == 0xA0u8) {
        2
    } else if n - i > 2 && c == 0xE1u8 && b[i + 1] == 0x9Au8 && b[i + 2] == 0x80u8 {
        3
    } else if n - i > 2 && c == 0xE2u8 && b[i + 1] == 0x80u8 && ((0x80u8 <= b[i + 2] && b[i + 2] <= 0x8Au8)
        || b[i + 2] == 0xA8u8 || b[i + 2] == 0xA9u8 || b[i + 2] == 0xAFu8) {
        3
    } else if n - i > 2 && c == 0xE2u8 && b[i + 1] == 0x81u8 && b[i + 2] == 0x9Fu8 {
        3
    } else if n - i > 2 && c == 0xE3u8 && b[i + 1] == 0x80u8 && b[i + 2] == 0x80u8 {
        3
    } else {
        0
    }
}

/// The whitespace-separated words of `b`.
fn split_words(b: &[u8]) -> (r: Vec<Vec<u8>>)
    ensures
        views(r@) == words_from(b@, 0, -1),
{
    let mut out: Vec<Vec<u8>> = Vec::new();
    let mut i: usize = 0;
    let mut in_word: bool = false;
    let mut st: usize = 0;
    while i < b.len()
        invariant
            i <= b@.len(),
            in_word ==> st <= i,
            views(out@) + words_from(b@, i as int, if in_word { st as int } else { -1 }) == words_from(b@, 0, -1),
        decreases b.len() - i,
    {
        let ghost prev = out@;
        let sp = space_at(b, i);
        if sp > 0 {
            if in_word {
                out.push(copy_range(b, st, i));
                assert(views(out@) + words_from(b@, i + sp, -1) =~= views(prev) + words_from(b@, i as int, st as int));
            }
            in_word = false;
            i = i + sp;
        } else {
            if !in_word {
                in_word = true;
                st = i;
            }
            i = i + 1;
        }
    }
    if in_word {
        let ghost prev = out@;
        out.push(copy_range(b, st, b.len()));
        assert(views(out@) =~= views(prev) + words_from(b@, i as int, st as int));
    } else {
        assert(views(out@) =~= views(out@) + words_from(b@, i as int, -1));
    }
    out
}

/// Relies on str::to_uppercase: the upper-case form depends on the characters alone.
#[verifier::external_body]
fn upper_text(s: &str) -> (r: String)
    ensures
        r@ == upper_of(s@),
{
    s.to_uppercase()
}

/// Whether `a` and `b` hold the same bytes.
fn bytes_eq(a: &[u8], b: &[u8]) -> (r: bool)
    ensures
        r == (a@ == b@),
{
    if a.len() != b.len() {
        return false;
    }
    let mut i: usize = 0;
    while i < a.len()
        invariant
            a@.len() == b@.len(),
            i <= a@.len(),
            forall|j: int| 0 <= j < i ==> a@[j] == b@[j],
        decreases a.len() - i,
    {
        if a[i] != b[i] {
            assert(a@[i as int] != b@[i as int]);
            return false;
        }
        i = i + 1;
    }
    assert(a@ =~= b@);
    true
}

/// The UTF-8 bytes of the upper-case form of word `t`, if it is UTF-8.
fn upper_word(t: &[u8]) -> (r: Option<Vec<u8>>)
    ensures
        r is None ==> upper_bytes(t@) is None,
        r is Some ==> upper_bytes(t@) == Some((r->0)@),
{
    match decode_text(copy_range(t, 0, t.len())) {
        Some(s) => {
            assert(t@.subrange(0, t@.len() as int) =~= t@);
            let u = upper_text(s.as_str());
            let ub = u.as_str().as_bytes();
            Some(copy_range(ub, 0, ub.len()))
        },
        None => {
            assert(t@.subrange(0, t@.len() as int) =~= t@);
            None
        },
    }
}

/// Whether the upper-cased word `u` is `w`.
fn is_upper(u: &Option<Vec<u8>>, w: &[u8]) -> (r: bool)
    ensures
        r == (u is Some && (u->0)@ == w@),
{
    match u {
        Some(v) => bytes_eq(v.as_slice(), w),
        None => false,
    }
}

/// Which command word an upper-cased word `u` (as UTF-8 bytes) is.
pub fn verb_of_upper(u: &[u8]) -> (r: Verb)
    ensures
        r == verb_from_upper(u@),
{
    let get: [u8; 3] = [71u8, 69u8, 84u8];
    let set: [u8; 3] = [83u8, 69u8, 84u8];
    let del: [u8; 3] = [68u8, 69u8, 76u8];
    let keys: [u8; 4] = [75u8, 69u8, 89u8, 83u8];
    let pop: [u8; 3] = [80u8, 79u8, 80u8];
    let ping: [u8; 4] = [80u8, 73u8, 78u8, 71u8];
    let info: [u8; 4] = [73u8, 78u8, 70u8, 79u8];
    assert(get@ =~= word_get());
    assert(set@ =~= word_set());
    assert(del@ =~= word_del());
    assert(keys@ =~= word_keys());
    assert(pop@ =~= word_pop());
    assert(ping@ =~= word_ping());
    assert(info@ =~= word_info());
    if bytes_eq(u, &get) { Verb::Get }
    else if bytes_eq(u, &set) { Verb::SetKey }
    else if bytes_eq(u, &del) { Verb::Del }
    else if bytes_eq(u, &keys) { Verb::Keys }
    else if bytes_eq(u, &pop) { Verb::Pop }
    else if bytes_eq(u, &ping) { Verb::Ping }
    else if bytes_eq(u, &info) { Verb::Info }
    else { Verb::Other }
}

/// Which command word `t` is, by its upper-case form.
fn verb(t: &[u8]) -> (r: Verb)
    ensures
        r == verb_of(t@),
{
    match upper_word(t) {
        Some(u) => verb_of_upper(u.as_slice()),
        None => Verb::Other,
    }
}

proof fn lemma_prefix_value(d: Seq<u8>, i: int)
    requires
        0 <= i <= d.len(),
    ensures
        digits_value(d.subrange(0, i)) <= digits_value(d),
    decreases d.len(),
{
    if i < d.len() {
        lemma_prefix_value(d.drop_last(), i);
        assert(d.drop_last().subrange(0, i) =~= d.subrange(0, i));
    } else {
        assert(d.subrange(0, i) =~= d);
    }
}

/// `t` read as an unsigned 64-bit decimal.
pub fn parse_u64(t: &[u8]) -> (r: Option<u64>)
    ensures
        r == parse_u64_spec(t@),
{
    let start: usize = if t.len() > 0 && t[0] == 43u8 { 1 } else { 0 };
    let ghost d = if t@.len() > 0 && t@[0] == 43u8 { t@.subrange(1, t@.len() as int) } else { t@ };
    assert(d =~= t@.subrange(start as int, t@.len() as int));
    if start >= t.len() {
        assert(d.len() == 0);
        return None;
    }
    let mut acc: u64 = 0;
    let mut i: usize = start;
    while i < t.len()
        invariant
            start <= i <= t@.len(),
            d == t@.subrange(start as int, t@.len() as int),
            d == if t@.len() > 0 && t@[0] == 43u8 { t@.subrange(1, t@.len() as int) } else { t@ },
            all_digits(d.subrange(0, i - start)),
            acc as nat == digits_value(d.subrange(0, i - start)),
        decreases t.len() - i,
    {
        let c = t[i];
        if c < 48u8 || c > 57u8 {
            assert(d[i - start] == c);
            return None;
        }
        let ghost pre = d.subrange(0, i - start);
        let ghost next = d.subrange(0, i - start + 1);
        assert(next.drop_last() =~= pre);
        assert(next.last() == c);
        assert(all_digits(next));
        proof {
            lemma_prefix_value(d, i - start + 1);
        }
        let dig: u64 = (c - 48u8) as u64;
        assert(digits_value(next) == acc * 10 + dig);
        match acc.checked_mul(10) {
            None => {
                assert(digits_value(next) > u64::MAX) by (nonlinear_arith)
                    requires digits_value(next) == acc * 10 + dig, acc * 10 > u64::MAX;
                return None;
            },
            Some(m) => match m.checked_add(dig) {
                None => {
                    assert(digits_value(next) > u64::MAX);
                    return None;
                },
                Some(v) => {
                    acc = v;
                },
            },
        }
        i = i + 1;
    }
    assert(d.subrange(0, i - start) =~= d);
    Some(acc)
}

/// The text of word `t`, or `InvalidFormat` if it is not UTF-8.
fn word_text(t: &Vec<u8>) -> (r: Result<String, ProtocolError>)
    ensures
        r is Ok <==> text_of(t@) is Some,
        r is Ok ==> text_of(t@) == Some((r->Ok_0)@),
        r is Err ==> r == Err::<String, ProtocolError>(ProtocolError::InvalidFormat),
{
    match decode_text(t.clone()) {
        Some(s) => Ok(s),
        None => Err(ProtocolError::InvalidFormat),
    }
}

/// The command that the list of words `parts` names.
pub fn command_from_parts(parts: &Vec<Vec<u8>>) -> (r: Result<Option<RedisCommand>, ProtocolError>)
    ensures
        outcome_view(r) == command_of(views(parts@)),
{
    let ghost p = views(parts@);
    if parts.len() == 0 {
        return Err(ProtocolError::InvalidFormat);
    }
    assert(p[0] == parts@[0]@);
    let v = verb(parts[0].as_slice());
    match v {
        Verb::Get | Verb::Del | Verb::Keys => {
            if parts.len() < 2 {
                return Err(ProtocolError::InvalidFormat);
            }
            assert(p[1] == parts@[1]@);
            let text = match word_text(&parts[1]) {
                Ok(t) => t,
                Err(e) => { return Err(e); },
            };
            match v {
                Verb::Get => Ok(Some(RedisCommand::Get { key: text })),
                Verb::Del => Ok(Some(RedisCommand::Delete { key: text })),
                _ => Ok(Some(RedisCommand::Keys { pattern: text })),
            }
        },
        Verb::SetKey => {
            if parts.len() < 3 {
                return Err(ProtocolError::InvalidFormat);
            }
            assert(p[1] == parts@[1]@);
            assert(p[2] == parts@[2]@);
            let key = match word_text(&parts[1]) {
                Ok(t) => t,
                Err(e) => { return Err(e); },
            };
            let ex: [u8; 2] = [69u8, 88u8];
            assert(ex@ =~= word_ex());
            let ttl = if parts.len() > 4 && is_upper(&upper_word(parts[3].as_slice()), &ex) {
                assert(p[3] == parts@[3]@);
                assert(p[4] == parts@[4]@);
                parse_u64(parts[4].as_slice())
            } else {
                proof {
                    if parts@.len() > 4 {
                        assert(p[3] == parts@[3]@);
                    }
                }
                None
            };
            Ok(Some(RedisCommand::SetKey { key, value: parts[2].clone(), ttl }))
        },
        Verb::Pop => Ok(Some(RedisCommand::Pop)),
        Verb::Ping => Ok(Some(RedisCommand::Ping)),
        Verb::Info => Ok(Some(RedisCommand::Info)),
        Verb::Other => Err(ProtocolError::InvalidCommand),
    }
}

/// The frame at the front of `b`.
fn read_frame(b: &[u8]) -> (r: FrameRead)
    ensures
        frame_view(r) == frame_of(b@),
        r matches FrameRead::Done(_, e) ==> e <= b@.len(),
{
    if b.len() == 0 {
        return FrameRead::More;
    }
    if b[0] == 42u8 {
        match read_num(b, 1) {
            NumRead::More => FrameRead::More,
            NumRead::Bad => FrameRead::Bad,
            NumRead::Done(count, next) => read_elements(b, next, count),
        }
    } else {
        match find_crlf(b, 0) {
            None => FrameRead::More,
            Some(j) => {
                let line = copy_range(b, 0, j);
                let words = split_words(line.as_slice());
                FrameRead::Done(words, j + 2)
            },
        }
    }
}

/// Reads one command from the front of `buffer`. While its frame is
/// incomplete it answers `Ok(None)` and leaves the buffer as it is; once the
/// frame is complete it answers the command (or the error) and removes the
/// frame's bytes; a malformed buffer is answered `InvalidFormat` and dropped.
pub fn parse_command(buffer: &mut Vec<u8>) -> (r: Result<Option<RedisCommand>, ProtocolError>)
    ensures
        outcome_view(r) == parse_spec(old(buffer)@),
        0 <= consumed(old(buffer)@) <= old(buffer)@.len(),
        final(buffer)@ == old(buffer)@.subrange(consumed(old(buffer)@), old(buffer)@.len() as int),
{
    let n = buffer.len();
    match read_frame(buffer.as_slice()) {
        FrameRead::More => {
            assert(buffer@.subrange(0, n as int) =~= buffer@);
            Ok(None)
        },
        FrameRead::Bad => {
            buffer.clear();
            assert(old(buffer)@.subrange(n as int, n as int) =~= Seq::<u8>::empty());
            Err(ProtocolError::InvalidFormat)
        },
        FrameRead::Done(words, end) => {
            let frame = copy_range(buffer.as_slice(), 0, end);
            let text = decode_text(frame).is_some();
            let rest = copy_range(buffer.as_slice(), end, n);
            *buffer = rest;
            if !text {
                Err(ProtocolError::InvalidFormat)
            } else {
                command_from_parts(&words)
            }
        },
    }
}

// ---------------------------------------------------------------- encoding

pub open spec fn crlf() -> Seq<u8> {
    seq![13u8, 10u8]
}

/// The decimal digits of `n`.
pub open spec fn decimal(n: nat) -> Seq<u8>
    decreases n,
{
    if n < 10 {
        seq![(48 + n) as u8]
    } else {
        decimal(n / 10) + seq![(48 + n % 10) as u8]
    }
}

/// The decimal text of `i`, with `-` before a negative number.
pub open spec fn signed_decimal(i: int) -> Seq<u8> {
    if i < 0 { seq![45u8] + decimal((-i) as nat) } else { decimal(i as nat) }
}

/// The bytes that stand for `v` on the wire.
pub open spec fn encode_value(v: RedisValue) -> Seq<u8>
    decreases v,
{
    match v {
        RedisValue::String(s) => seq![43u8] + encode_utf8(s@) + crlf(),
        RedisValue::Integer(i) => seq![58u8] + signed_decimal(i as int) + crlf(),
        RedisValue::Bytes(b) => seq![36u8] + decimal(b@.len()) + crlf() + b@ + crlf(),
        RedisValue::Nil => seq![36u8, 45u8, 49u8] + crlf(),
        RedisValue::Error(e) => seq![45u8] + encode_utf8(e@) + crlf(),
        RedisValue::Array(items) => seq![42u8] + decimal(items@.len()) + crlf() + encode_items(items@),
    }
}

/// The encodings of `items`, one after another.
pub open spec fn encode_items(items: Seq<RedisValue>) -> Seq<u8>
    decreases items,
{
    if items.len() == 0 {
        seq![]
    } else {
        encode_items(items.drop_last()) + encode_value(items.last())
    }
}

/// Appends `bytes` to `out`.
pub(crate) fn push_all(out: &mut Vec<u8>, bytes: &[u8])
    ensures
        final(out)@ == old(out)@ + bytes@,
{
    let mut i: usize = 0;
    while i < bytes.len()
        invariant
            i <= bytes@.len(),
            out@ == old(out)@ + bytes@.subrange(0, i as int),
        decreases bytes.len() - i,
    {
        out.push(bytes[i]);
        assert(out@ =~= old(out)@ + bytes@.subrange(0, i + 1));
        i = i + 1;
    }
    assert(bytes@.subrange(0, i as int) =~= bytes@);
}

/// Appends the decimal digits of `n` to `out`.
fn push_decimal(out: &mut Vec<u8>, n: u64)
    ensures
        final(out)@ == old(out)@ + decimal(n as nat),
    decreases n,
{
    if n >= 10 {
        push_decimal(out, n / 10);
    }
    out.push(48u8 + (n % 10) as u8);
    assert(out@ =~= old(out)@ + decimal(n as nat));
}

pub(crate) fn push_crlf(out: &mut Vec<u8>)
    ensures
        final(out)@ == old(out)@ + crlf(),
{
    out.push(13u8);
    out.push(10u8);
    assert(out@ =~= old(out)@ + crlf());
}

/// Appends the encoding of `v` to `out`.
fn encode_into(out: &mut Vec<u8>, v: &RedisValue)
    ensures
        final(out)@ == old(out)@ + encode_value(*v),
    decreases v,
{
    match v {
        RedisValue::String(s) => {
            out.push(43u8);
            push_all(out, s.as_str().as_bytes());
            push_crlf(out);
        },
        RedisValue::Integer(i) => {
            out.push(58u8);
            if *i < 0 {
                out.push(45u8);
                let m: u64 = (0i128 - *i as i128) as u64;
                push_decimal(out, m);
            } else {
                push_decimal(out, *i as u64);
            }
            push_crlf(out);
        },
        RedisValue::Bytes(b) => {
            out.push(36u8);
            push_decimal(out, b.len() as u64);
            push_crlf(out);
            push_all(out, b.as_slice());
            push_crlf(out);
        },
        RedisValue::Nil => {
            out.push(36u8);
            out.push(45u8);
            out.push(49u8);
            push_crlf(out);
        },
        RedisValue::Error(e) => {
            out.push(45u8);
            push_all(out, e.as_str().as_bytes());
            push_crlf(out);
        },
        RedisValue::Array(items) => {
            out.push(42u8);
            push_decimal(out, items.len() as u64);
            push_crlf(out);
            let ghost head = out@;
            let mut i: usize = 0;
            while i < items.len()
                invariant
                    *v is Array && (*v)->Array_0 == *items,
                    i <= items@.len(),
                    out@ == head + encode_items(items@.subrange(0, i as int)),
                decreases items.len() - i,
            {
                proof {
                    assert(decreases_to!(*v => (*v)->Array_0));
                    assert(decreases_to!(*items => items@[i as int]));
                    assert(decreases_to!(*v => items@[i as int]));
                }
                encode_into(out, &items[i]);
                assert(items@.subrange(0, i + 1).drop_last() =~= items@.subrange(0, i as int));
                i = i + 1;
            }
            assert(items@.subrange(0, i as int) =~= items@);
        },
    }
    assert(out@ =~= old(out)@ + encode_value(*v));
}

/// The bytes that stand for `value` on the wire.
pub fn serialize_response(value: RedisValue) -> (r: Vec<u8>)
    ensures
        r@ == encode_value(value),
{
    let mut out: Vec<u8> = Vec::new();
    encode_into(&mut out, &value);
    assert(out@ =~= encode_value(value));
    out
}

} // verus!
