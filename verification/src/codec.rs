//! The batch codec: bijective encoding between an in-memory [`Batch`] and a
//! self-delimiting binary representation suitable for concatenation inside a
//! single append-only segment file.
//!
//! Layout of one encoded batch, all integers little-endian:
//!
//! ```text
//! batch   := body_len:u32  body
//! body    := message+                      (one or more, no separators)
//! message := payload_len:u32  payload_bytes
//!            key_flag:u8                   (0 absent, 1 present)
//!            [key_len:u32  key_utf8_bytes]   (only when key_flag == 1)
//!            ts_flag:u8                    (0 absent, 1 present)
//!            [timestamp:u64]                 (only when ts_flag == 1)
//! ```
//!
//! Decoding a buffer that holds fewer bytes than one complete batch reports
//! "need more input" without consuming anything; a structurally inconsistent
//! buffer (bad flag byte, truncation inside the declared body, key bytes that
//! are not UTF-8) is malformed.

use vstd::prelude::*;

use crate::models::{Batch, Message, MessageView};
use vstd::utf8::{decode_utf8, encode_utf8, valid_utf8};

verus! {

/// Little-endian value of a four-byte sequence.
pub open spec fn le32(s: Seq<u8>) -> int
    recommends
        s.len() == 4,
{
    s[0] + 256 * s[1] + 65536 * s[2] + 16777216 * s[3]
}

/// The four little-endian bytes of a value below 2^32.
pub open spec fn u32_le_bytes(n: int) -> Seq<u8>
    recommends
        0 <= n < 0x1_0000_0000,
{
    seq![
        (n % 256) as u8,
        ((n / 256) % 256) as u8,
        ((n / 65536) % 256) as u8,
        ((n / 16777216) % 256) as u8,
    ]
}

/// Little-endian value of an eight-byte sequence.
pub open spec fn le64(s: Seq<u8>) -> int
    recommends
        s.len() == 8,
{
    s[0] + 0x100 * s[1] + 0x1_0000 * s[2] + 0x100_0000 * s[3] + 0x1_0000_0000 * s[4]
        + 0x100_0000_0000 * s[5] + 0x1_0000_0000_0000 * s[6] + 0x100_0000_0000_0000 * s[7]
}

/// The eight little-endian bytes of a value below 2^64.
pub open spec fn u64_le_bytes(n: int) -> Seq<u8>
    recommends
        0 <= n < 0x1_0000_0000_0000_0000,
{
    seq![
        (n % 256) as u8,
        ((n / 0x100) % 256) as u8,
        ((n / 0x1_0000) % 256) as u8,
        ((n / 0x100_0000) % 256) as u8,
        ((n / 0x1_0000_0000) % 256) as u8,
        ((n / 0x100_0000_0000) % 256) as u8,
        ((n / 0x1_0000_0000_0000) % 256) as u8,
        ((n / 0x100_0000_0000_0000) % 256) as u8,
    ]
}

pub proof fn lemma_u32_le_round_trip(n: int)
    requires
        0 <= n < 0x1_0000_0000,
    ensures
        le32(u32_le_bytes(n)) == n,
{
}

#[verifier::rlimit(60)]
pub proof fn lemma_u64_le_round_trip(n: int)
    requires
        0 <= n < 0x1_0000_0000_0000_0000,
    ensures
        le64(u64_le_bytes(n)) == n,
{
    let m = n as u64;
    assert(m == (m % 0x100) + 0x100 * ((m / 0x100) % 0x100) + 0x1_0000 * ((m / 0x1_0000) % 0x100)
        + 0x100_0000 * ((m / 0x100_0000) % 0x100) + 0x1_0000_0000 * ((m / 0x1_0000_0000) % 0x100)
        + 0x100_0000_0000 * ((m / 0x100_0000_0000) % 0x100) + 0x1_0000_0000_0000 * ((m
        / 0x1_0000_0000_0000) % 0x100) + 0x100_0000_0000_0000 * ((m / 0x100_0000_0000_0000)
        % 0x100)) by (bit_vector);
}

/// Encoding of the optional key: a one-byte presence flag, then, when the key
/// is present, its UTF-8 byte length and bytes.
pub open spec fn spec_encode_key(key: Option<Seq<char>>) -> Seq<u8> {
    match key {
        Option::None => seq![0u8],
        Option::Some(k) => seq![1u8] + u32_le_bytes(encode_utf8(k).len() as int) + encode_utf8(k),
    }
}

/// Encoding of the optional timestamp: a one-byte presence flag, then, when
/// present, the eight little-endian bytes of the value.
pub open spec fn spec_encode_timestamp(ts: Option<u64>) -> Seq<u8> {
    match ts {
        Option::None => seq![0u8],
        Option::Some(t) => seq![1u8] + u64_le_bytes(t as int),
    }
}

/// Encoding of one message: payload length and bytes, then key, then
/// timestamp.
pub open spec fn spec_encode_message(m: MessageView) -> Seq<u8> {
    u32_le_bytes(m.payload.len() as int) + m.payload + spec_encode_key(m.key)
        + spec_encode_timestamp(m.timestamp)
}

/// A message is encodable when its payload and its key's UTF-8 form each fit
/// a 32-bit length field.
pub open spec fn msg_valid(m: MessageView) -> bool {
    &&& m.payload.len() < 0x1_0000_0000
    &&& (m.key matches Option::Some(k) ==> encode_utf8(k).len() < 0x1_0000_0000)
}

/// Encoding of a batch body: the concatenated encodings of its messages.
pub open spec fn spec_encode_body(records: Seq<MessageView>) -> Seq<u8>
    decreases records.len(),
{
    if records.len() == 0 {
        Seq::empty()
    } else {
        spec_encode_message(records[0]) + spec_encode_body(records.drop_first())
    }
}

/// A batch is encodable when it is non-empty, every message is encodable, and
/// the whole body fits the 32-bit length prefix.
pub open spec fn batch_records_valid(records: Seq<MessageView>) -> bool {
    &&& records.len() > 0
    &&& (forall|i: int| 0 <= i < records.len() ==> msg_valid(records[i]))
    &&& spec_encode_body(records).len() < 0x1_0000_0000
}

/// Encoding of a whole batch: the body length, then the body.
pub open spec fn spec_encode_batch(records: Seq<MessageView>) -> Seq<u8> {
    u32_le_bytes(spec_encode_body(records).len() as int) + spec_encode_body(records)
}

pub proof fn lemma_encode_body_snoc(records: Seq<MessageView>, m: MessageView)
    ensures
        spec_encode_body(records.push(m)) == spec_encode_body(records) + spec_encode_message(m),
    decreases records.len(),
{
    if records.len() == 0 {
        reveal_with_fuel(spec_encode_body, 2);
        assert(records.push(m)[0] == m);
        assert(records.push(m).drop_first() =~= Seq::<MessageView>::empty());
        assert(spec_encode_body(records.push(m)) =~= spec_encode_body(records)
            + spec_encode_message(m));
    } else {
        assert(records.push(m)[0] == records[0]);
        assert(records.push(m).drop_first() =~= records.drop_first().push(m));
        lemma_encode_body_snoc(records.drop_first(), m);
        assert(spec_encode_body(records.push(m)) =~= spec_encode_body(records)
            + spec_encode_message(m));
    }
}

fn push_u32_le(out: &mut Vec<u8>, n: u32)
    ensures
        final(out)@ == old(out)@ + u32_le_bytes(n as int),
{
    out.push((n % 256) as u8);
    out.push(((n / 256) % 256) as u8);
    out.push(((n / 65536) % 256) as u8);
    out.push(((n / 16777216) % 256) as u8);
    proof {
        assert(out@ =~= old(out)@ + u32_le_bytes(n as int));
    }
}

fn push_u64_le(out: &mut Vec<u8>, n: u64)
    ensures
        final(out)@ == old(out)@ + u64_le_bytes(n as int),
{
    out.push((n % 256) as u8);
    out.push(((n / 0x100) % 256) as u8);
    out.push(((n / 0x1_0000) % 256) as u8);
    out.push(((n / 0x100_0000) % 256) as u8);
    out.push(((n / 0x1_0000_0000) % 256) as u8);
    out.push(((n / 0x100_0000_0000) % 256) as u8);
    out.push(((n / 0x1_0000_0000_0000) % 256) as u8);
    out.push(((n / 0x100_0000_0000_0000) % 256) as u8);
    proof {
        assert(out@ =~= old(out)@ + u64_le_bytes(n as int));
    }
}

fn push_byte_slice(out: &mut Vec<u8>, bytes: &[u8])
    ensures
        final(out)@ == old(out)@ + bytes@,
{
    let mut i: usize = 0;
    while i < bytes.len()
        invariant
            i <= bytes@.len(),
            out@ =~= old(out)@ + bytes@.subrange(0, i as int),
        decreases bytes@.len() - i,
    {
        out.push(bytes[i]);
        i = i + 1;
    }
    proof {
        assert(out@ =~= old(out)@ + bytes@);
    }
}

fn encode_message_into(out: &mut Vec<u8>, m: &Message)
    requires
        msg_valid(m@),
    ensures
        final(out)@ == old(out)@ + spec_encode_message(m@),
{
    push_u32_le(out, m.payload.len() as u32);
    push_byte_slice(out, m.payload.as_slice());
    match &m.key {
        Option::None => {
            out.push(0u8);
        },
        Option::Some(k) => {
            out.push(1u8);
            let kb = k.as_str().as_bytes();
            push_u32_le(out, kb.len() as u32);
            push_byte_slice(out, kb);
        },
    }
    match m.timestamp {
        Option::None => {
            out.push(0u8);
        },
        Option::Some(t) => {
            out.push(1u8);
            push_u64_le(out, t);
        },
    }
    proof {
        assert(out@ =~= old(out)@ + spec_encode_message(m@));
    }
}

/// Encode one batch into its binary form.
///
/// Deterministic: the result is a function of the batch's messages alone, so
/// encoding the same batch twice yields identical bytes.
pub fn encode_batch(b: &Batch) -> (r: Vec<u8>)
    requires
        batch_records_valid(b@),
    ensures
        r@ == spec_encode_batch(b@),
{
    let mut body: Vec<u8> = Vec::new();
    let mut i: usize = 0;
    while i < b.records.len()
        invariant
            i <= b.records@.len(),
            b@.len() == b.records@.len(),
            batch_records_valid(b@),
            body@ == spec_encode_body(b@.take(i as int)),
        decreases b.records@.len() - i,
    {
        proof {
            assert(b@.take(i as int + 1) =~= b@.take(i as int).push(b@[i as int]));
            lemma_encode_body_snoc(b@.take(i as int), b@[i as int]);
        }
        encode_message_into(&mut body, &b.records[i]);
        i = i + 1;
    }
    proof {
        assert(b@.take(b@.len() as int) =~= b@);
    }
    let mut r: Vec<u8> = Vec::new();
    push_u32_le(&mut r, body.len() as u32);
    let mut body_tail = body;
    r.append(&mut body_tail);
    r
}

/// Result of parsing one message from the front of a byte sequence: the
/// message and the number of bytes it occupies.
pub ghost struct MessageParse {
    pub msg: MessageView,
    pub len: int,
}

/// Parse the optional key starting at offset `at`: the presence flag, then,
/// when present, the length-prefixed UTF-8 bytes. Returns the key and the
/// offset just past it, or nothing on truncation, a bad flag byte, or key
/// bytes that are not UTF-8.
pub open spec fn spec_parse_key(s: Seq<u8>, at: int) -> Option<(Option<Seq<char>>, int)>
    recommends
        0 <= at,
{
    if s.len() < at + 1 {
        None
    } else if s[at] == 0u8 {
        Some((None, at + 1))
    } else if s[at] == 1u8 {
        if s.len() < at + 5 {
            None
        } else {
            let klen = le32(s.subrange(at + 1, at + 5));
            if s.len() < at + 5 + klen {
                None
            } else {
                let kb = s.subrange(at + 5, at + 5 + klen);
                if valid_utf8(kb) {
                    Some((Some(decode_utf8(kb)), at + 5 + klen))
                } else {
                    None
                }
            }
        }
    } else {
        None
    }
}

/// Parse the optional timestamp starting at offset `at`.
pub open spec fn spec_parse_timestamp(s: Seq<u8>, at: int) -> Option<(Option<u64>, int)>
    recommends
        0 <= at,
{
    if s.len() < at + 1 {
        None
    } else if s[at] == 0u8 {
        Some((None, at + 1))
    } else if s[at] == 1u8 {
        if s.len() < at + 9 {
            None
        } else {
            Some((Some(le64(s.subrange(at + 1, at + 9)) as u64), at + 9))
        }
    } else {
        None
    }
}

/// Parse one message from the front of `s`.
pub open spec fn spec_parse_message(s: Seq<u8>) -> Option<MessageParse> {
    if s.len() < 4 {
        None
    } else {
        let plen = le32(s.subrange(0, 4));
        if s.len() < 4 + plen {
            None
        } else {
            match spec_parse_key(s, 4 + plen) {
                None => None,
                Some(kp) => match spec_parse_timestamp(s, kp.1) {
                    None => None,
                    Some(tp) => Some(
                        MessageParse {
                            msg: MessageView {
                                payload: s.subrange(4, 4 + plen),
                                key: kp.0,
                                timestamp: tp.0,
                            },
                            len: tp.1,
                        },
                    ),
                },
            }
        }
    }
}

pub proof fn lemma_parse_message_len(s: Seq<u8>)
    ensures
        spec_parse_message(s) matches Some(p) ==> 6 <= p.len <= s.len(),
{
}

/// Parse a whole batch body as one or more back-to-back messages, consuming
/// it exactly.
pub open spec fn spec_parse_body(s: Seq<u8>) -> Option<Seq<MessageView>>
    decreases s.len(),
{
    if s.len() == 0 {
        Some(Seq::empty())
    } else {
        match spec_parse_message(s) {
            None => None,
            Some(p) => if 0 < p.len <= s.len() {
                match spec_parse_body(s.subrange(p.len, s.len() as int)) {
                    None => None,
                    Some(tail) => Some(seq![p.msg] + tail),
                }
            } else {
                None
            },
        }
    }
}

/// Outcome of decoding one batch from the front of a byte sequence:
/// the buffer holds fewer bytes than one complete batch; or a batch of
/// `records` occupying `len` bytes; or the framing is internally
/// inconsistent.
pub ghost enum BatchParse {
    NeedMore,
    Parsed(Seq<MessageView>, int),
    Malformed,
}

/// Decode one batch from the front of `s`: read the length prefix, then
/// parse the declared body in full as a non-empty message sequence.
pub open spec fn spec_decode_batch(s: Seq<u8>) -> BatchParse {
    if s.len() < 4 {
        BatchParse::NeedMore
    } else {
        let n = le32(s.subrange(0, 4));
        if s.len() < 4 + n {
            BatchParse::NeedMore
        } else {
            match spec_parse_body(s.subrange(4, 4 + n)) {
                Some(records) => if records.len() > 0 {
                    BatchParse::Parsed(records, 4 + n)
                } else {
                    BatchParse::Malformed
                },
                None => BatchParse::Malformed,
            }
        }
    }
}

/// Relies on `String::from_utf8`: it returns precisely the string whose
/// UTF-8 bytes are the input, and fails exactly when the input is not valid
/// UTF-8.
#[verifier::external_body]
fn string_from_utf8(bytes: Vec<u8>) -> (r: Option<String>)
    ensures
        r matches Some(s) ==> encode_utf8(s@) == bytes@,
        r is Some <==> valid_utf8(bytes@),
{
    String::from_utf8(bytes).ok()
}

fn read_u32_le(buf: &Vec<u8>, pos: usize) -> (n: u32)
    requires
        pos + 4 <= buf@.len(),
    ensures
        n as int == le32(buf@.subrange(pos as int, pos as int + 4)),
{
    let len = buf.len();
    let b0 = buf[pos] as u32;
    let b1 = buf[pos + 1] as u32;
    let b2 = buf[pos + 2] as u32;
    let b3 = buf[pos + 3] as u32;
    let n = b0 + 256 * b1 + 65536 * b2 + 16777216 * b3;
    proof {
        let s = buf@.subrange(pos as int, pos as int + 4);
        assert(s[0] == buf@[pos as int]);
        assert(s[1] == buf@[pos as int + 1]);
        assert(s[2] == buf@[pos as int + 2]);
        assert(s[3] == buf@[pos as int + 3]);
    }
    n
}

fn read_u64_le(buf: &Vec<u8>, pos: usize) -> (n: u64)
    requires
        pos + 8 <= buf@.len(),
    ensures
        n as int == le64(buf@.subrange(pos as int, pos as int + 8)),
{
    let len = buf.len();
    let b0 = buf[pos] as u64;
    let b1 = buf[pos + 1] as u64;
    let b2 = buf[pos + 2] as u64;
    let b3 = buf[pos + 3] as u64;
    let b4 = buf[pos + 4] as u64;
    let b5 = buf[pos + 5] as u64;
    let b6 = buf[pos + 6] as u64;
    let b7 = buf[pos + 7] as u64;
    let n = b0 + 0x100 * b1 + 0x1_0000 * b2 + 0x100_0000 * b3 + 0x1_0000_0000 * b4
        + 0x100_0000_0000 * b5 + 0x1_0000_0000_0000 * b6 + 0x100_0000_0000_0000 * b7;
    proof {
        let s = buf@.subrange(pos as int, pos as int + 8);
        assert(forall|i: int| 0 <= i < 8 ==> s[i] == buf@[pos as int + i]);
    }
    n
}

fn copy_range(buf: &Vec<u8>, from: usize, to: usize) -> (r: Vec<u8>)
    requires
        from <= to <= buf@.len(),
    ensures
        r@ == buf@.subrange(from as int, to as int),
{
    let mut r: Vec<u8> = Vec::new();
    let mut i: usize = from;
    while i < to
        invariant
            from <= i <= to <= buf@.len(),
            r@ =~= buf@.subrange(from as int, i as int),
        decreases to - i,
    {
        r.push(buf[i]);
        i = i + 1;
    }
    proof {
        assert(r@ =~= buf@.subrange(from as int, to as int));
    }
    r
}

/// Prefix a parsed tail with already-parsed messages.
pub open spec fn prepend_parsed(pre: Seq<MessageView>, t: Option<Seq<MessageView>>) -> Option<
    Seq<MessageView>,
> {
    match t {
        None => None,
        Some(tail) => Some(pre + tail),
    }
}

proof fn lemma_prepend_empty(t: Option<Seq<MessageView>>)
    ensures
        prepend_parsed(Seq::empty(), t) == t,
{
    match t {
        None => {},
        Some(tail) => {
            assert(Seq::<MessageView>::empty() + tail =~= tail);
        },
    }
}

/// Parse one message from `buf[start..end]`. Mirrors [`spec_parse_message`]
/// of that byte range exactly, in success and in failure.
#[verifier::rlimit(100)]
fn parse_message(buf: &Vec<u8>, start: usize, end: usize) -> (r: Option<(Message, usize)>)
    requires
        start <= end <= buf@.len(),
    ensures
        ({
            let s = buf@.subrange(start as int, end as int);
            match spec_parse_message(s) {
                None => r is None,
                Some(p) => r matches Some(q) && q.0@ == p.msg && q.1 == p.len,
            }
        }),
{
    let ghost s = buf@.subrange(start as int, end as int);
    let avail = end - start;
    if avail < 4 {
        return None;
    }
    let plen32 = read_u32_le(buf, start);
    proof {
        assert(buf@.subrange(start as int, start as int + 4) =~= s.subrange(0, 4));
    }
    if ((avail - 4) as u64) < plen32 as u64 {
        return None;
    }
    let plen = plen32 as usize;
    let payload = copy_range(buf, start + 4, start + 4 + plen);
    proof {
        assert(buf@.subrange(start as int + 4, start as int + 4 + plen as int) =~= s.subrange(
            4,
            4 + plen as int,
        ));
    }
    let at = start + 4 + plen;
    let ghost rel_at = 4 + plen as int;
    if at >= end {
        return None;
    }
    let kf = buf[at];
    proof {
        assert(s[rel_at] == buf@[at as int]);
    }
    let key: Option<String>;
    let at2: usize;
    if kf == 0 {
        key = None;
        at2 = at + 1;
    } else if kf == 1 {
        if end - at < 5 {
            return None;
        }
        let klen32 = read_u32_le(buf, at + 1);
        proof {
            assert(buf@.subrange(at as int + 1, at as int + 5) =~= s.subrange(
                rel_at + 1,
                rel_at + 5,
            ));
        }
        if ((end - at - 5) as u64) < klen32 as u64 {
            return None;
        }
        let klen = klen32 as usize;
        let kb = copy_range(buf, at + 5, at + 5 + klen);
        proof {
            assert(buf@.subrange(at as int + 5, at as int + 5 + klen as int) =~= s.subrange(
                rel_at + 5,
                rel_at + 5 + klen as int,
            ));
        }
        match string_from_utf8(kb) {
            None => {
                return None;
            },
            Some(kstr) => {
                proof {
                    vstd::utf8::encode_utf8_decode_utf8(kstr@);
                }
                key = Some(kstr);
            },
        }
        at2 = at + 5 + klen;
    } else {
        return None;
    }
    let ghost rel_at2 = at2 - start;
    if at2 >= end {
        return None;
    }
    let tf = buf[at2];
    proof {
        assert(s[rel_at2 as int] == buf@[at2 as int]);
    }
    let timestamp: Option<u64>;
    let fin: usize;
    if tf == 0 {
        timestamp = None;
        fin = at2 + 1;
    } else if tf == 1 {
        if end - at2 < 9 {
            return None;
        }
        let t = read_u64_le(buf, at2 + 1);
        proof {
            assert(buf@.subrange(at2 as int + 1, at2 as int + 9) =~= s.subrange(
                rel_at2 as int + 1,
                rel_at2 as int + 9,
            ));
        }
        timestamp = Some(t);
        fin = at2 + 9;
    } else {
        return None;
    }
    let m = Message { payload, key, timestamp };
    Some((m, fin - start))
}

/// Outcome of one decode attempt against a buffer position.
pub enum DecodeResult {
    /// The buffer holds fewer bytes than one complete batch: need more
    /// input, not corrupt input. Nothing was consumed.
    NeedMore,
    /// One complete batch, and the buffer position just past it.
    Complete(Batch, usize),
    /// The declared length or shape is internally inconsistent.
    Malformed,
}

/// Decode one batch from `buf` starting at `pos`, consuming only as many
/// bytes as that batch occupies. Mirrors [`spec_decode_batch`] of
/// `buf[pos..]` exactly: fewer bytes than one complete batch is `NeedMore`
/// (never an error), and a batch is returned with the position just past it.
#[verifier::loop_isolation(false)]
#[verifier::rlimit(60)]
pub fn decode_batch(buf: &Vec<u8>, pos: usize) -> (r: DecodeResult)
    requires
        pos <= buf@.len(),
    ensures
        ({
            let s = buf@.subrange(pos as int, buf@.len() as int);
            match spec_decode_batch(s) {
                BatchParse::NeedMore => r is NeedMore,
                BatchParse::Parsed(rs, len) => r matches DecodeResult::Complete(b, newpos)
                    && b@ == rs && newpos == pos + len,
                BatchParse::Malformed => r is Malformed,
            }
        }),
{
    let ghost s = buf@.subrange(pos as int, buf@.len() as int);
    let len = buf.len();
    let avail = len - pos;
    if avail < 4 {
        return DecodeResult::NeedMore;
    }
    let n = read_u32_le(buf, pos);
    proof {
        assert(buf@.subrange(pos as int, pos as int + 4) =~= s.subrange(0, 4));
    }
    if ((avail - 4) as u64) < n as u64 {
        return DecodeResult::NeedMore;
    }
    let body_len = n as usize;
    let body_end = pos + 4 + body_len;
    let ghost body = buf@.subrange(pos as int + 4, body_end as int);
    proof {
        assert(body =~= s.subrange(4, 4 + n as int));
    }
    let mut records: Vec<Message> = Vec::new();
    let mut cur = pos + 4;
    proof {
        assert(buf@.subrange(cur as int, body_end as int) =~= body);
        lemma_prepend_empty(spec_parse_body(body));
        assert(crate::models::messages_view(records@) =~= Seq::<MessageView>::empty());
    }
    while cur < body_end
        invariant
            pos + 4 <= cur <= body_end <= buf@.len(),
            body == buf@.subrange(pos as int + 4, body_end as int),
            spec_parse_body(body) == prepend_parsed(
                crate::models::messages_view(records@),
                spec_parse_body(buf@.subrange(cur as int, body_end as int)),
            ),
        decreases body_end - cur,
    {
        let ghost remaining = buf@.subrange(cur as int, body_end as int);
        match parse_message(buf, cur, body_end) {
            None => {
                proof {
                    assert(spec_parse_message(remaining) is None);
                    assert(remaining.len() > 0);
                    assert(spec_parse_body(remaining) is None);
                }
                return DecodeResult::Malformed;
            },
            Some((m, mlen)) => {
                proof {
                    lemma_parse_message_len(remaining);
                    let p = spec_parse_message(remaining)->Some_0;
                    assert(remaining.subrange(p.len, remaining.len() as int) =~= buf@.subrange(
                        cur as int + mlen as int,
                        body_end as int,
                    ));
                    assert(spec_parse_body(remaining) == prepend_parsed(
                        seq![p.msg],
                        spec_parse_body(remaining.subrange(p.len, remaining.len() as int)),
                    ));
                    let rv = crate::models::messages_view(records@);
                    assert(crate::models::messages_view(records@.push(m)) =~= rv.push(m@));
                    match spec_parse_body(buf@.subrange(cur as int + mlen as int, body_end as int)) {
                        None => {},
                        Some(tail) => {
                            assert(rv + (seq![m@] + tail) =~= rv.push(m@) + tail);
                        },
                    }
                }
                records.push(m);
                cur = cur + mlen;
            },
        }
    }
    proof {
        assert(buf@.subrange(cur as int, body_end as int) =~= Seq::<u8>::empty());
        assert(spec_parse_body(buf@.subrange(cur as int, body_end as int)) == Some(
            Seq::<MessageView>::empty(),
        ));
        let rv = crate::models::messages_view(records@);
        assert(rv + Seq::<MessageView>::empty() =~= rv);
    }
    if records.len() == 0 {
        return DecodeResult::Malformed;
    }
    let b = Batch { records };
    DecodeResult::Complete(b, body_end)
}

pub proof fn lemma_parse_message_round_trip(m: MessageView, rest: Seq<u8>)
    requires
        msg_valid(m),
    ensures
        spec_parse_message(spec_encode_message(m) + rest) == Some(
            MessageParse { msg: m, len: spec_encode_message(m).len() as int },
        ),
{
    let e = spec_encode_message(m);
    let s = e + rest;
    let plen = m.payload.len() as int;
    let kpart = spec_encode_key(m.key);
    let tpart = spec_encode_timestamp(m.timestamp);
    let a = 4 + plen;
    let b = a + kpart.len() as int;
    lemma_u32_le_round_trip(plen);
    assert(s.subrange(0, 4) =~= u32_le_bytes(plen));
    assert(s.subrange(4, a) =~= m.payload);
    match m.key {
        None => {
            assert(s[a] == 0u8);
            assert(spec_parse_key(s, a) == Some((None::<Seq<char>>, a + 1)));
        },
        Some(k) => {
            let kb = encode_utf8(k);
            let klen = kb.len() as int;
            lemma_u32_le_round_trip(klen);
            assert(s[a] == 1u8);
            assert(s.subrange(a + 1, a + 5) =~= u32_le_bytes(klen));
            assert(s.subrange(a + 5, a + 5 + klen) =~= kb);
            vstd::utf8::encode_utf8_valid_utf8(k);
            vstd::utf8::encode_utf8_decode_utf8(k);
            assert(spec_parse_key(s, a) == Some((Some(k), a + 5 + klen)));
        },
    }
    match m.timestamp {
        None => {
            assert(s[b] == 0u8);
            assert(spec_parse_timestamp(s, b) == Some((None::<u64>, b + 1)));
        },
        Some(t) => {
            lemma_u64_le_round_trip(t as int);
            assert(s[b] == 1u8);
            assert(s.subrange(b + 1, b + 9) =~= u64_le_bytes(t as int));
            assert(spec_parse_timestamp(s, b) == Some((Some(t), b + 9)));
        },
    }
}

#[verifier::rlimit(100)]
pub proof fn lemma_parse_body_round_trip(records: Seq<MessageView>)
    requires
        forall|i: int| 0 <= i < records.len() ==> msg_valid(records[i]),
    ensures
        spec_parse_body(spec_encode_body(records)) == Some(records),
    decreases records.len(),
{
    if records.len() == 0 {
        assert(spec_parse_body(spec_encode_body(records)) == Some(Seq::<MessageView>::empty()));
    } else {
        let r0 = records[0];
        let tail = records.drop_first();
        let body = spec_encode_body(records);
        let etail = spec_encode_body(tail);
        let e0 = spec_encode_message(r0);
        assert(body == e0 + etail);
        let p = MessageParse { msg: r0, len: e0.len() as int };
        assert(spec_parse_message(body) == Some(p)) by {
            lemma_parse_message_round_trip(r0, etail);
        }
        assert(body.len() == e0.len() + etail.len());
        assert(e0.len() >= 6) by {
            lemma_parse_message_len(e0 + etail);
        }
        assert(body.subrange(p.len, body.len() as int) =~= etail);
        assert(spec_parse_body(body.subrange(p.len, body.len() as int)) == Some(tail)) by {
            lemma_parse_body_round_trip(tail);
        }
        assert(spec_parse_body(body) == Some(seq![r0] + tail));
        assert(seq![r0] + tail =~= records);
    }
}

/// Law (round trip, one batch): decoding an encoded batch, with any bytes
/// following it in the buffer, yields exactly that batch and consumes
/// exactly its encoding — `decode(encode(b)) == b`.
pub proof fn lemma_batch_round_trip(records: Seq<MessageView>, rest: Seq<u8>)
    requires
        batch_records_valid(records),
    ensures
        spec_decode_batch(spec_encode_batch(records) + rest) == BatchParse::Parsed(
            records,
            spec_encode_batch(records).len() as int,
        ),
{
    let body = spec_encode_body(records);
    let e = spec_encode_batch(records);
    let s = e + rest;
    lemma_u32_le_round_trip(body.len() as int);
    assert(s.subrange(0, 4) =~= u32_le_bytes(body.len() as int));
    assert(s.subrange(4, 4 + body.len() as int) =~= body);
    lemma_parse_body_round_trip(records);
}

/// Law (partial-input safety): a buffer holding any strict prefix of one
/// complete encoded batch decodes to "need more input", never to an error;
/// and decoding at a position consumes nothing of the buffer.
pub proof fn lemma_decode_needs_full_batch(records: Seq<MessageView>, k: int)
    requires
        batch_records_valid(records),
        0 <= k < spec_encode_batch(records).len(),
    ensures
        spec_decode_batch(spec_encode_batch(records).take(k)) == BatchParse::NeedMore,
{
    let body = spec_encode_body(records);
    let e = spec_encode_batch(records);
    let s = e.take(k);
    if k >= 4 {
        lemma_u32_le_round_trip(body.len() as int);
        assert(s.subrange(0, 4) =~= u32_le_bytes(body.len() as int));
        assert(s.len() < 4 + body.len());
    }
}

/// Concatenation of independently encoded batches, in order: the contents of
/// a segment file.
pub open spec fn spec_encode_batches(bs: Seq<Seq<MessageView>>) -> Seq<u8>
    decreases bs.len(),
{
    if bs.len() == 0 {
        Seq::empty()
    } else {
        spec_encode_batch(bs[0]) + spec_encode_batches(bs.drop_first())
    }
}

pub open spec fn all_batches_valid(bs: Seq<Seq<MessageView>>) -> bool {
    forall|i: int| 0 <= i < bs.len() ==> batch_records_valid(bs[i])
}

/// Decode a buffer as a sequence of back-to-back batches until it is
/// exhausted; leftover or malformed bytes yield nothing.
pub open spec fn spec_decode_all(s: Seq<u8>) -> Option<Seq<Seq<MessageView>>>
    decreases s.len(),
{
    if s.len() == 0 {
        Some(Seq::empty())
    } else {
        match spec_decode_batch(s) {
            BatchParse::Parsed(records, len) => if 0 < len <= s.len() {
                match spec_decode_all(s.subrange(len, s.len() as int)) {
                    None => None,
                    Some(t) => Some(seq![records] + t),
                }
            } else {
                None
            },
            _ => None,
        }
    }
}

pub proof fn lemma_encode_batches_snoc(bs: Seq<Seq<MessageView>>, b: Seq<MessageView>)
    ensures
        spec_encode_batches(bs.push(b)) == spec_encode_batches(bs) + spec_encode_batch(b),
    decreases bs.len(),
{
    if bs.len() == 0 {
        reveal_with_fuel(spec_encode_batches, 2);
        assert(bs.push(b)[0] == b);
        assert(bs.push(b).drop_first() =~= Seq::<Seq<MessageView>>::empty());
        assert(spec_encode_batches(bs.push(b)) =~= spec_encode_batches(bs) + spec_encode_batch(b));
    } else {
        assert(bs.push(b)[0] == bs[0]);
        assert(bs.push(b).drop_first() =~= bs.drop_first().push(b));
        lemma_encode_batches_snoc(bs.drop_first(), b);
        assert(spec_encode_batches(bs.push(b)) =~= spec_encode_batches(bs) + spec_encode_batch(b));
    }
}

/// Law (round trip, whole segment): a buffer formed by concatenating N
/// independently encoded batches decodes to exactly those N batches, in
/// original order, with no leftover bytes.
#[verifier::rlimit(100)]
pub proof fn lemma_decode_all_round_trip(bs: Seq<Seq<MessageView>>)
    requires
        all_batches_valid(bs),
    ensures
        spec_decode_all(spec_encode_batches(bs)) == Some(bs),
    decreases bs.len(),
{
    if bs.len() == 0 {
        assert(spec_decode_all(spec_encode_batches(bs)) == Some(Seq::<Seq<MessageView>>::empty()));
        assert(Seq::<Seq<MessageView>>::empty() =~= bs);
    } else {
        let b0 = bs[0];
        let tail = bs.drop_first();
        let e0 = spec_encode_batch(b0);
        let etail = spec_encode_batches(tail);
        let s = spec_encode_batches(bs);
        assert(s == e0 + etail);
        assert(spec_decode_batch(s) == BatchParse::Parsed(b0, e0.len() as int)) by {
            lemma_batch_round_trip(b0, etail);
        }
        assert(s.len() == e0.len() + etail.len());
        assert(e0.len() >= 4);
        assert(s.subrange(e0.len() as int, s.len() as int) =~= etail);
        assert(spec_decode_all(s.subrange(e0.len() as int, s.len() as int)) == Some(tail)) by {
            lemma_decode_all_round_trip(tail);
        }
        assert(spec_decode_all(s) == Some(seq![b0] + tail));
        assert(seq![b0] + tail =~= bs);
    }
}

/// The sequence of models of a sequence of batches.
pub open spec fn batches_view(bs: Seq<Batch>) -> Seq<Seq<MessageView>> {
    Seq::new(bs.len(), |i: int| bs[i]@)
}

/// Prefix a decoded tail with already-decoded batches.
pub open spec fn prepend_decoded(
    pre: Seq<Seq<MessageView>>,
    t: Option<Seq<Seq<MessageView>>>,
) -> Option<Seq<Seq<MessageView>>> {
    match t {
        None => None,
        Some(tail) => Some(pre + tail),
    }
}

/// Decode a whole buffer as back-to-back batches — the layout of a segment
/// file — returning them in order, or nothing when the buffer ends in a
/// partial batch or is malformed.
#[verifier::loop_isolation(false)]
#[verifier::rlimit(60)]
pub fn decode_all(buf: &Vec<u8>) -> (r: Option<Vec<Batch>>)
    ensures
        match spec_decode_all(buf@) {
            Some(bs) => r matches Some(v) && batches_view(v@) == bs,
            None => r is None,
        },
{
    let len = buf.len();
    let mut out: Vec<Batch> = Vec::new();
    let mut pos: usize = 0;
    proof {
        assert(buf@.subrange(0, len as int) =~= buf@);
        assert(batches_view(out@) =~= Seq::<Seq<MessageView>>::empty());
        match spec_decode_all(buf@) {
            None => {},
            Some(t) => {
                assert(Seq::<Seq<MessageView>>::empty() + t =~= t);
            },
        }
    }
    while pos < len
        invariant
            pos <= len,
            spec_decode_all(buf@) == prepend_decoded(
                batches_view(out@),
                spec_decode_all(buf@.subrange(pos as int, len as int)),
            ),
        decreases len - pos,
    {
        let ghost rem = buf@.subrange(pos as int, len as int);
        match decode_batch(buf, pos) {
            DecodeResult::Complete(b, newpos) => {
                proof {
                    let l = newpos - pos;
                    assert(rem.subrange(l as int, rem.len() as int) =~= buf@.subrange(
                        newpos as int,
                        len as int,
                    ));
                    assert(batches_view(out@.push(b)) =~= batches_view(out@).push(b@));
                    match spec_decode_all(buf@.subrange(newpos as int, len as int)) {
                        None => {},
                        Some(t) => {
                            assert(batches_view(out@) + (seq![b@] + t) =~= batches_view(
                                out@,
                            ).push(b@) + t);
                        },
                    }
                }
                out.push(b);
                pos = newpos;
            },
            DecodeResult::NeedMore => {
                proof {
                    assert(rem.len() > 0);
                }
                return None;
            },
            DecodeResult::Malformed => {
                proof {
                    assert(rem.len() > 0);
                }
                return None;
            },
        }
    }
    proof {
        assert(buf@.subrange(pos as int, len as int) =~= Seq::<u8>::empty());
        let bv = batches_view(out@);
        assert(bv + Seq::<Seq<MessageView>>::empty() =~= bv);
    }
    Some(out)
}

pub proof fn lemma_encode_message_len(m: MessageView)
    ensures
        spec_encode_message(m).len() == 4 + m.payload.len() + (match m.key {
            Option::None => 1int,
            Option::Some(k) => 5int + encode_utf8(k).len(),
        }) + (match m.timestamp {
            Option::None => 1int,
            Option::Some(_) => 9int,
        }),
{
}

} // verus!
