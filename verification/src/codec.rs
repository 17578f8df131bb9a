//! The wire codec: every message is exchanged as an 8-byte little-endian
//! length prefix followed by exactly that many payload bytes, and the payload
//! is a self-describing encoding of the message (a variant tag followed by the
//! variant's fields, with strings as length-prefixed UTF-8).
//!
//! Decoding inverts encoding exactly: a payload that is the encoding of a
//! message decodes to that message, and anything else is rejected with a
//! codec error.

use vstd::prelude::*;
use vstd::bytes::*;
use vstd::string::*;
use vstd::utf8::*;
use crate::msg::{LogLevel, Message, MsgAbs};

verus! {

pub const TAG_GREETING: u8 = 0;

pub const TAG_LOG: u8 = 1;

pub const TAG_BATCH_REQUEST: u8 = 2;

pub const TAG_BATCH: u8 = 3;

pub const TAG_JSON: u8 = 4;

pub const TAG_DOWNLOAD_START: u8 = 5;

pub const TAG_DOWNLOAD_END: u8 = 6;

pub const TAG_END_REQUEST: u8 = 7;

/// A payload that cannot be read back as a message.
#[derive(Debug, Clone, Copy, PartialEq, Eq, Structural)]
pub enum CodecError {
    /// The payload ended before a complete field.
    Truncated,
    /// The first payload byte is not a known variant tag.
    UnknownTag(u8),
    /// A log-level byte is outside the known range.
    BadLevel(u8),
    /// A string field is not valid UTF-8.
    InvalidUtf8,
    /// Well-formed fields were followed by extra bytes.
    TrailingBytes,
    /// A length field exceeds what this host can address.
    Oversize,
}

/// The byte encoding a log level.
pub open spec fn level_byte(l: LogLevel) -> u8 {
    match l {
        LogLevel::Error => 1,
        LogLevel::Warn => 2,
        LogLevel::Info => 3,
        LogLevel::Debug => 4,
        LogLevel::Trace => 5,
    }
}

/// Encoding of a 64-bit integer: 8 bytes, little-endian.
pub open spec fn enc_u64(x: u64) -> Seq<u8> {
    spec_u64_to_le_bytes(x)
}

/// Encoding of a string: its UTF-8 length as 8 bytes, then its UTF-8 bytes.
pub open spec fn enc_str(s: Seq<char>) -> Seq<u8> {
    enc_u64(encode_utf8(s).len() as u64) + encode_utf8(s)
}

/// Encoding of the elements of a batch, one string after another.
pub open spec fn enc_batch(items: Seq<Seq<char>>) -> Seq<u8>
    decreases items.len(),
{
    if items.len() == 0 {
        Seq::empty()
    } else {
        enc_str(items[0]) + enc_batch(items.drop_first())
    }
}

/// The variant tag byte of an abstract message.
pub open spec fn tag_byte(m: MsgAbs) -> u8 {
    match m {
        MsgAbs::Greeting(..) => TAG_GREETING,
        MsgAbs::Log { .. } => TAG_LOG,
        MsgAbs::BatchRequest => TAG_BATCH_REQUEST,
        MsgAbs::Batch(..) => TAG_BATCH,
        MsgAbs::JSON(..) => TAG_JSON,
        MsgAbs::DownloadStart => TAG_DOWNLOAD_START,
        MsgAbs::DownloadEnd => TAG_DOWNLOAD_END,
        MsgAbs::EndRequest => TAG_END_REQUEST,
    }
}

/// The payload encoding of a message: its tag byte, then its fields.
pub open spec fn spec_encode(m: MsgAbs) -> Seq<u8> {
    seq![tag_byte(m)] + match m {
        MsgAbs::Greeting(id) => enc_u64(id as u64),
        MsgAbs::Log { thr_id, level, target, msg } => enc_u64(thr_id as u64) + seq![
            level_byte(level),
        ] + enc_str(target) + enc_str(msg),
        MsgAbs::BatchRequest => Seq::empty(),
        MsgAbs::Batch(items) => enc_u64(items.len() as u64) + enc_batch(items),
        MsgAbs::JSON(payload) => enc_str(payload),
        MsgAbs::DownloadStart => Seq::empty(),
        MsgAbs::DownloadEnd => Seq::empty(),
        MsgAbs::EndRequest => Seq::empty(),
    }
}

/// A string whose UTF-8 length fits the 8-byte length field.
pub open spec fn str_fits(s: Seq<char>) -> bool {
    encode_utf8(s).len() < 0x1_0000_0000_0000_0000
}

/// A message whose variable-size fields all fit their length fields. Every
/// message a real process can hold satisfies this; it rules out only the
/// boundless values of the mathematical model.
pub open spec fn msg_fits(m: MsgAbs) -> bool {
    match m {
        MsgAbs::Log { target, msg, .. } => str_fits(target) && str_fits(msg),
        MsgAbs::Batch(items) => items.len() < 0x1_0000_0000_0000_0000 && (forall|i: int|
            0 <= i < items.len() ==> str_fits(#[trigger] items[i])),
        MsgAbs::JSON(payload) => str_fits(payload),
        _ => true,
    }
}

/// Relies on std::str::from_utf8: it succeeds exactly on valid UTF-8 input
/// and returns the string view of those very bytes.
#[verifier::external_body]
pub(crate) fn str_from_utf8(v: &[u8]) -> (r: Option<&str>)
    ensures
        r is Some <==> valid_utf8(v@),
        r matches Some(s) ==> s.spec_bytes() == v@,
{
    core::str::from_utf8(v).ok()
}

/// The executable counterpart of [`level_byte`].
pub fn level_to_byte(l: LogLevel) -> (b: u8)
    ensures
        b == level_byte(l),
{
    match l {
        LogLevel::Error => 1,
        LogLevel::Warn => 2,
        LogLevel::Info => 3,
        LogLevel::Debug => 4,
        LogLevel::Trace => 5,
    }
}

/// Reads a log level back from its byte; rejects every other byte.
pub fn level_from_byte(b: u8) -> (r: Option<LogLevel>)
    ensures
        r matches Some(l) ==> level_byte(l) == b,
        r is None ==> forall|l: LogLevel| level_byte(l) != b,
{
    match b {
        1 => Some(LogLevel::Error),
        2 => Some(LogLevel::Warn),
        3 => Some(LogLevel::Info),
        4 => Some(LogLevel::Debug),
        5 => Some(LogLevel::Trace),
        _ => None,
    }
}

fn push_u64(out: &mut Vec<u8>, x: u64)
    ensures
        final(out)@ == old(out)@ + enc_u64(x),
{
    let mut b = u64_to_le_bytes(x);
    out.append(&mut b);
}

fn push_str(out: &mut Vec<u8>, s: &str)
    ensures
        final(out)@ == old(out)@ + enc_str(s@),
        str_fits(s@),
{
    let mut bytes = s.as_bytes_vec();
    let n: u64 = bytes.len() as u64;
    push_u64(out, n);
    out.append(&mut bytes);
}

proof fn lemma_enc_batch_push(items: Seq<Seq<char>>, x: Seq<char>)
    ensures
        enc_batch(items.push(x)) == enc_batch(items) + enc_str(x),
    decreases items.len(),
{
    if items.len() == 0 {
        assert(items.push(x)[0] == x);
        assert(items.push(x).drop_first() =~= Seq::<Seq<char>>::empty());
        assert(enc_batch(items.push(x).drop_first()) =~= Seq::<u8>::empty());
        assert(enc_batch(items.push(x)) =~= enc_str(x));
        assert(enc_batch(items) + enc_str(x) =~= enc_str(x));
    } else {
        assert(items.push(x).drop_first() =~= items.drop_first().push(x));
        lemma_enc_batch_push(items.drop_first(), x);
        assert(enc_batch(items.push(x)) =~= enc_batch(items) + enc_str(x));
    }
}

fn push_batch(out: &mut Vec<u8>, items: &Vec<String>)
    ensures
        final(out)@ == old(out)@ + enc_batch(items.deep_view()),
        forall|i: int| 0 <= i < items.deep_view().len() ==> str_fits(#[trigger] items.deep_view()[i]),
{
    let ghost dv = items.deep_view();
    let n = items.len();
    assert(dv.len() == n);
    let mut i: usize = 0;
    while i < n
        invariant
            i <= n,
            n == items@.len(),
            dv == items.deep_view(),
            dv.len() == n,
            out@ == old(out)@ + enc_batch(dv.take(i as int)),
            forall|j: int| 0 <= j < i ==> str_fits(#[trigger] dv[j]),
        decreases n - i,
    {
        assert(dv[i as int] == items@[i as int]@);
        push_str(out, items[i].as_str());
        proof {
            lemma_enc_batch_push(dv.take(i as int), dv[i as int]);
            assert(dv.take(i as int).push(dv[i as int]) =~= dv.take(i + 1));
        }
        i = i + 1;
    }
    assert(dv.take(n as int) =~= dv);
}

/// Encodes a message into its payload bytes.
pub fn encode(m: &Message) -> (r: Vec<u8>)
    ensures
        r@ == spec_encode(m@),
        msg_fits(m@),
{
    let mut out: Vec<u8> = Vec::new();
    match m {
        Message::Greeting(id) => {
            out.push(TAG_GREETING);
            push_u64(&mut out, *id as u64);
        },
        Message::Log { thr_id, level, target, msg } => {
            out.push(TAG_LOG);
            push_u64(&mut out, *thr_id as u64);
            out.push(level_to_byte(*level));
            push_str(&mut out, target.as_str());
            push_str(&mut out, msg.as_str());
        },
        Message::BatchRequest => {
            out.push(TAG_BATCH_REQUEST);
        },
        Message::Batch(items) => {
            out.push(TAG_BATCH);
            push_u64(&mut out, items.len() as u64);
            push_batch(&mut out, items);
        },
        Message::JSON(payload) => {
            out.push(TAG_JSON);
            push_str(&mut out, payload.as_str());
        },
        Message::DownloadStart => {
            out.push(TAG_DOWNLOAD_START);
        },
        Message::DownloadEnd => {
            out.push(TAG_DOWNLOAD_END);
        },
        Message::EndRequest => {
            out.push(TAG_END_REQUEST);
        },
    }
    assert(out@ =~= spec_encode(m@));
    out
}

/// Whether the encoding of string `t` sits in `b` starting at `pos`.
pub open spec fn str_at(b: Seq<u8>, pos: int, t: Seq<char>) -> bool {
    &&& 0 <= pos
    &&& pos + enc_str(t).len() <= b.len()
    &&& b.subrange(pos, pos + enc_str(t).len() as int) == enc_str(t)
}

fn read_u64_at(bytes: &[u8], pos: usize) -> (r: Result<(u64, usize), CodecError>)
    requires
        pos <= bytes@.len(),
    ensures
        r matches Ok(p) ==> ({
            &&& p.1 == pos + 8
            &&& pos + 8 <= bytes@.len()
            &&& bytes@.subrange(pos as int, p.1 as int) == enc_u64(p.0)
        }),
        r is Err <==> pos + 8 > bytes@.len(),
{
    proof {
        lemma_auto_spec_u64_to_from_le_bytes();
    }
    if bytes.len() - pos >= 8 {
        let s = vstd::slice::slice_subrange(bytes, pos, pos + 8);
        let v = u64_from_le_bytes(s);
        assert(bytes@.subrange(pos as int, (pos + 8) as int) == enc_u64(v));
        Ok((v, pos + 8))
    } else {
        Err(CodecError::Truncated)
    }
}

proof fn lemma_str_at_pieces(b: Seq<u8>, pos: int, t: Seq<char>)
    requires
        str_fits(t),
        str_at(b, pos, t),
    ensures
        pos + 8 <= b.len(),
        b.subrange(pos, pos + 8) == enc_u64(encode_utf8(t).len() as u64),
        pos + 8 + encode_utf8(t).len() <= b.len(),
        b.subrange(pos + 8, pos + 8 + encode_utf8(t).len() as int) == encode_utf8(t),
{
    lemma_auto_spec_u64_to_from_le_bytes();
    let e = encode_utf8(t);
    let l = e.len() as u64;
    assert(enc_u64(l).len() == 8);
    assert(enc_str(t).len() == 8 + e.len());
    let s = b.subrange(pos, pos + enc_str(t).len() as int);
    assert forall|i: int| 0 <= i < 8 implies b.subrange(pos, pos + 8)[i] == enc_u64(l)[i] by {
        assert(s[i] == b[pos + i]);
        assert(enc_str(t)[i] == enc_u64(l)[i]);
    }
    assert(b.subrange(pos, pos + 8) =~= enc_u64(l));
    assert forall|i: int| 0 <= i < e.len() implies b.subrange(pos + 8, pos + 8 + e.len() as int)[i]
        == e[i] by {
        assert(s[8 + i] == b[pos + 8 + i]);
        assert(enc_str(t)[8 + i] == e[i]);
    }
    assert(b.subrange(pos + 8, pos + 8 + e.len() as int) =~= e);
}

fn read_string_at(bytes: &[u8], pos: usize) -> (r: Result<(String, usize), CodecError>)
    requires
        pos <= bytes@.len(),
    ensures
        r matches Ok(p) ==> ({
            &&& pos + enc_str(p.0@).len() == p.1
            &&& p.1 <= bytes@.len()
            &&& bytes@.subrange(pos as int, p.1 as int) == enc_str(p.0@)
            &&& str_fits(p.0@)
        }),
        forall|t: Seq<char>|
            str_fits(t) && #[trigger] str_at(bytes@, pos as int, t) ==> (r matches Ok(p) && p.0@
                == t),
{
    proof {
        lemma_auto_spec_u64_to_from_le_bytes();
    }
    let len = bytes.len();
    match read_u64_at(bytes, pos) {
        Err(e) => {
            proof {
                assert forall|t: Seq<char>|
                    str_fits(t) && #[trigger] str_at(bytes@, pos as int, t) implies false by {
                    lemma_str_at_pieces(bytes@, pos as int, t);
                }
            }
            Err(e)
        },
        Ok((n, p1)) => {
            if n <= (len - p1) as u64 {
                let end = p1 + (n as usize);
                let chunk = vstd::slice::slice_subrange(bytes, p1, end);
                match str_from_utf8(chunk) {
                    Some(s) => {
                        let owned = s.to_owned();
                        proof {
                            // soundness: the bytes at [pos, end) are exactly enc_str(owned@)
                            assert(owned@ == s@);
                            assert(encode_utf8(owned@) == chunk@);
                            assert(bytes@.subrange(pos as int, end as int) =~= bytes@.subrange(
                                pos as int,
                                p1 as int,
                            ) + bytes@.subrange(p1 as int, end as int));
                            assert(n == encode_utf8(owned@).len() as u64);
                            assert(bytes@.subrange(pos as int, end as int) =~= enc_str(owned@));
                            // completeness: any encoded string here is owned@
                            assert forall|t: Seq<char>|
                                str_fits(t) && #[trigger] str_at(
                                    bytes@,
                                    pos as int,
                                    t,
                                ) implies owned@ == t by {
                                lemma_str_at_pieces(bytes@, pos as int, t);
                                let e = encode_utf8(t);
                                assert(enc_u64(n) == enc_u64(e.len() as u64));
                                assert(n == e.len() as u64);
                                assert(chunk@ == e);
                                assert(encode_utf8(owned@) == encode_utf8(t));
                                encode_utf8_decode_utf8(owned@);
                                encode_utf8_decode_utf8(t);
                            }
                        }
                        Ok((owned, end))
                    },
                    None => {
                        proof {
                            assert forall|t: Seq<char>|
                                str_fits(t) && #[trigger] str_at(
                                    bytes@,
                                    pos as int,
                                    t,
                                ) implies false by {
                                lemma_str_at_pieces(bytes@, pos as int, t);
                                let e = encode_utf8(t);
                                assert(n == e.len() as u64);
                                assert(chunk@ == e);
                                encode_utf8_valid_utf8(t);
                            }
                        }
                        Err(CodecError::InvalidUtf8)
                    },
                }
            } else {
                proof {
                    assert forall|t: Seq<char>|
                        str_fits(t) && #[trigger] str_at(bytes@, pos as int, t) implies false by {
                        lemma_str_at_pieces(bytes@, pos as int, t);
                        let e = encode_utf8(t);
                        assert(n == e.len() as u64);
                    }
                }
                Err(CodecError::Truncated)
            }
        },
    }
}

/// The head byte of every encoding is the variant tag.
proof fn lemma_spec_encode_head(a: MsgAbs)
    ensures
        spec_encode(a).len() >= 1,
        spec_encode(a)[0] == tag_byte(a),
{
}

proof fn lemma_enc_batch_split(items: Seq<Seq<char>>, k: int)
    requires
        0 <= k <= items.len(),
    ensures
        enc_batch(items) == enc_batch(items.take(k)) + enc_batch(items.skip(k)),
    decreases k,
{
    if k == 0 {
        assert(items.take(0) =~= Seq::<Seq<char>>::empty());
        assert(items.skip(0) =~= items);
        assert(enc_batch(items.take(0)) =~= Seq::<u8>::empty());
        assert(enc_batch(items) =~= enc_batch(items.take(0)) + enc_batch(items.skip(0)));
    } else {
        lemma_enc_batch_split(items.drop_first(), k - 1);
        assert(items.take(k)[0] == items[0]);
        assert(items.take(k).drop_first() =~= items.drop_first().take(k - 1));
        assert(items.skip(k) =~= items.drop_first().skip(k - 1));
        assert(enc_batch(items.take(k)) == enc_str(items[0]) + enc_batch(
            items.drop_first().take(k - 1),
        ));
        assert(enc_batch(items) =~= enc_batch(items.take(k)) + enc_batch(items.skip(k)));
    }
}

proof fn lemma_enc_batch_unfold_at(items: Seq<Seq<char>>, k: int)
    requires
        0 <= k < items.len(),
    ensures
        enc_batch(items) == enc_batch(items.take(k)) + enc_str(items[k]) + enc_batch(
            items.skip(k + 1),
        ),
{
    lemma_enc_batch_split(items, k);
    assert(items.skip(k)[0] == items[k]);
    assert(items.skip(k).drop_first() =~= items.skip(k + 1));
    assert(enc_batch(items.skip(k)) == enc_str(items[k]) + enc_batch(items.skip(k + 1)));
    assert(enc_batch(items) =~= enc_batch(items.take(k)) + enc_str(items[k]) + enc_batch(
        items.skip(k + 1),
    ));
}

/// Whether `b` is exactly the payload encoding of the batch `items`.
pub open spec fn is_batch_encoding(b: Seq<u8>, items: Seq<Seq<char>>) -> bool {
    &&& msg_fits(MsgAbs::Batch(items))
    &&& b == spec_encode(MsgAbs::Batch(items))
}

proof fn lemma_batch_item_at(b: Seq<u8>, items: Seq<Seq<char>>, k: int)
    requires
        is_batch_encoding(b, items),
        0 <= k < items.len(),
    ensures
        str_at(b, 9 + enc_batch(items.take(k)).len() as int, items[k]),
        9 + enc_batch(items.take(k)).len() + enc_str(items[k]).len() == 9 + enc_batch(
            items.take(k + 1),
        ).len(),
{
    lemma_auto_spec_u64_to_from_le_bytes();
    let n = items.len() as u64;
    let head = seq![TAG_BATCH] + enc_u64(n);
    assert(head.len() == 9);
    lemma_enc_batch_unfold_at(items, k);
    let pre = enc_batch(items.take(k));
    let it = enc_str(items[k]);
    let pos = 9 + pre.len() as int;
    assert(b =~= head + (pre + it + enc_batch(items.skip(k + 1))));
    assert(b.len() == 9 + pre.len() + it.len() + enc_batch(items.skip(k + 1)).len());
    assert forall|i: int| 0 <= i < it.len() implies b.subrange(pos, pos + it.len() as int)[i]
        == it[i] by {
        assert(b[pos + i] == (pre + it + enc_batch(items.skip(k + 1)))[pre.len() + i]);
    }
    assert(b.subrange(pos, pos + it.len() as int) =~= it);
    lemma_enc_batch_push(items.take(k), items[k]);
    assert(items.take(k).push(items[k]) =~= items.take(k + 1));
}

proof fn lemma_enc_u64_inj(x: u64, y: u64)
    requires
        enc_u64(x) == enc_u64(y),
    ensures
        x == y,
{
    lemma_auto_spec_u64_to_from_le_bytes();
}

fn decode_greeting(bytes: &[u8]) -> (r: Result<Message, CodecError>)
    requires
        bytes@.len() >= 1,
        bytes@[0] == TAG_GREETING,
    ensures
        r matches Ok(m) ==> msg_fits(m@) && bytes@ == spec_encode(m@),
        forall|a: MsgAbs|
            msg_fits(a) && bytes@ == #[trigger] spec_encode(a) ==> (r matches Ok(m) && m@ == a),
{
    let len = bytes.len();
    proof {
        lemma_auto_spec_u64_to_from_le_bytes();
        assert forall|a: MsgAbs|
            msg_fits(a) && bytes@ == #[trigger] spec_encode(a) implies a is Greeting && bytes@
            =~= seq![TAG_GREETING] + enc_u64(a->Greeting_0 as u64) && bytes@.len() == 9 by {
            lemma_spec_encode_head(a);
        }
    }
    match read_u64_at(bytes, 1) {
        Ok((v, end)) => {
            if v <= usize::MAX as u64 && end == len {
                let id = v as usize;
                proof {
                    assert(bytes@ =~= seq![TAG_GREETING] + enc_u64(v));
                    assert forall|a: MsgAbs|
                        msg_fits(a) && bytes@ == #[trigger] spec_encode(a) implies a
                        == MsgAbs::Greeting(id) by {
                        let x = a->Greeting_0;
                        assert(bytes@.subrange(1, 9) =~= enc_u64(x as u64));
                        lemma_enc_u64_inj(v, x as u64);
                    }
                }
                Ok(Message::Greeting(id))
            } else {
                proof {
                    assert forall|a: MsgAbs|
                        msg_fits(a) && bytes@ == #[trigger] spec_encode(a) implies false by {
                        let x = a->Greeting_0;
                        assert(bytes@.subrange(1, 9) =~= enc_u64(x as u64));
                        lemma_enc_u64_inj(v, x as u64);
                    }
                }
                if end != len {
                    Err(CodecError::TrailingBytes)
                } else {
                    Err(CodecError::Oversize)
                }
            }
        },
        Err(e) => {
            proof {
                assert forall|a: MsgAbs|
                    msg_fits(a) && bytes@ == #[trigger] spec_encode(a) implies false by {
                    assert(bytes@.len() == 9);
                }
            }
            Err(e)
        },
    }
}

fn decode_json(bytes: &[u8]) -> (r: Result<Message, CodecError>)
    requires
        bytes@.len() >= 1,
        bytes@[0] == TAG_JSON,
    ensures
        r matches Ok(m) ==> msg_fits(m@) && bytes@ == spec_encode(m@),
        forall|a: MsgAbs|
            msg_fits(a) && bytes@ == #[trigger] spec_encode(a) ==> (r matches Ok(m) && m@ == a),
{
    let len = bytes.len();
    proof {
        assert forall|a: MsgAbs|
            msg_fits(a) && bytes@ == #[trigger] spec_encode(a) implies a is JSON && str_fits(
            a->JSON_0,
        ) && str_at(bytes@, 1, a->JSON_0) && bytes@.len() == 1 + enc_str(a->JSON_0).len() by {
            lemma_spec_encode_head(a);
            assert(bytes@ =~= seq![TAG_JSON] + enc_str(a->JSON_0));
            lemma_json_str_at(bytes@, a->JSON_0);
        }
    }
    match read_string_at(bytes, 1) {
        Ok((payload, end)) => {
            if end == len {
                proof {
                    assert(bytes@ =~= bytes@.subrange(0, 1) + bytes@.subrange(1, end as int));
                    assert(bytes@.subrange(0, 1) =~= seq![TAG_JSON]);
                    assert(bytes@ =~= seq![TAG_JSON] + enc_str(payload@));
                }
                Ok(Message::JSON(payload))
            } else {
                Err(CodecError::TrailingBytes)
            }
        },
        Err(e) => Err(e),
    }
}

#[verifier::rlimit(50)]
fn decode_log(bytes: &[u8]) -> (r: Result<Message, CodecError>)
    requires
        bytes@.len() >= 1,
        bytes@[0] == TAG_LOG,
    ensures
        r matches Ok(m) ==> msg_fits(m@) && bytes@ == spec_encode(m@),
        forall|a: MsgAbs|
            msg_fits(a) && bytes@ == #[trigger] spec_encode(a) ==> (r matches Ok(m) && m@ == a),
{
    let len = bytes.len();
    proof {
        assert forall|a: MsgAbs|
            msg_fits(a) && bytes@ == #[trigger] spec_encode(a) implies a is Log && str_fits(
            a->target,
        ) && str_fits(a->msg) && bytes@.len() == 10 + enc_str(a->target).len() + enc_str(
            a->msg,
        ).len() && bytes@.subrange(1, 9) == enc_u64(a->thr_id as u64) && bytes@[9] == level_byte(
            a->level,
        ) && str_at(bytes@, 10, a->target) && str_at(
            bytes@,
            10 + enc_str(a->target).len() as int,
            a->msg,
        ) by {
            lemma_spec_encode_head(a);
            lemma_log_pieces(bytes@, a->thr_id, a->level, a->target, a->msg);
        }
    }
    match read_u64_at(bytes, 1) {
        Err(e) => Err(e),
        Ok((tid, _p)) => {
            if tid > usize::MAX as u64 {
                proof {
                    assert forall|a: MsgAbs|
                        msg_fits(a) && bytes@ == #[trigger] spec_encode(a) implies false by {
                        lemma_enc_u64_inj(tid, a->thr_id as u64);
                    }
                }
                Err(CodecError::Oversize)
            } else if len <= 9 {
                Err(CodecError::Truncated)
            } else {
                let lb = bytes[9];
                match level_from_byte(lb) {
                    None => Err(CodecError::BadLevel(lb)),
                    Some(level) => {
                        match read_string_at(bytes, 10) {
                            Err(e) => Err(e),
                            Ok((target, e1)) => {
                                match read_string_at(bytes, e1) {
                                    Err(e) => Err(e),
                                    Ok((message, e2)) => {
                                        if e2 == len {
                                            let m = Message::Log {
                                                thr_id: tid as usize,
                                                level,
                                                target,
                                                msg: message,
                                            };
                                            proof {
                                                assert(bytes@ =~= bytes@.subrange(0, 1)
                                                    + bytes@.subrange(1, 9) + bytes@.subrange(
                                                    9,
                                                    10,
                                                ) + bytes@.subrange(10, e1 as int)
                                                    + bytes@.subrange(e1 as int, e2 as int));
                                                assert(bytes@.subrange(0, 1) =~= seq![TAG_LOG]);
                                                assert(bytes@.subrange(9, 10) =~= seq![
                                                    level_byte(level),
                                                ]);
                                                assert(bytes@ =~= spec_encode(m@));
                                                assert forall|a: MsgAbs|
                                                    msg_fits(a) && bytes@
                                                        == #[trigger] spec_encode(a) implies a
                                                    == m@ by {
                                                    lemma_enc_u64_inj(tid, a->thr_id as u64);
                                                    assert(level_byte(a->level) == level_byte(
                                                        level,
                                                    ));
                                                    assert(a->level == level);
                                                }
                                            }
                                            Ok(m)
                                        } else {
                                            Err(CodecError::TrailingBytes)
                                        }
                                    },
                                }
                            },
                        }
                    },
                }
            }
        },
    }
}

#[verifier::rlimit(50)]
fn decode_batch(bytes: &[u8]) -> (r: Result<Message, CodecError>)
    requires
        bytes@.len() >= 1,
        bytes@[0] == TAG_BATCH,
    ensures
        r matches Ok(m) ==> msg_fits(m@) && bytes@ == spec_encode(m@),
        forall|a: MsgAbs|
            msg_fits(a) && bytes@ == #[trigger] spec_encode(a) ==> (r matches Ok(m) && m@ == a),
{
    let len = bytes.len();
    proof {
        assert forall|a: MsgAbs|
            msg_fits(a) && bytes@ == #[trigger] spec_encode(a) implies a is Batch
            && is_batch_encoding(bytes@, a->Batch_0) by {
            lemma_spec_encode_head(a);
        }
    }
    match read_u64_at(bytes, 1) {
        Err(e) => {
            proof {
                assert forall|a: MsgAbs|
                    msg_fits(a) && bytes@ == #[trigger] spec_encode(a) implies false by {
                    lemma_batch_head(bytes@, a->Batch_0);
                }
            }
            Err(e)
        },
        Ok((n, start)) => {
            let mut out: Vec<String> = Vec::new();
            let mut pos: usize = start;
            let mut i: u64 = 0;
            proof {
                assert(bytes@.subrange(0, 9) =~= seq![TAG_BATCH] + enc_u64(n));
                assert(enc_batch(out.deep_view()) =~= Seq::<u8>::empty());
                assert(bytes@.subrange(0, 9) =~= seq![TAG_BATCH] + enc_u64(n) + enc_batch(
                    out.deep_view(),
                ));
                assert forall|items: Seq<Seq<char>>| #[trigger]
                    is_batch_encoding(bytes@, items) implies items.len() as u64 == n
                    && items.len() == n by {
                    lemma_batch_head(bytes@, items);
                    lemma_enc_u64_inj(items.len() as u64, n);
                }
            }
            while i < n
                invariant
                    bytes@.len() == len,
                    bytes@.len() >= 9,
                    bytes@[0] == TAG_BATCH,
                    bytes@.subrange(1, 9) == enc_u64(n),
                    9 <= pos <= len,
                    i <= n,
                    out.deep_view().len() == i,
                    bytes@.subrange(0, pos as int) == seq![TAG_BATCH] + enc_u64(n) + enc_batch(
                        out.deep_view(),
                    ),
                    forall|j: int|
                        0 <= j < out.deep_view().len() ==> str_fits(#[trigger] out.deep_view()[j]),
                    forall|items: Seq<Seq<char>>| #[trigger]
                        is_batch_encoding(bytes@, items) ==> i <= items.len() && items.len() == n
                            && out.deep_view() == items.take(i as int) && pos == 9 + enc_batch(
                            items.take(i as int),
                        ).len(),
                decreases n - i,
            {
                proof {
                    assert forall|items: Seq<Seq<char>>| #[trigger]
                        is_batch_encoding(bytes@, items) implies str_fits(items[i as int])
                        && str_at(bytes@, pos as int, items[i as int]) by {
                        lemma_batch_item_at(bytes@, items, i as int);
                    }
                }
                match read_string_at(bytes, pos) {
                    Err(e) => {
                        proof {
                            assert forall|a: MsgAbs|
                                msg_fits(a) && bytes@ == #[trigger] spec_encode(a) implies false by {
                                lemma_spec_encode_head(a);
                                assert(is_batch_encoding(bytes@, a->Batch_0));
                            }
                        }
                        return Err(e);
                    },
                    Ok((s, np)) => {
                        let ghost sv = s@;
                        let ghost dv = out.deep_view();
                        out.push(s);
                        proof {
                            assert(out.deep_view() =~= dv.push(sv));
                            lemma_enc_batch_push(dv, sv);
                            assert(bytes@.subrange(0, np as int) =~= bytes@.subrange(0, pos as int)
                                + bytes@.subrange(pos as int, np as int));
                            assert(bytes@.subrange(0, np as int) =~= seq![TAG_BATCH] + enc_u64(n)
                                + enc_batch(out.deep_view()));
                            assert forall|items: Seq<Seq<char>>| #[trigger]
                                is_batch_encoding(bytes@, items) implies i + 1 <= items.len()
                                && out.deep_view() == items.take(i + 1) && np == 9 + enc_batch(
                                items.take(i + 1),
                            ).len() by {
                                lemma_batch_item_at(bytes@, items, i as int);
                                assert(sv == items[i as int]);
                                assert(items.take(i as int).push(items[i as int]) =~= items.take(
                                    i + 1,
                                ));
                            }
                        }
                        pos = np;
                        i = i + 1;
                    },
                }
            }
            if pos == len {
                let m = Message::Batch(out);
                proof {
                    assert(bytes@.subrange(0, pos as int) =~= bytes@);
                    assert(bytes@ =~= spec_encode(m@));
                    assert forall|a: MsgAbs|
                        msg_fits(a) && bytes@ == #[trigger] spec_encode(a) implies a == m@ by {
                        lemma_spec_encode_head(a);
                        assert(is_batch_encoding(bytes@, a->Batch_0));
                        assert(a->Batch_0.take(n as int) =~= a->Batch_0);
                    }
                }
                Ok(m)
            } else {
                proof {
                    assert forall|a: MsgAbs|
                        msg_fits(a) && bytes@ == #[trigger] spec_encode(a) implies false by {
                        lemma_spec_encode_head(a);
                        assert(is_batch_encoding(bytes@, a->Batch_0));
                        let items = a->Batch_0;
                        lemma_batch_head(bytes@, items);
                        assert(items.take(n as int) =~= items);
                    }
                }
                Err(CodecError::TrailingBytes)
            }
        },
    }
}

/// Decodes a payload back into a message.
///
/// The two `ensures` clauses make the codec round trip exact: whatever decodes
/// was the encoding of the decoded message, and every encoded message decodes
/// to itself. Any payload that is not the encoding of a message is rejected.
pub fn decode(bytes: &[u8]) -> (r: Result<Message, CodecError>)
    ensures
        r matches Ok(m) ==> msg_fits(m@) && bytes@ == spec_encode(m@),
        forall|a: MsgAbs|
            msg_fits(a) && bytes@ == #[trigger] spec_encode(a) ==> (r matches Ok(m) && m@ == a),
{
    let len = bytes.len();
    if len == 0 {
        proof {
            assert forall|a: MsgAbs|
                msg_fits(a) && bytes@ == #[trigger] spec_encode(a) implies false by {
                lemma_spec_encode_head(a);
            }
        }
        return Err(CodecError::Truncated);
    }
    let tag = bytes[0];
    proof {
        assert forall|a: MsgAbs|
            msg_fits(a) && bytes@ == #[trigger] spec_encode(a) implies tag_byte(a) == tag by {
            lemma_spec_encode_head(a);
        }
    }
    match tag {
        0 => decode_greeting(bytes),
        1 => decode_log(bytes),
        3 => decode_batch(bytes),
        4 => decode_json(bytes),
        2 | 5 | 6 | 7 => {
            // the variants without fields
            if len == 1 {
                let m = if tag == 2 {
                    Message::BatchRequest
                } else if tag == 5 {
                    Message::DownloadStart
                } else if tag == 6 {
                    Message::DownloadEnd
                } else {
                    Message::EndRequest
                };
                proof {
                    assert(bytes@ =~= seq![tag]);
                    assert(bytes@ =~= spec_encode(m@));
                    assert forall|a: MsgAbs|
                        msg_fits(a) && bytes@ == #[trigger] spec_encode(a) implies a == m@ by {
                        lemma_spec_encode_head(a);
                    }
                }
                Ok(m)
            } else {
                proof {
                    assert forall|a: MsgAbs|
                        msg_fits(a) && bytes@ == #[trigger] spec_encode(a) implies false by {
                        lemma_spec_encode_head(a);
                        assert(spec_encode(a) =~= seq![tag]);
                    }
                }
                Err(CodecError::TrailingBytes)
            }
        },
        _ => {
            proof {
                assert forall|a: MsgAbs|
                    msg_fits(a) && bytes@ == #[trigger] spec_encode(a) implies false by {
                    lemma_spec_encode_head(a);
                }
            }
            Err(CodecError::UnknownTag(tag))
        },
    }
}

proof fn lemma_log_pieces(b: Seq<u8>, x: usize, l: LogLevel, tt: Seq<char>, mt: Seq<char>)
    requires
        b == spec_encode(MsgAbs::Log { thr_id: x, level: l, target: tt, msg: mt }),
    ensures
        b.len() == 10 + enc_str(tt).len() + enc_str(mt).len(),
        b.subrange(1, 9) == enc_u64(x as u64),
        b[9] == level_byte(l),
        str_at(b, 10, tt),
        str_at(b, 10 + enc_str(tt).len() as int, mt),
{
    lemma_auto_spec_u64_to_from_le_bytes();
    let p = enc_u64(x as u64);
    let t = enc_str(tt);
    let m = enc_str(mt);
    let body = p + seq![level_byte(l)] + t + m;
    assert(b =~= seq![TAG_LOG] + body);
    assert(p.len() == 8);
    assert forall|i: int| 0 <= i < 8 implies b.subrange(1, 9)[i] == p[i] by {
        assert(b[1 + i] == body[i]);
    }
    assert(b.subrange(1, 9) =~= p);
    assert(b[9] == body[8]);
    assert forall|i: int| 0 <= i < t.len() implies b.subrange(10, 10 + t.len() as int)[i]
        == t[i] by {
        assert(b[10 + i] == body[9 + i]);
    }
    assert(b.subrange(10, 10 + t.len() as int) =~= t);
    let p2 = 10 + t.len() as int;
    assert forall|i: int| 0 <= i < m.len() implies b.subrange(p2, p2 + m.len() as int)[i]
        == m[i] by {
        assert(b[p2 + i] == body[9 + t.len() + i]);
    }
    assert(b.subrange(p2, p2 + m.len() as int) =~= m);
}

proof fn lemma_batch_head(b: Seq<u8>, items: Seq<Seq<char>>)
    requires
        b == spec_encode(MsgAbs::Batch(items)),
    ensures
        b.len() == 9 + enc_batch(items).len(),
        b.subrange(1, 9) == enc_u64(items.len() as u64),
        b[0] == TAG_BATCH,
{
    lemma_auto_spec_u64_to_from_le_bytes();
    let n = enc_u64(items.len() as u64);
    assert(n.len() == 8);
    let body = n + enc_batch(items);
    assert(b =~= seq![TAG_BATCH] + body);
    assert forall|i: int| 0 <= i < 8 implies b.subrange(1, 9)[i] == n[i] by {
        assert(b[1 + i] == body[i]);
    }
    assert(b.subrange(1, 9) =~= n);
}

proof fn lemma_json_str_at(b: Seq<u8>, t: Seq<char>)
    requires
        b == seq![TAG_JSON] + enc_str(t),
    ensures
        str_at(b, 1, t),
{
    assert forall|i: int| 0 <= i < enc_str(t).len() implies b.subrange(
        1,
        1 + enc_str(t).len() as int,
    )[i] == enc_str(t)[i] by {
        assert(b[1 + i] == enc_str(t)[i]);
    }
    assert(b.subrange(1, 1 + enc_str(t).len() as int) =~= enc_str(t));
}

/// The complete frame of a message: the payload length as 8 little-endian
/// bytes, then the payload.
pub open spec fn spec_frame(m: MsgAbs) -> Seq<u8> {
    enc_u64(spec_encode(m).len() as u64) + spec_encode(m)
}

/// Encodes a message together with its length prefix, ready to be written to
/// the stream in one piece.
pub fn encode_frame(m: &Message) -> (r: Vec<u8>)
    ensures
        r@ == spec_frame(m@),
        msg_fits(m@),
        r@.len() == 8 + spec_encode(m@).len(),
        r@.subrange(8, r@.len() as int) == spec_encode(m@),
        r@.subrange(0, 8) == enc_u64(spec_encode(m@).len() as u64),
{
    proof {
        lemma_auto_spec_u64_to_from_le_bytes();
    }
    let mut payload = encode(m);
    let mut out = u64_to_le_bytes(payload.len() as u64);
    out.append(&mut payload);
    proof {
        assert(out@ =~= spec_frame(m@));
        assert(out@.subrange(8, out@.len() as int) =~= spec_encode(m@));
        assert(out@.subrange(0, 8) =~= enc_u64(spec_encode(m@).len() as u64));
    }
    out
}

/// Reads the payload length out of an 8-byte frame prefix. The length is
/// rejected only when this host could not address a payload of that size.
pub fn parse_len_prefix(prefix: &[u8]) -> (r: Result<usize, CodecError>)
    requires
        prefix@.len() == 8,
    ensures
        r matches Ok(n) ==> n == spec_u64_from_le_bytes(prefix@) && enc_u64(n as u64) == prefix@,
        r is Err <==> spec_u64_from_le_bytes(prefix@) > usize::MAX,
{
    proof {
        lemma_auto_spec_u64_to_from_le_bytes();
    }
    let v = u64_from_le_bytes(prefix);
    if v <= usize::MAX as u64 {
        Ok(v as usize)
    } else {
        Err(CodecError::Oversize)
    }
}

} // verus!
