//! The binary wire codec for a log record and its content fingerprint.
//!
//! A record is serialized, in order, as `role`, `label`, `file`,
//! `function` (each a 64-bit little-endian byte-length prefix followed by
//! the string's UTF-8 bytes), `time`, `process_id`, `thread_id` (64-bit
//! little-endian), `line`, `level` (32-bit little-endian two's
//! complement), and the `messages` sequence: a 64-bit count prefix
//! followed by each message in the same length-prefixed string form.

use crate::bytes::{
    decode_i32, encode_i32, i32_to_u32, lemma_i32_u32_round_trip, lemma_u32_le_round_trip,
    lemma_u64_le_round_trip, push_u32_le, push_u64_le, read_u32_le, read_u64_le, u32_le,
    u32_of_le, u32_to_i32, u64_le, u64_of_le,
};
use vstd::prelude::*;
use vstd::slice::{slice_subrange, slice_to_vec};
use vstd::string::StrSliceExecFns;
use vstd::utf8::{
    decode_utf8, encode_utf8, encode_utf8_decode_utf8, encode_utf8_valid_utf8, valid_utf8,
};

verus! {

/// Why encoding or decoding a record failed.
#[derive(Clone, Copy, Debug, PartialEq, Eq, Structural)]
pub enum CodecError {
    /// The byte sequence is inconsistent with the declared structure:
    /// a truncated field, a message count exceeding the remaining bytes,
    /// embedded bytes that are not valid text, or trailing bytes.
    MalformedPayload,
    /// A string field of the record holds an interior null character.
    InvalidStringData,
}

/// A log record as it crosses the wire: the unit of ingestion.
#[derive(Debug, PartialEq)]
pub struct MessageData {
    pub role: String,
    pub label: String,
    pub file: String,
    pub function: String,
    pub time: u64,
    pub process_id: u64,
    pub thread_id: u64,
    pub line: i32,
    pub level: i32,
    pub messages: Vec<String>,
}

/// The mathematical shape of a record: each string as its character
/// sequence.
pub struct MessageView {
    pub role: Seq<char>,
    pub label: Seq<char>,
    pub file: Seq<char>,
    pub function: Seq<char>,
    pub time: u64,
    pub process_id: u64,
    pub thread_id: u64,
    pub line: i32,
    pub level: i32,
    pub messages: Seq<Seq<char>>,
}

impl View for MessageData {
    type V = MessageView;

    open spec fn view(&self) -> MessageView {
        MessageView {
            role: self.role@,
            label: self.label@,
            file: self.file@,
            function: self.function@,
            time: self.time,
            process_id: self.process_id,
            thread_id: self.thread_id,
            line: self.line,
            level: self.level,
            messages: self.messages.deep_view(),
        }
    }
}

/// Whether a character sequence holds a null character.
pub open spec fn has_nul(s: Seq<char>) -> bool {
    exists|i: int| 0 <= i < s.len() && s[i] == '\u{0}'
}

/// Whether any string field of the record holds a null character.
pub open spec fn record_has_nul(v: MessageView) -> bool {
    ||| has_nul(v.role)
    ||| has_nul(v.label)
    ||| has_nul(v.file)
    ||| has_nul(v.function)
    ||| exists|i: int| 0 <= i < v.messages.len() && has_nul(v.messages[i])
}

/// The wire form of one string: a 64-bit little-endian byte-length
/// prefix followed by the string's UTF-8 bytes.
pub open spec fn str_block(s: Seq<char>) -> Seq<u8> {
    u64_le(encode_utf8(s).len() as u64) + encode_utf8(s)
}

/// The wire form of the message sequence body, one string block per
/// message, in order.
pub open spec fn msgs_blocks(ms: Seq<Seq<char>>) -> Seq<u8>
    decreases ms.len(),
{
    if ms.len() == 0 {
        Seq::empty()
    } else {
        str_block(ms[0]) + msgs_blocks(ms.drop_first())
    }
}

proof fn lemma_msgs_blocks_push(ms: Seq<Seq<char>>, m: Seq<char>)
    ensures
        msgs_blocks(ms.push(m)) == msgs_blocks(ms) + str_block(m),
    decreases ms.len(),
{
    if ms.len() == 0 {
        assert(ms.push(m)[0] == m);
        assert(ms.push(m).drop_first() =~= Seq::<Seq<char>>::empty());
        assert(msgs_blocks(ms.push(m)) == str_block(m) + msgs_blocks(
            Seq::<Seq<char>>::empty(),
        ));
        assert(msgs_blocks(Seq::<Seq<char>>::empty()) == Seq::<u8>::empty());
        assert(msgs_blocks(ms) == Seq::<u8>::empty());
        assert(msgs_blocks(ms.push(m)) =~= msgs_blocks(ms) + str_block(m));
    } else {
        assert(ms.push(m).drop_first() =~= ms.drop_first().push(m));
        lemma_msgs_blocks_push(ms.drop_first(), m);
        assert(ms.push(m)[0] == ms[0]);
        assert(msgs_blocks(ms.push(m)) == str_block(ms[0]) + msgs_blocks(
            ms.drop_first().push(m),
        ));
        assert(msgs_blocks(ms) == str_block(ms[0]) + msgs_blocks(ms.drop_first()));
        assert(msgs_blocks(ms.push(m)) =~= msgs_blocks(ms) + str_block(m));
    }
}

/// The full wire encoding of a record.
pub open spec fn spec_encode(v: MessageView) -> Seq<u8> {
    str_block(v.role) + str_block(v.label) + str_block(v.file) + str_block(v.function) + u64_le(
        v.time,
    ) + u64_le(v.process_id) + u64_le(v.thread_id) + u32_le(i32_to_u32(v.line)) + u32_le(
        i32_to_u32(v.level),
    ) + u64_le(v.messages.len() as u64) + msgs_blocks(v.messages)
}

/// Parses one length-prefixed string at `off`; `None` on truncation or
/// bytes that are not valid UTF-8.
pub open spec fn parse_str(b: Seq<u8>, off: int) -> Option<(Seq<char>, int)> {
    if off + 8 <= b.len() {
        let n = u64_of_le(b.subrange(off, off + 8)) as int;
        if off + 8 + n <= b.len() {
            let sb = b.subrange(off + 8, off + 8 + n);
            if valid_utf8(sb) {
                Some((decode_utf8(sb), off + 8 + n))
            } else {
                None
            }
        } else {
            None
        }
    } else {
        None
    }
}

/// Parses a 64-bit little-endian value at `off`; `None` on truncation.
pub open spec fn parse_u64(b: Seq<u8>, off: int) -> Option<(u64, int)> {
    if off + 8 <= b.len() {
        Some((u64_of_le(b.subrange(off, off + 8)), off + 8))
    } else {
        None
    }
}

/// Parses a 32-bit two's-complement value at `off`; `None` on truncation.
pub open spec fn parse_i32(b: Seq<u8>, off: int) -> Option<(i32, int)> {
    if off + 4 <= b.len() {
        Some((u32_to_i32(u32_of_le(b.subrange(off, off + 4))), off + 4))
    } else {
        None
    }
}

/// Parses `n` length-prefixed strings starting at `off`.
pub open spec fn parse_msgs(b: Seq<u8>, off: int, n: nat) -> Option<(Seq<Seq<char>>, int)>
    decreases n,
{
    if n == 0 {
        Some((Seq::empty(), off))
    } else {
        match parse_str(b, off) {
            None => None,
            Some((s, o2)) => match parse_msgs(b, o2, (n - 1) as nat) {
                None => None,
                Some((rest, o3)) => Some((seq![s] + rest, o3)),
            },
        }
    }
}

/// The record encoded by `b`, if `b` is exactly the wire form of one
/// record.
pub open spec fn spec_decode(b: Seq<u8>) -> Option<MessageView> {
    match parse_str(b, 0) {
        None => None,
        Some((role, o1)) => match parse_str(b, o1) {
            None => None,
            Some((label, o2)) => match parse_str(b, o2) {
                None => None,
                Some((file, o3)) => match parse_str(b, o3) {
                    None => None,
                    Some((function, o4)) => match parse_u64(b, o4) {
                        None => None,
                        Some((time, o5)) => match parse_u64(b, o5) {
                            None => None,
                            Some((process_id, o6)) => match parse_u64(b, o6) {
                                None => None,
                                Some((thread_id, o7)) => match parse_i32(b, o7) {
                                    None => None,
                                    Some((line, o8)) => match parse_i32(b, o8) {
                                        None => None,
                                        Some((level, o9)) => match parse_u64(b, o9) {
                                            None => None,
                                            Some((count, o10)) => match parse_msgs(
                                                b,
                                                o10,
                                                count as nat,
                                            ) {
                                                None => None,
                                                Some((messages, o11)) => if o11 == b.len() {
                                                    Some(
                                                        MessageView {
                                                            role,
                                                            label,
                                                            file,
                                                            function,
                                                            time,
                                                            process_id,
                                                            thread_id,
                                                            line,
                                                            level,
                                                            messages,
                                                        },
                                                    )
                                                } else {
                                                    None
                                                },
                                            },
                                        },
                                    },
                                },
                            },
                        },
                    },
                },
            },
        },
    }
}

/// Whether `s@` holds a null character, found by scanning the characters.
fn str_has_nul(s: &str) -> (r: bool)
    ensures
        r == has_nul(s@),
{
    let n = s.unicode_len();
    let mut i: usize = 0;
    while i < n
        invariant
            n == s@.len(),
            0 <= i <= n,
            forall|j: int| 0 <= j < i ==> s@[j] != '\u{0}',
        decreases n - i,
    {
        if s.get_char(i) == '\u{0}' {
            return true;
        }
        i += 1;
    }
    false
}

/// Appends the wire form of one string.
fn encode_str(out: &mut Vec<u8>, s: &String)
    ensures
        final(out)@ == old(out)@ + str_block(s@),
{
    let mut bv = s.as_str().as_bytes_vec();
    let n: u64 = bv.len() as u64;
    push_u64_le(out, n);
    out.append(&mut bv);
    assert(final(out)@ =~= old(out)@ + str_block(s@));
}

impl MessageData {
    /// Encodes the record to its binary wire form; fails with
    /// `InvalidStringData` exactly when a string field holds a null
    /// character.
    pub fn encode(&self) -> (r: Result<Vec<u8>, CodecError>)
        ensures
            r is Ok <==> !record_has_nul(self@),
            r is Ok ==> r->Ok_0@ == spec_encode(self@),
            r is Err ==> r->Err_0 == CodecError::InvalidStringData,
    {
        if str_has_nul(self.role.as_str()) || str_has_nul(self.label.as_str()) || str_has_nul(
            self.file.as_str(),
        ) || str_has_nul(self.function.as_str()) {
            return Err(CodecError::InvalidStringData);
        }
        let n = self.messages.len();
        let mut i: usize = 0;
        while i < n
            invariant
                n == self.messages.len(),
                0 <= i <= n,
                forall|j: int| 0 <= j < i ==> !has_nul(self@.messages[j]),
            decreases n - i,
        {
            if str_has_nul(self.messages[i].as_str()) {
                assert(self@.messages[i as int] == self.messages@[i as int]@);
                return Err(CodecError::InvalidStringData);
            }
            assert(self@.messages[i as int] == self.messages@[i as int]@);
            i += 1;
        }
        let mut out: Vec<u8> = Vec::new();
        encode_str(&mut out, &self.role);
        encode_str(&mut out, &self.label);
        encode_str(&mut out, &self.file);
        encode_str(&mut out, &self.function);
        push_u64_le(&mut out, self.time);
        push_u64_le(&mut out, self.process_id);
        push_u64_le(&mut out, self.thread_id);
        push_u32_le(&mut out, encode_i32(self.line));
        push_u32_le(&mut out, encode_i32(self.level));
        push_u64_le(&mut out, n as u64);
        let ghost base = out@;
        let mut k: usize = 0;
        while k < n
            invariant
                n == self.messages.len(),
                0 <= k <= n,
                out@ == base + msgs_blocks(self@.messages.take(k as int)),
            decreases n - k,
        {
            encode_str(&mut out, &self.messages[k]);
            proof {
                assert(self@.messages.take(k as int).push(self@.messages[k as int])
                    =~= self@.messages.take(k as int + 1));
                lemma_msgs_blocks_push(self@.messages.take(k as int), self@.messages[k as int]);
                assert(self.messages@[k as int]@ == self@.messages[k as int]);
            }
            k += 1;
            assert(out@ =~= base + msgs_blocks(self@.messages.take(k as int)));
        }
        proof {
            assert(self@.messages.take(n as int) =~= self@.messages);
            assert(self@.messages.len() == self.messages@.len());
            assert(out@ =~= spec_encode(self@));
        }
        Ok(out)
    }
}

/// Relies on String::from_utf8: it succeeds exactly on valid UTF-8
/// input and returns the string those bytes encode.
#[verifier::external_body]
fn bytes_to_string(v: Vec<u8>) -> (r: Option<String>)
    ensures
        r is Some <==> valid_utf8(v@),
        r is Some ==> encode_utf8(r->0@) == v@,
{
    match String::from_utf8(v) {
        Ok(s) => Some(s),
        Err(_) => None,
    }
}

/// Reads one length-prefixed string at `off`.
fn decode_str(data: &Vec<u8>, off: usize) -> (r: Result<(String, usize), CodecError>)
    requires
        off <= data@.len(),
    ensures
        match parse_str(data@, off as int) {
            Some(p) => r is Ok && r->Ok_0.0@ == p.0 && r->Ok_0.1 == p.1,
            None => r is Err && r->Err_0 == CodecError::MalformedPayload,
        },
{
    let len: usize = data.len();
    if len - off < 8 {
        return Err(CodecError::MalformedPayload);
    }
    let n64 = read_u64_le(data, off);
    let rem: usize = len - (off + 8);
    if n64 > rem as u64 {
        return Err(CodecError::MalformedPayload);
    }
    let n = n64 as usize;
    let sb = slice_subrange(data.as_slice(), off + 8, off + 8 + n);
    let bvec = slice_to_vec(sb);
    match bytes_to_string(bvec) {
        Some(s) => {
            proof {
                encode_utf8_decode_utf8(s@);
            }
            Ok((s, off + 8 + n))
        },
        None => Err(CodecError::MalformedPayload),
    }
}

/// Reads a 64-bit little-endian value at `off`.
fn decode_u64(data: &Vec<u8>, off: usize) -> (r: Result<(u64, usize), CodecError>)
    requires
        off <= data@.len(),
    ensures
        match parse_u64(data@, off as int) {
            Some(p) => r is Ok && r->Ok_0.0 == p.0 && r->Ok_0.1 == p.1,
            None => r is Err && r->Err_0 == CodecError::MalformedPayload,
        },
{
    let len: usize = data.len();
    if len - off < 8 {
        return Err(CodecError::MalformedPayload);
    }
    let x = read_u64_le(data, off);
    Ok((x, off + 8))
}

/// Reads a 32-bit two's-complement value at `off`.
fn decode_i32_at(data: &Vec<u8>, off: usize) -> (r: Result<(i32, usize), CodecError>)
    requires
        off <= data@.len(),
    ensures
        match parse_i32(data@, off as int) {
            Some(p) => r is Ok && r->Ok_0.0 == p.0 && r->Ok_0.1 == p.1,
            None => r is Err && r->Err_0 == CodecError::MalformedPayload,
        },
{
    let len: usize = data.len();
    if len - off < 4 {
        return Err(CodecError::MalformedPayload);
    }
    let x = read_u32_le(data, off);
    Ok((decode_i32(x), off + 4))
}

impl MessageData {
    /// Decodes the binary wire form back into a record; fails with
    /// `MalformedPayload` exactly when the bytes are not the wire form
    /// of one record.
    #[verifier::rlimit(50)]
    pub fn from_bytes(data: &Vec<u8>) -> (r: Result<MessageData, CodecError>)
        ensures
            match spec_decode(data@) {
                Some(v) => r is Ok && r->Ok_0@ == v,
                None => r is Err && r->Err_0 == CodecError::MalformedPayload,
            },
    {
        let (role, o1) = match decode_str(data, 0) {
            Ok(p) => p,
            Err(e) => { return Err(e) },
        };
        let (label, o2) = match decode_str(data, o1) {
            Ok(p) => p,
            Err(e) => { return Err(e) },
        };
        let (file, o3) = match decode_str(data, o2) {
            Ok(p) => p,
            Err(e) => { return Err(e) },
        };
        let (function, o4) = match decode_str(data, o3) {
            Ok(p) => p,
            Err(e) => { return Err(e) },
        };
        let (time, o5) = match decode_u64(data, o4) {
            Ok(p) => p,
            Err(e) => { return Err(e) },
        };
        let (process_id, o6) = match decode_u64(data, o5) {
            Ok(p) => p,
            Err(e) => { return Err(e) },
        };
        let (thread_id, o7) = match decode_u64(data, o6) {
            Ok(p) => p,
            Err(e) => { return Err(e) },
        };
        let (line, o8) = match decode_i32_at(data, o7) {
            Ok(p) => p,
            Err(e) => { return Err(e) },
        };
        let (level, o9) = match decode_i32_at(data, o8) {
            Ok(p) => p,
            Err(e) => { return Err(e) },
        };
        let (count, o10) = match decode_u64(data, o9) {
            Ok(p) => p,
            Err(e) => { return Err(e) },
        };
        let ghost full = parse_msgs(data@, o10 as int, count as nat);
        proof {
            assert(spec_decode(data@) == (match full {
                None => None::<MessageView>,
                Some((ms, oend)) => if oend == data@.len() {
                    Some(
                        MessageView {
                            role: role@,
                            label: label@,
                            file: file@,
                            function: function@,
                            time,
                            process_id,
                            thread_id,
                            line,
                            level,
                            messages: ms,
                        },
                    )
                } else {
                    None
                },
            }));
        }
        let mut msgs: Vec<String> = Vec::new();
        let mut off: usize = o10;
        let mut k: u64 = 0;
        while k < count
            invariant
                off <= data@.len(),
                k <= count,
                msgs.deep_view().len() == k,
                full == match parse_msgs(data@, off as int, (count - k) as nat) {
                    None => None::<(Seq<Seq<char>>, int)>,
                    Some(p) => Some((msgs.deep_view() + p.0, p.1)),
                },
                spec_decode(data@) == (match full {
                    None => None::<MessageView>,
                    Some((ms, oend)) => if oend == data@.len() {
                        Some(
                            MessageView {
                                role: role@,
                                label: label@,
                                file: file@,
                                function: function@,
                                time,
                                process_id,
                                thread_id,
                                line,
                                level,
                                messages: ms,
                            },
                        )
                    } else {
                        None
                    },
                }),
            decreases count - k,
        {
            match decode_str(data, off) {
                Err(_) => {
                    proof {
                        assert((count - k) as nat != 0);
                        assert(parse_str(data@, off as int) is None);
                        assert(parse_msgs(data@, off as int, (count - k) as nat) is None);
                        assert(full is None);
                    }
                    return Err(CodecError::MalformedPayload);
                },
                Ok((s, noff)) => {
                    let ghost prefix = msgs.deep_view();
                    msgs.push(s);
                    proof {
                        assert(msgs.deep_view() =~= prefix.push(s@));
                        if parse_msgs(data@, noff as int, (count - k - 1) as nat) is Some {
                            let p = parse_msgs(data@, noff as int, (count - k - 1) as nat)->0;
                            assert(prefix + (seq![s@] + p.0) =~= prefix.push(s@) + p.0);
                        }
                    }
                    off = noff;
                    k = k + 1;
                },
            }
        }
        assert(parse_msgs(data@, off as int, 0) == Some((Seq::<Seq<char>>::empty(), off as int)));
        assert(msgs.deep_view() + Seq::<Seq<char>>::empty() =~= msgs.deep_view());
        if off != data.len() {
            return Err(CodecError::MalformedPayload);
        }
        let m = MessageData { role, label, file, function, time, process_id, thread_id, line, level, messages: msgs };
        Ok(m)
    }
}

/// Which size bounds a record must meet so that its lengths fit the
/// 64-bit prefixes of the wire form; every record held in memory meets
/// them.
pub open spec fn wf_record(v: MessageView) -> bool {
    &&& encode_utf8(v.role).len() < 0x1_0000_0000_0000_0000
    &&& encode_utf8(v.label).len() < 0x1_0000_0000_0000_0000
    &&& encode_utf8(v.file).len() < 0x1_0000_0000_0000_0000
    &&& encode_utf8(v.function).len() < 0x1_0000_0000_0000_0000
    &&& v.messages.len() < 0x1_0000_0000_0000_0000
    &&& forall|i: int|
        0 <= i < v.messages.len() ==> encode_utf8(#[trigger] v.messages[i]).len()
            < 0x1_0000_0000_0000_0000
}

proof fn lemma_parse_str_block(b: Seq<u8>, off: int, s: Seq<char>)
    requires
        0 <= off,
        encode_utf8(s).len() < 0x1_0000_0000_0000_0000,
        off + 8 + encode_utf8(s).len() <= b.len(),
        b.subrange(off, off + 8 + encode_utf8(s).len() as int) == str_block(s),
    ensures
        parse_str(b, off) == Some((s, off + 8 + encode_utf8(s).len())),
{
    let n = encode_utf8(s).len() as int;
    let blk = str_block(s);
    assert(blk.len() == 8 + n);
    assert forall|j: int| 0 <= j < 8 implies #[trigger] b.subrange(off, off + 8)[j] == u64_le(
        n as u64,
    )[j] by {
        assert(b.subrange(off, off + 8)[j] == b[off + j]);
        assert(b.subrange(off, off + 8 + n)[j] == b[off + j]);
        assert(blk[j] == u64_le(n as u64)[j]);
    }
    assert(b.subrange(off, off + 8) =~= u64_le(n as u64));
    lemma_u64_le_round_trip(n as u64);
    assert(u64_of_le(b.subrange(off, off + 8)) == n as u64);
    assert forall|j: int| 0 <= j < n implies #[trigger] b.subrange(off + 8, off + 8 + n)[j]
        == encode_utf8(s)[j] by {
        assert(b.subrange(off + 8, off + 8 + n)[j] == b[off + 8 + j]);
        assert(b.subrange(off, off + 8 + n)[8 + j] == b[off + (8 + j)]);
        assert(blk[8 + j] == encode_utf8(s)[j]);
    }
    assert(b.subrange(off + 8, off + 8 + n) =~= encode_utf8(s));
    encode_utf8_valid_utf8(s);
    encode_utf8_decode_utf8(s);
}

proof fn lemma_parse_u64_at(b: Seq<u8>, off: int, x: u64)
    requires
        0 <= off,
        off + 8 <= b.len(),
        b.subrange(off, off + 8) == u64_le(x),
    ensures
        parse_u64(b, off) == Some((x, off + 8)),
{
    lemma_u64_le_round_trip(x);
}

proof fn lemma_parse_i32_at(b: Seq<u8>, off: int, x: i32)
    requires
        0 <= off,
        off + 4 <= b.len(),
        b.subrange(off, off + 4) == u32_le(i32_to_u32(x)),
    ensures
        parse_i32(b, off) == Some((x, off + 4)),
{
    lemma_u32_le_round_trip(i32_to_u32(x));
    lemma_i32_u32_round_trip(x);
}

proof fn lemma_parse_msgs_blocks(b: Seq<u8>, off: int, ms: Seq<Seq<char>>)
    requires
        0 <= off,
        forall|i: int|
            0 <= i < ms.len() ==> encode_utf8(#[trigger] ms[i]).len() < 0x1_0000_0000_0000_0000,
        off + msgs_blocks(ms).len() <= b.len(),
        b.subrange(off, off + msgs_blocks(ms).len() as int) == msgs_blocks(ms),
    ensures
        parse_msgs(b, off, ms.len()) == Some((ms, off + msgs_blocks(ms).len())),
    decreases ms.len(),
{
    if ms.len() == 0 {
        assert(ms =~= Seq::<Seq<char>>::empty());
    } else {
        let blk = str_block(ms[0]);
        let rest = msgs_blocks(ms.drop_first());
        let total = msgs_blocks(ms);
        assert(total == blk + rest);
        let n = encode_utf8(ms[0]).len() as int;
        assert(blk.len() == 8 + n);
        assert forall|j: int| 0 <= j < blk.len() implies #[trigger] b.subrange(off, off + 8 + n)[j]
            == blk[j] by {
            assert(b.subrange(off, off + 8 + n)[j] == b[off + j]);
            assert(b.subrange(off, off + total.len() as int)[j] == b[off + j]);
            assert(total[j] == blk[j]);
        }
        assert(b.subrange(off, off + 8 + n) =~= blk);
        lemma_parse_str_block(b, off, ms[0]);
        assert forall|j: int| 0 <= j < rest.len() implies #[trigger] b.subrange(
            off + blk.len(),
            off + blk.len() + rest.len() as int,
        )[j] == rest[j] by {
            assert(b.subrange(off + blk.len(), off + blk.len() + rest.len() as int)[j] == b[off
                + blk.len() + j]);
            assert(b.subrange(off, off + total.len() as int)[blk.len() + j] == b[off + (blk.len()
                + j)]);
            assert(total[blk.len() + j] == rest[j]);
        }
        assert(b.subrange(off + blk.len(), off + blk.len() + rest.len() as int) =~= rest);
        lemma_parse_msgs_blocks(b, off + blk.len(), ms.drop_first());
        assert(ms.drop_first().len() == ms.len() - 1);
        assert(seq![ms[0]] + ms.drop_first() =~= ms);
        assert(parse_msgs(b, off, ms.len()) == Some((ms, off + total.len())));
    }
}

proof fn lemma_prefix_split(e: Seq<u8>, a: int, x: Seq<u8>, y: Seq<u8>)
    requires
        0 <= a <= e.len(),
        e.subrange(0, a) == x + y,
    ensures
        e.subrange(0, a - y.len()) == x,
        e.subrange(a - y.len(), a) == y,
{
    assert(e.subrange(0, a).len() == a);
    assert((x + y).len() == x.len() + y.len());
    assert(a - y.len() == x.len());
    assert forall|i: int| 0 <= i < x.len() implies #[trigger] e.subrange(0, a - y.len() as int)[i]
        == x[i] by {
        assert(e.subrange(0, a)[i] == e[i]);
        assert((x + y)[i] == x[i]);
        assert(e.subrange(0, a - y.len() as int)[i] == e[i]);
    }
    assert(e.subrange(0, a - y.len()) =~= x);
    assert forall|j: int| 0 <= j < y.len() implies #[trigger] e.subrange(a - y.len() as int, a)[j]
        == y[j] by {
        assert(e.subrange(0, a)[x.len() + j] == e[x.len() + j]);
        assert((x + y)[x.len() + j] == y[j]);
        assert(e.subrange(a - y.len() as int, a)[j] == e[(a - y.len()) + j]);
    }
    assert(e.subrange(a - y.len(), a) =~= y);
}

/// The length of one string's wire block.
pub open spec fn sb_len(s: Seq<char>) -> int {
    8 + encode_utf8(s).len() as int
}

/// The offset just past the four header strings of the wire form.
pub open spec fn hdr_end(v: MessageView) -> int {
    sb_len(v.role) + sb_len(v.label) + sb_len(v.file) + sb_len(v.function)
}

#[verifier::rlimit(100)]
proof fn lemma_encode_subranges(v: MessageView)
    requires
        wf_record(v),
    ensures
        spec_encode(v).len() == hdr_end(v) + 40 + msgs_blocks(v.messages).len(),
        spec_encode(v).subrange(0, sb_len(v.role)) == str_block(v.role),
        spec_encode(v).subrange(sb_len(v.role), sb_len(v.role) + sb_len(v.label)) == str_block(
            v.label,
        ),
        spec_encode(v).subrange(
            sb_len(v.role) + sb_len(v.label),
            sb_len(v.role) + sb_len(v.label) + sb_len(v.file),
        ) == str_block(v.file),
        spec_encode(v).subrange(sb_len(v.role) + sb_len(v.label) + sb_len(v.file), hdr_end(v))
            == str_block(v.function),
        spec_encode(v).subrange(hdr_end(v), hdr_end(v) + 8) == u64_le(v.time),
        spec_encode(v).subrange(hdr_end(v) + 8, hdr_end(v) + 16) == u64_le(v.process_id),
        spec_encode(v).subrange(hdr_end(v) + 16, hdr_end(v) + 24) == u64_le(v.thread_id),
        spec_encode(v).subrange(hdr_end(v) + 24, hdr_end(v) + 28) == u32_le(i32_to_u32(v.line)),
        spec_encode(v).subrange(hdr_end(v) + 28, hdr_end(v) + 32) == u32_le(i32_to_u32(v.level)),
        spec_encode(v).subrange(hdr_end(v) + 32, hdr_end(v) + 40) == u64_le(
            v.messages.len() as u64,
        ),
        spec_encode(v).subrange(hdr_end(v) + 40, spec_encode(v).len() as int) == msgs_blocks(
            v.messages,
        ),
{
    let e = spec_encode(v);
    let b1 = str_block(v.role);
    let b2 = str_block(v.label);
    let b3 = str_block(v.file);
    let b4 = str_block(v.function);
    let b5 = u64_le(v.time);
    let b6 = u64_le(v.process_id);
    let b7 = u64_le(v.thread_id);
    let b8 = u32_le(i32_to_u32(v.line));
    let b9 = u32_le(i32_to_u32(v.level));
    let b10 = u64_le(v.messages.len() as u64);
    let b11 = msgs_blocks(v.messages);
    let p1 = b1;
    let p2 = p1 + b2;
    let p3 = p2 + b3;
    let p4 = p3 + b4;
    let p5 = p4 + b5;
    let p6 = p5 + b6;
    let p7 = p6 + b7;
    let p8 = p7 + b8;
    let p9 = p8 + b9;
    let p10 = p9 + b10;
    let o1 = b1.len() as int;
    let o2 = o1 + b2.len();
    let o3 = o2 + b3.len();
    let o4 = o3 + b4.len();
    let o5 = o4 + 8;
    let o6 = o5 + 8;
    let o7 = o6 + 8;
    let o8 = o7 + 4;
    let o9 = o8 + 4;
    let o10 = o9 + 8;
    let o11 = o10 + b11.len();
    assert(e == p10 + b11);
    assert(e.len() == o11);
    assert(e.subrange(0, o11) =~= e);
    lemma_prefix_split(e, o11, p10, b11);
    lemma_prefix_split(e, o10, p9, b10);
    lemma_prefix_split(e, o9, p8, b9);
    lemma_prefix_split(e, o8, p7, b8);
    lemma_prefix_split(e, o7, p6, b7);
    lemma_prefix_split(e, o6, p5, b6);
    lemma_prefix_split(e, o5, p4, b5);
    lemma_prefix_split(e, o4, p3, b4);
    lemma_prefix_split(e, o3, p2, b3);
    lemma_prefix_split(e, o2, p1, b2);
}

#[verifier::rlimit(100)]
proof fn lemma_encode_parses(v: MessageView)
    requires
        wf_record(v),
    ensures
        parse_str(spec_encode(v), 0) == Some((v.role, sb_len(v.role))),
        parse_str(spec_encode(v), sb_len(v.role)) == Some(
            (v.label, sb_len(v.role) + sb_len(v.label)),
        ),
        parse_str(spec_encode(v), sb_len(v.role) + sb_len(v.label)) == Some(
            (v.file, sb_len(v.role) + sb_len(v.label) + sb_len(v.file)),
        ),
        parse_str(spec_encode(v), sb_len(v.role) + sb_len(v.label) + sb_len(v.file)) == Some(
            (v.function, hdr_end(v)),
        ),
        parse_u64(spec_encode(v), hdr_end(v)) == Some((v.time, hdr_end(v) + 8)),
        parse_u64(spec_encode(v), hdr_end(v) + 8) == Some((v.process_id, hdr_end(v) + 16)),
        parse_u64(spec_encode(v), hdr_end(v) + 16) == Some((v.thread_id, hdr_end(v) + 24)),
        parse_i32(spec_encode(v), hdr_end(v) + 24) == Some((v.line, hdr_end(v) + 28)),
        parse_i32(spec_encode(v), hdr_end(v) + 28) == Some((v.level, hdr_end(v) + 32)),
        parse_u64(spec_encode(v), hdr_end(v) + 32) == Some(
            (v.messages.len() as u64, hdr_end(v) + 40),
        ),
        parse_msgs(spec_encode(v), hdr_end(v) + 40, v.messages.len()) == Some(
            (v.messages, spec_encode(v).len() as int),
        ),
{
    lemma_encode_subranges(v);
    let e = spec_encode(v);
    let o1 = sb_len(v.role);
    let o2 = o1 + sb_len(v.label);
    let o3 = o2 + sb_len(v.file);
    let o4 = hdr_end(v);
    lemma_parse_str_block(e, 0, v.role);
    lemma_parse_str_block(e, o1, v.label);
    lemma_parse_str_block(e, o2, v.file);
    lemma_parse_str_block(e, o3, v.function);
    lemma_parse_u64_at(e, o4, v.time);
    lemma_parse_u64_at(e, o4 + 8, v.process_id);
    lemma_parse_u64_at(e, o4 + 16, v.thread_id);
    lemma_parse_i32_at(e, o4 + 24, v.line);
    lemma_parse_i32_at(e, o4 + 28, v.level);
    lemma_parse_u64_at(e, o4 + 32, v.messages.len() as u64);
    lemma_parse_msgs_blocks(e, o4 + 40, v.messages);
}

/// Law: decoding inverts encoding — for every record, the wire form
/// decodes back to the record, field by field, including an empty or
/// Unicode-bearing message sequence.
#[verifier::rlimit(100)]
pub proof fn lemma_encode_decode(v: MessageView)
    requires
        wf_record(v),
    ensures
        spec_decode(spec_encode(v)) == Some(v),
{
    lemma_encode_parses(v);
    assert((v.messages.len() as u64) as nat == v.messages.len());
}

/// The offset basis of the 64-bit FNV-1a hash.
pub const FNV_OFFSET_BASIS: u64 = 0xcbf2_9ce4_8422_2325;

/// The multiplier of the 64-bit FNV-1a hash.
pub const FNV_PRIME: u64 = 0x100_0000_01b3;

/// One step of the fingerprint: fold a byte into the running hash.
pub open spec fn fnv1a_step(h: u64, byte: u8) -> u64 {
    vstd::wrapping::u64_specs::wrapping_mul(h ^ (byte as u64), FNV_PRIME)
}

/// The 64-bit FNV-1a hash of a byte sequence: the deterministic,
/// order-sensitive content fingerprint of an encoded record.
pub open spec fn spec_fingerprint(b: Seq<u8>) -> u64
    decreases b.len(),
{
    if b.len() == 0 {
        FNV_OFFSET_BASIS
    } else {
        fnv1a_step(spec_fingerprint(b.drop_last()), b.last())
    }
}

/// Computes the content fingerprint of a byte sequence.
pub fn fingerprint(data: &Vec<u8>) -> (r: u64)
    ensures
        r == spec_fingerprint(data@),
{
    let mut h: u64 = FNV_OFFSET_BASIS;
    let n = data.len();
    let mut i: usize = 0;
    while i < n
        invariant
            n == data@.len(),
            0 <= i <= n,
            h == spec_fingerprint(data@.take(i as int)),
        decreases n - i,
    {
        h = (h ^ (data[i] as u64)).wrapping_mul(FNV_PRIME);
        proof {
            let t = data@.take(i as int + 1);
            assert(t.drop_last() =~= data@.take(i as int));
            assert(t.last() == data@[i as int]);
        }
        i += 1;
    }
    proof {
        assert(data@.take(n as int) =~= data@);
    }
    h
}

/// Law: the fingerprint is a function of the encoded bytes alone, so
/// equal encodings always carry equal fingerprints.
pub proof fn lemma_fingerprint_of_bytes(b1: Seq<u8>, b2: Seq<u8>)
    requires
        b1 == b2,
    ensures
        spec_fingerprint(b1) == spec_fingerprint(b2),
{
}

impl Clone for MessageData {
    /// Clones the record, preserving every field.
    fn clone(&self) -> (r: Self)
        ensures
            r@ == self@,
    {
        MessageData {
            role: self.role.clone(),
            label: self.label.clone(),
            file: self.file.clone(),
            function: self.function.clone(),
            time: self.time,
            process_id: self.process_id,
            thread_id: self.thread_id,
            line: self.line,
            level: self.level,
            messages: crate::strutil::clone_strings(&self.messages),
        }
    }
}

impl MessageData {
    /// The content fingerprint of this record's wire form.
    pub fn hash(&self) -> (r: u64)
        requires
            !record_has_nul(self@),
        ensures
            r == spec_fingerprint(spec_encode(self@)),
    {
        match self.encode() {
            Ok(b) => fingerprint(&b),
            Err(_) => vstd::pervasive::unreached(),
        }
    }
}

} // verus!
