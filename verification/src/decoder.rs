//! The RESP decoder: a byte-stream state machine that consumes bytes from an
//! exclusive, ordered byte source and produces fully-formed values,
//! recursively. Any failure aborts the current decode entirely; the decoder
//! must not be reused after a failure.
use crate::numbers::parse_int_spec;
use crate::value::{models_of, utf8_string, RedisValue, ValueModel};
use vstd::prelude::*;
use vstd::utf8::{encode_utf8, valid_utf8};

verus! {

broadcast use
    vstd::std_specs::vec::group_vec_axioms,
    vstd::seq::group_seq_axioms,
    vstd::utf8::decode_utf8_encode_utf8;

/// Splits a byte sequence at its first CR LF pair: the bytes before the
/// pair, and the bytes after it. A CR not followed by LF is ordinary
/// content, not a terminator. `None` when no CR LF pair exists.
pub open spec fn line_split(b: Seq<u8>) -> Option<(Seq<u8>, Seq<u8>)>
    decreases b.len(),
{
    if b.len() < 2 {
        None
    } else if b[0] == 13 && b[1] == 10 {
        Some((Seq::empty(), b.skip(2)))
    } else {
        match line_split(b.skip(1)) {
            Some((l, r)) => Some((seq![b[0]] + l, r)),
            None => None,
        }
    }
}

/// A line and its terminator account for the whole consumed prefix.
pub proof fn lemma_line_split_len(b: Seq<u8>)
    ensures
        match line_split(b) {
            Some((l, r)) => l.len() + 2 + r.len() == b.len(),
            None => true,
        },
    decreases b.len(),
{
    if b.len() >= 2 && !(b[0] == 13 && b[1] == 10) {
        lemma_line_split_len(b.skip(1));
    }
}

/// Without a CR LF pair anywhere, no line can be read.
pub proof fn lemma_line_split_none(b: Seq<u8>)
    requires
        forall|i: int| #![trigger b[i]] 0 <= i && i + 1 < b.len() ==> !(b[i] == 13 && b[i + 1] == 10),
    ensures
        line_split(b) is None,
    decreases b.len(),
{
    if b.len() >= 2 {
        assert(!(b[0] == 13 && b[1] == 10));
        let t = b.skip(1);
        assert forall|i: int| #![trigger t[i]] 0 <= i && i + 1 < t.len() implies !(t[i] == 13
            && t[i + 1] == 10) by {
            assert(t[i] == b[i + 1] && t[i + 1] == b[i + 2]);
        }
        lemma_line_split_none(t);
    }
}

/// With the first CR LF pair starting at `j`, the line is everything before
/// `j` and the rest is everything after the pair.
pub proof fn lemma_line_split_at(b: Seq<u8>, j: int)
    requires
        0 <= j,
        j + 1 < b.len(),
        b[j] == 13 && b[j + 1] == 10,
        forall|i: int| #![trigger b[i]] 0 <= i < j ==> !(b[i] == 13 && b[i + 1] == 10),
    ensures
        line_split(b) == Some((b.take(j), b.skip(j + 2))),
    decreases j,
{
    if j == 0 {
        assert(b.take(0) =~= Seq::<u8>::empty());
    } else {
        assert(!(b[0] == 13 && b[1] == 10));
        let t = b.skip(1);
        assert(t[j - 1] == 13 && t[j] == 10);
        assert forall|i: int| #![trigger t[i]] 0 <= i < j - 1 implies !(t[i] == 13 && t[i + 1]
            == 10) by {
            assert(t[i] == b[i + 1] && t[i + 1] == b[i + 2]);
        }
        lemma_line_split_at(t, j - 1);
        assert(seq![b[0]] + t.take(j - 1) =~= b.take(j));
        assert(t.skip(j + 1) =~= b.skip(j + 2));
    }
}

/// A line with no internal CR LF pair, framed by CR LF, splits back into
/// exactly that line and the trailing rest.
pub proof fn lemma_line_split_exact(line: Seq<u8>, rest: Seq<u8>)
    requires
        crate::value::no_crlf(line),
    ensures
        line_split(line + seq![13u8, 10u8] + rest) == Some((line, rest)),
{
    let b = line + seq![13u8, 10u8] + rest;
    let j = line.len() as int;
    assert(b[j] == 13 && b[j + 1] == 10);
    assert forall|i: int| #![trigger b[i]] 0 <= i < j implies !(b[i] == 13 && b[i + 1] == 10) by {
        assert(b[i] == line[i]);
        if i + 1 < line.len() {
            assert(b[i + 1] == line[i + 1]);
        } else {
            assert(b[i + 1] == 13);
        }
    }
    lemma_line_split_at(b, j);
    assert(b.take(j) =~= line);
    assert(b.skip(j + 2) =~= rest);
}

/// Decodes a signed-integer line: the line before the first CR LF, parsed
/// as a decimal 64-bit integer.
pub open spec fn spec_decode_integer(t: Seq<u8>) -> Option<(i64, Seq<u8>)> {
    match line_split(t) {
        Some((l, rest)) => match parse_int_spec(l) {
            Some(n) => Some((n, rest)),
            None => None,
        },
        None => None,
    }
}

/// Decodes a simple-string body: one line, which must be valid UTF-8.
pub open spec fn spec_decode_string(t: Seq<u8>) -> Option<(ValueModel, Seq<u8>)> {
    match line_split(t) {
        Some((l, rest)) => if valid_utf8(l) {
            Some((ValueModel::String(l), rest))
        } else {
            None
        },
        None => None,
    }
}

/// Decodes an error body: same framing as a simple string, distinct tag.
pub open spec fn spec_decode_error(t: Seq<u8>) -> Option<(ValueModel, Seq<u8>)> {
    match line_split(t) {
        Some((l, rest)) => if valid_utf8(l) {
            Some((ValueModel::Error(l), rest))
        } else {
            None
        },
        None => None,
    }
}

/// Decodes a bulk-string body: a signed length line; -1 denotes Null, any
/// other negative length fails, and otherwise exactly that many raw bytes
/// must follow, terminated by CR LF exactly.
pub open spec fn spec_decode_bulk(t: Seq<u8>) -> Option<(ValueModel, Seq<u8>)> {
    match spec_decode_integer(t) {
        Some((n, rest)) => if n == -1 {
            Some((ValueModel::Null, rest))
        } else if n < 0 {
            None
        } else if rest.len() >= n + 2 && rest[n as int] == 13 && rest[n as int + 1] == 10 {
            Some((ValueModel::BulkString(rest.take(n as int)), rest.skip(n as int + 2)))
        } else {
            None
        },
        None => None,
    }
}

/// Decodes one complete value from the front of `b`: the value and the
/// bytes left over. `None` exactly when `b` does not begin with a complete,
/// well-formed value.
pub open spec fn spec_decode(b: Seq<u8>) -> Option<(ValueModel, Seq<u8>)>
    decreases b.len(), 0int, 0int,
{
    if b.len() == 0 {
        None
    } else {
        let t = b.skip(1);
        if b[0] == 36 {
            spec_decode_bulk(t)
        } else if b[0] == 42 {
            spec_decode_array(t)
        } else if b[0] == 43 {
            spec_decode_string(t)
        } else if b[0] == 45 {
            spec_decode_error(t)
        } else if b[0] == 58 {
            match spec_decode_integer(t) {
                Some((n, rest)) => Some((ValueModel::Integer(n as int), rest)),
                None => None,
            }
        } else {
            None
        }
    }
}

/// Decodes an array body: a signed element-count line (negative counts are
/// a hard protocol error), then that many recursively decoded elements.
pub open spec fn spec_decode_array(t: Seq<u8>) -> Option<(ValueModel, Seq<u8>)>
    decreases t.len(), 2int, 0int,
    via spec_decode_array_decreases
{
    match spec_decode_integer(t) {
        Some((n, rest)) => if n < 0 {
            None
        } else {
            match spec_decode_many(rest, n as int) {
                Some((vs, r2)) => Some((ValueModel::Array(vs), r2)),
                None => None,
            }
        },
        None => None,
    }
}

#[via_fn]
proof fn spec_decode_array_decreases(t: Seq<u8>) {
    lemma_line_split_len(t);
}

/// Decodes `n` consecutive values from the front of `b`, in order.
pub open spec fn spec_decode_many(b: Seq<u8>, n: int) -> Option<(Seq<ValueModel>, Seq<u8>)>
    decreases b.len(), 1int, n,
{
    if n <= 0 {
        Some((Seq::empty(), b))
    } else {
        match spec_decode(b) {
            Some((v, rest)) => if rest.len() < b.len() {
                match spec_decode_many(rest, n - 1) {
                    Some((vs, r2)) => Some((seq![v] + vs, r2)),
                    None => None,
                }
            } else {
                None
            },
            None => None,
        }
    }
}

/// The decoder failed: the stream was exhausted, or the bytes were
/// malformed. The decoder instance must not be reused afterwards.
#[derive(Debug)]
pub struct DecodeError;

/// A streaming decoder over an exclusive, ordered byte source, consuming
/// bytes one at a time from the front.
pub struct Decoder {
    bytes: Vec<u8>,
    pos: usize,
}

impl Decoder {
    /// The cursor never passes the end of the source.
    pub closed spec fn wf(&self) -> bool {
        self.pos <= self.bytes@.len()
    }

    pub closed spec fn source(&self) -> Seq<u8> {
        self.bytes@
    }

    /// How many bytes have been consumed so far.
    pub closed spec fn cursor(&self) -> int {
        self.pos as int
    }

    /// The bytes not yet consumed.
    pub closed spec fn remaining(&self) -> Seq<u8> {
        self.bytes@.skip(self.pos as int)
    }

    /// A fresh decoder over the given byte source.
    pub fn new(bytes: Vec<u8>) -> (d: Decoder)
        ensures
            d.wf(),
            d.remaining() == bytes@,
    {
        let d = Decoder { bytes, pos: 0 };
        proof {
            assert(d.remaining() =~= d.bytes@);
        }
        d
    }

    /// Reads a single byte, failing exactly on an exhausted source.
    pub fn read_byte(&mut self) -> (r: Result<u8, DecodeError>)
        requires
            old(self).wf(),
        ensures
            final(self).wf(),
            final(self).source() == old(self).source(),
            old(self).cursor() <= final(self).cursor(),
            match r {
                Ok(x) => old(self).remaining().len() > 0 && x == old(self).remaining()[0]
                    && final(self).remaining() == old(self).remaining().skip(1)
                    && final(self).cursor() == old(self).cursor() + 1,
                Err(_) => old(self).remaining().len() == 0 && *final(self) == *old(self),
            },
    {
        if self.pos < self.bytes.len() {
            let b = self.bytes[self.pos];
            self.pos = self.pos + 1;
            proof {
                assert(old(self).remaining()[0] == b);
                assert(self.remaining() =~= old(self).remaining().skip(1));
            }
            Ok(b)
        } else {
            Err(DecodeError)
        }
    }

    /// Reads up to the first CR LF pair, returning the bytes before it and
    /// consuming through it. Blocks no further than the source allows:
    /// failing exactly when no CR LF pair remains.
    pub fn read_line(&mut self) -> (r: Result<Vec<u8>, DecodeError>)
        requires
            old(self).wf(),
        ensures
            final(self).wf(),
            final(self).source() == old(self).source(),
            old(self).cursor() <= final(self).cursor(),
            match r {
                Ok(l) => line_split(old(self).remaining()) == Some((l@, final(self).remaining()))
                    && old(self).cursor() + 2 <= final(self).cursor(),
                Err(_) => line_split(old(self).remaining()) is None,
            },
    {
        let ghost rem = self.remaining();
        let start = self.pos;
        let len = self.bytes.len();
        if len < 1 {
            proof {
                lemma_line_split_none(rem);
            }
            return Err(DecodeError);
        }
        let mut j = start;
        while j < len - 1
            invariant
                1 <= len,
                start <= j <= len,
                len == self.bytes@.len(),
                self.bytes@ == old(self).bytes@,
                self.pos == old(self).pos,
                start == self.pos,
                self.wf(),
                rem == self.remaining(),
                rem == old(self).remaining(),
                forall|i: int| #![trigger self.bytes@[i]]
                    start <= i < j ==> !(self.bytes@[i] == 13 && self.bytes@[i + 1] == 10),
            decreases len - j,
        {
            if self.bytes[j] == 13 && self.bytes[j + 1] == 10 {
                // found the terminator: the line is bytes[start..j]
                let mut line: Vec<u8> = Vec::new();
                let mut k = start;
                while k < j
                    invariant
                        start <= k <= j,
                        j + 1 < len,
                        len == self.bytes@.len(),
                        self.bytes@ == old(self).bytes@,
                        self.pos == old(self).pos,
                        start == self.pos,
                        self.wf(),
                        rem == self.remaining(),
                        rem == old(self).remaining(),
                        self.bytes@[j as int] == 13 && self.bytes@[j as int + 1] == 10,
                        forall|i: int| #![trigger self.bytes@[i]]
                            start <= i < j ==> !(self.bytes@[i] == 13 && self.bytes@[i + 1] == 10),
                        line@ == self.bytes@.subrange(start as int, k as int),
                    decreases j - k,
                {
                    let b = self.bytes[k];
                    line.push(b);
                    proof {
                        assert(line@ =~= self.bytes@.subrange(start as int, k + 1));
                    }
                    k = k + 1;
                }
                proof {
                    assert forall|i: int| #![trigger rem[i]] 0 <= i < j - start implies !(rem[i]
                        == 13 && rem[i + 1] == 10) by {
                        assert(rem[i] == self.bytes@[start + i]);
                        assert(rem[i + 1] == self.bytes@[start + i + 1]);
                    }
                    assert(rem[j - start] == 13 && rem[j - start + 1] == 10);
                    lemma_line_split_at(rem, j - start);
                    assert(rem.take(j - start) =~= self.bytes@.subrange(start as int, j as int));
                }
                self.pos = j + 2;
                proof {
                    assert(self.remaining() =~= rem.skip(j - start + 2));
                }
                return Ok(line);
            }
            j = j + 1;
        }
        proof {
            assert forall|i: int| #![trigger rem[i]] 0 <= i && i + 1 < rem.len() implies !(rem[i]
                == 13 && rem[i + 1] == 10) by {
                assert(rem[i] == self.bytes@[start + i]);
                assert(rem[i + 1] == self.bytes@[start + i + 1]);
            }
            lemma_line_split_none(rem);
        }
        Err(DecodeError)
    }

    /// Decodes one integer line.
    pub fn decode_integer(&mut self) -> (r: Result<RedisValue, DecodeError>)
        requires
            old(self).wf(),
        ensures
            final(self).wf(),
            final(self).source() == old(self).source(),
            old(self).cursor() <= final(self).cursor(),
            match r {
                Ok(v) => spec_decode_integer(old(self).remaining()) matches Some((n, rest)) && v
                    == RedisValue::Integer(n) && final(self).remaining() == rest && old(self).cursor() + 2
                    <= final(self).cursor(),
                Err(_) => spec_decode_integer(old(self).remaining()) is None,
            },
    {
        match self.read_line() {
            Ok(line) => match crate::numbers::parse_int(line.as_slice()) {
                Some(n) => Ok(RedisValue::Integer(n)),
                None => Err(DecodeError),
            },
            Err(e) => Err(e),
        }
    }

    /// Decodes one simple-string line, failing on invalid UTF-8.
    pub fn decode_string(&mut self) -> (r: Result<RedisValue, DecodeError>)
        requires
            old(self).wf(),
        ensures
            final(self).wf(),
            final(self).source() == old(self).source(),
            old(self).cursor() <= final(self).cursor(),
            match r {
                Ok(v) => spec_decode_string(old(self).remaining()) == Some(
                    (v@, final(self).remaining()),
                ),
                Err(_) => spec_decode_string(old(self).remaining()) is None,
            },
    {
        match self.read_line() {
            Ok(line) => match utf8_string(line.as_slice()) {
                Some(s) => {
                    proof {
                        assert(encode_utf8(s@) == line@);
                    }
                    Ok(RedisValue::String(s))
                },
                None => Err(DecodeError),
            },
            Err(e) => Err(e),
        }
    }

    /// Decodes one error line: identical framing to a simple string.
    pub fn decode_error(&mut self) -> (r: Result<RedisValue, DecodeError>)
        requires
            old(self).wf(),
        ensures
            final(self).wf(),
            final(self).source() == old(self).source(),
            old(self).cursor() <= final(self).cursor(),
            match r {
                Ok(v) => spec_decode_error(old(self).remaining()) == Some((v@, final(self).remaining())),
                Err(_) => spec_decode_error(old(self).remaining()) is None,
            },
    {
        match self.read_line() {
            Ok(line) => match utf8_string(line.as_slice()) {
                Some(s) => {
                    proof {
                        assert(encode_utf8(s@) == line@);
                    }
                    Ok(RedisValue::Error(s))
                },
                None => Err(DecodeError),
            },
            Err(e) => Err(e),
        }
    }

    /// Decodes one bulk string: a length line, then exactly that many raw
    /// bytes, then CR LF exactly. A length of -1 produces Null; any other
    /// negative length is a protocol error.
    pub fn decode_bulkstring(&mut self) -> (r: Result<RedisValue, DecodeError>)
        requires
            old(self).wf(),
        ensures
            final(self).wf(),
            final(self).source() == old(self).source(),
            old(self).cursor() <= final(self).cursor(),
            match r {
                Ok(v) => spec_decode_bulk(old(self).remaining()) == Some((v@, final(self).remaining())),
                Err(_) => spec_decode_bulk(old(self).remaining()) is None,
            },
    {
        match self.decode_integer() {
            Ok(RedisValue::Integer(length)) => {
                let ghost base = self.remaining();
                if length == -1 {
                    Ok(RedisValue::Null)
                } else if length < 0 {
                    Err(DecodeError)
                } else {
                    let mut result: Vec<u8> = Vec::new();
                    let mut i: u64 = 0;
                    while i < length as u64
                        invariant
                            self.wf(),
                            self.bytes@ == old(self).bytes@,
                            old(self).pos <= self.pos,
                            spec_decode_integer(old(self).remaining()) == Some((length, base)),
                            0 <= length,
                            i <= length as u64,
                            result@ == base.take(i as int),
                            self.remaining() == base.skip(i as int),
                            base.len() >= i,
                        decreases length as u64 - i,
                    {
                        match self.read_byte() {
                            Ok(b) => {
                                result.push(b);
                                proof {
                                    assert(result@ =~= base.take(i as int + 1));
                                    assert(self.remaining() =~= base.skip(i as int + 1));
                                }
                            },
                            Err(_) => {
                                proof {
                                    assert(base.len() == i);
                                    assert(base.len() < length + 2);
                                }
                                return Err(DecodeError);
                            },
                        }
                        i = i + 1;
                    }
                    let c1 = match self.read_byte() {
                        Ok(b) => b,
                        Err(_) => {
                            proof {
                                assert(base.len() < length + 2);
                            }
                            return Err(DecodeError);
                        },
                    };
                    if c1 != 13 {
                        proof {
                            assert(base[length as int] == c1);
                        }
                        return Err(DecodeError);
                    }
                    let c2 = match self.read_byte() {
                        Ok(b) => b,
                        Err(_) => {
                            proof {
                                assert(base.len() < length + 2);
                            }
                            return Err(DecodeError);
                        },
                    };
                    if c2 != 10 {
                        proof {
                            assert(base[length as int + 1] == c2);
                        }
                        return Err(DecodeError);
                    }
                    proof {
                        assert(self.remaining() =~= base.skip(length as int + 2));
                        assert(result@ == base.take(length as int));
                    }
                    Ok(RedisValue::BulkString(result))
                }
            },
            Ok(_) => {
                proof {
                    assert(false);
                }
                Err(DecodeError)
            },
            Err(_) => Err(DecodeError),
        }
    }

    /// Decodes one array: an element-count line (negative counts are a
    /// protocol error), then that many recursively decoded elements.
    pub fn decode_array(&mut self) -> (r: Result<RedisValue, DecodeError>)
        requires
            old(self).wf(),
        ensures
            final(self).wf(),
            final(self).source() == old(self).source(),
            old(self).cursor() <= final(self).cursor(),
            match r {
                Ok(v) => spec_decode_array(old(self).remaining()) == Some((v@, final(self).remaining())),
                Err(_) => spec_decode_array(old(self).remaining()) is None,
            },
        decreases self.source().len() - self.cursor(),
    {
        match self.decode_integer() {
            Ok(RedisValue::Integer(length)) => {
                let ghost base = self.remaining();
                if length < 0 {
                    return Err(DecodeError);
                }
                let mut result: Vec<RedisValue> = Vec::new();
                let mut k: u64 = 0;
                while k < length as u64
                    invariant
                        self.wf(),
                        self.bytes@ == old(self).bytes@,
                        old(self).pos + 2 <= self.pos,
                        spec_decode_integer(old(self).remaining()) == Some((length, base)),
                        0 <= length,
                        k <= length as u64,
                        result@.len() == k,
                        ({
                            match spec_decode_many(self.remaining(), length as int - k as int) {
                                Some((vs, r2)) => spec_decode_many(base, length as int) == Some(
                                    (models_of(result@) + vs, r2),
                                ),
                                None => spec_decode_many(base, length as int) is None,
                            }
                        }),
                    decreases length as u64 - k,
                {
                    let ghost cur = self.remaining();
                    let ghost before = result@;
                    match self.decode_one() {
                        Ok(v) => {
                            proof {
                                crate::value::lemma_models_of_push(before, v);
                                assert(models_of(before.push(v)) == models_of(before) + seq![v@]);
                            }
                            result.push(v);
                            proof {
                                let m = length as int - k as int;
                                let rest1 = self.remaining();
                                assert(rest1.len() < cur.len());
                                match spec_decode_many(rest1, m - 1) {
                                    Some((vs2, r2)) => {
                                        assert(spec_decode_many(cur, m) == Some(
                                            (seq![v@] + vs2, r2),
                                        ));
                                        assert(models_of(before) + (seq![v@] + vs2) =~= models_of(
                                            result@,
                                        ) + vs2);
                                    },
                                    None => {
                                        assert(spec_decode_many(cur, m) is None);
                                    },
                                }
                            }
                        },
                        Err(_) => {
                            proof {
                                let m = length as int - k as int;
                                assert(spec_decode_many(cur, m) is None);
                            }
                            return Err(DecodeError);
                        },
                    }
                    k = k + 1;
                }
                proof {
                    assert(spec_decode_many(self.remaining(), 0) == Some(
                        (Seq::<ValueModel>::empty(), self.remaining()),
                    ));
                    assert(models_of(result@) + Seq::<ValueModel>::empty() =~= models_of(
                        result@,
                    ));
                    assert(spec_decode_many(base, length as int) == Some(
                        (models_of(result@), self.remaining()),
                    ));
                }
                Ok(RedisValue::Array(result))
            },
            Ok(_) => {
                proof {
                    assert(false);
                }
                Err(DecodeError)
            },
            Err(_) => Err(DecodeError),
        }
    }

    /// Decodes a single value off the front of the stream: the tag byte
    /// picks the variant. Returns the value exactly when the stream begins
    /// with a complete, well-formed value, and fails otherwise.
    pub fn decode_one(&mut self) -> (r: Result<RedisValue, DecodeError>)
        requires
            old(self).wf(),
        ensures
            final(self).wf(),
            final(self).source() == old(self).source(),
            old(self).cursor() <= final(self).cursor(),
            match r {
                Ok(v) => spec_decode(old(self).remaining()) == Some((v@, final(self).remaining()))
                    && old(self).cursor() < final(self).cursor(),
                Err(_) => spec_decode(old(self).remaining()) is None,
            },
        decreases self.source().len() - self.cursor(),
    {
        let ghost b = self.remaining();
        match self.read_byte() {
            Ok(tag) => {
                proof {
                    assert(b[0] == tag);
                    assert(b.skip(1) =~= self.remaining());
                }
                match tag {
                    36 => self.decode_bulkstring(),
                    42 => self.decode_array(),
                    43 => self.decode_string(),
                    45 => self.decode_error(),
                    58 => self.decode_integer(),
                    _ => Err(DecodeError),
                }
            },
            Err(e) => Err(e),
        }
    }
}

} // verus!
