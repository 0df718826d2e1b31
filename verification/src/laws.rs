//! The laws tying the encoder and the decoder together: encoding is
//! invertible, and malformed streams decode to nothing.
use crate::decoder::{
    lemma_line_split_exact, spec_decode, spec_decode_many,
};
use crate::encoder::{encode_items, encode_spec, lemma_encode_nonempty};
use crate::numbers::{all_digits, dec_int, digits_val, lemma_dec_int_no_cr, lemma_parse_dec_int, parse_int_spec};
use crate::value::{no_crlf, wf_model, ValueModel};
use vstd::prelude::*;

verus! {

broadcast use vstd::seq::group_seq_axioms;

/// A sequence with no carriage return at all has no CR LF pair.
proof fn lemma_no_cr_no_crlf(s: Seq<u8>)
    requires
        forall|i: int| 0 <= i < s.len() ==> #[trigger] s[i] != 13,
    ensures
        no_crlf(s),
{
}

/// Round-trip: decoding the encoding of any well-formed value, whatever
/// follows it on the wire, yields exactly that value and consumes exactly
/// its encoding.
pub proof fn lemma_decode_encode(m: ValueModel, rest: Seq<u8>)
    requires
        wf_model(m),
    ensures
        spec_decode(encode_spec(m) + rest) == Some((m, rest)),
    decreases m, 0int,
{
    let b = encode_spec(m) + rest;
    match m {
        ValueModel::Integer(n) => {
            assert(b[0] == 58);
            assert(b.skip(1) =~= dec_int(n) + seq![13u8, 10u8] + rest);
            lemma_dec_int_no_cr(n);
            lemma_no_cr_no_crlf(dec_int(n));
            lemma_line_split_exact(dec_int(n), rest);
            lemma_parse_dec_int(n as i64);
            assert((n as i64) as int == n);
        },
        ValueModel::String(sb) => {
            assert(b[0] == 43);
            assert(b.skip(1) =~= sb + seq![13u8, 10u8] + rest);
            lemma_line_split_exact(sb, rest);
        },
        ValueModel::Error(sb) => {
            assert(b[0] == 45);
            assert(b.skip(1) =~= sb + seq![13u8, 10u8] + rest);
            lemma_line_split_exact(sb, rest);
        },
        ValueModel::Null => {
            assert(b[0] == 36);
            let l = seq![45u8, 49u8];
            assert(b.skip(1) =~= l + seq![13u8, 10u8] + rest);
            lemma_no_cr_no_crlf(l);
            lemma_line_split_exact(l, rest);
            assert(l.skip(1) =~= seq![49u8]);
            assert(seq![49u8].drop_last() =~= Seq::<u8>::empty());
            assert(digits_val(Seq::<u8>::empty()) == 0);
            assert(seq![49u8].last() == 49u8);
            assert(digits_val(seq![49u8]) == digits_val(seq![49u8].drop_last()) * 10 + (seq![49u8].last() - 48) as nat);
            assert(digits_val(seq![49u8]) == 1);
            assert(all_digits(seq![49u8]));
            assert(parse_int_spec(l) == Some(-1i64));
        },
        ValueModel::BulkString(data) => {
            assert(b[0] == 36);
            let n = data.len() as int;
            let tail = data + seq![13u8, 10u8] + rest;
            assert(b.skip(1) =~= dec_int(n) + seq![13u8, 10u8] + tail);
            lemma_dec_int_no_cr(n);
            lemma_no_cr_no_crlf(dec_int(n));
            lemma_line_split_exact(dec_int(n), tail);
            lemma_parse_dec_int(n as i64);
            assert((n as i64) as int == n);
            assert(tail.len() >= n + 2);
            assert(tail[n] == 13 && tail[n + 1] == 10);
            assert(tail.take(n) =~= data);
            assert(tail.skip(n + 2) =~= rest);
        },
        ValueModel::Array(items) => {
            assert(b[0] == 42);
            let n = items.len() as int;
            let tail = encode_items(items) + rest;
            assert(b.skip(1) =~= dec_int(n) + seq![13u8, 10u8] + tail);
            lemma_dec_int_no_cr(n);
            lemma_no_cr_no_crlf(dec_int(n));
            lemma_line_split_exact(dec_int(n), tail);
            lemma_parse_dec_int(n as i64);
            assert((n as i64) as int == n);
            lemma_decode_encode_many(items, rest);
        },
    }
}

/// Round-trip for a run of values: decoding `n` values off the
/// concatenation of `n` encodings yields exactly those values in order.
pub proof fn lemma_decode_encode_many(items: Seq<ValueModel>, rest: Seq<u8>)
    requires
        forall|i: int| 0 <= i < items.len() ==> wf_model(#[trigger] items[i]),
    ensures
        spec_decode_many(encode_items(items) + rest, items.len() as int) == Some((items, rest)),
    decreases items, 1int,
{
    if items.len() == 0 {
        assert(encode_items(items) + rest =~= rest);
        assert(Seq::<ValueModel>::empty() =~= items);
    } else {
        let first = items[0];
        let tail = items.subrange(1, items.len() as int);
        let b = encode_items(items) + rest;
        assert(b =~= encode_spec(first) + (encode_items(tail) + rest));
        lemma_decode_encode(first, encode_items(tail) + rest);
        lemma_encode_nonempty(first);
        assert((encode_items(tail) + rest).len() < b.len());
        lemma_decode_encode_many(tail, rest);
        assert(seq![first] + tail =~= items);
    }
}

/// Malformed input: a stream beginning with an unrecognized tag byte
/// decodes to nothing, with no partial value.
pub proof fn lemma_unknown_tag_fails(b: Seq<u8>)
    requires
        b.len() > 0,
        b[0] != 36,
        b[0] != 42,
        b[0] != 43,
        b[0] != 45,
        b[0] != 58,
    ensures
        spec_decode(b) is None,
{
}

/// Bulk-string length enforcement: after a declared length of `n`, unless
/// exactly `n` raw bytes follow and then CR LF exactly, the decode fails.
pub proof fn lemma_bulk_length_enforced(n: int, rest: Seq<u8>)
    requires
        0 <= n <= i64::MAX,
        !(rest.len() >= n + 2 && rest[n] == 13 && rest[n + 1] == 10),
    ensures
        spec_decode(seq![36u8] + dec_int(n) + seq![13u8, 10u8] + rest) is None,
{
    let b = seq![36u8] + dec_int(n) + seq![13u8, 10u8] + rest;
    assert(b[0] == 36);
    assert(b.skip(1) =~= dec_int(n) + seq![13u8, 10u8] + rest);
    lemma_dec_int_no_cr(n);
    lemma_no_cr_no_crlf(dec_int(n));
    lemma_line_split_exact(dec_int(n), rest);
    lemma_parse_dec_int(n as i64);
    assert((n as i64) as int == n);
}

/// The relay forwards canonical traffic byte-identically: bytes that are
/// exactly the encoding of a well-formed value decode to that value with
/// nothing left over, so re-encoding the decoded value reproduces the bytes.
pub proof fn lemma_relay_exact_forwarding(m: ValueModel)
    requires
        wf_model(m),
    ensures
        spec_decode(encode_spec(m)) == Some((m, Seq::<u8>::empty())),
{
    lemma_decode_encode(m, Seq::empty());
    assert(encode_spec(m) + Seq::<u8>::empty() =~= encode_spec(m));
}

/// A negative array length is a hard protocol error, for every negative
/// length: there is no null-array form in this dialect.
pub proof fn lemma_negative_array_length_fails(n: int, rest: Seq<u8>)
    requires
        i64::MIN <= n < 0,
    ensures
        spec_decode(seq![42u8] + dec_int(n) + seq![13u8, 10u8] + rest) is None,
{
    let b = seq![42u8] + dec_int(n) + seq![13u8, 10u8] + rest;
    assert(b[0] == 42);
    assert(b.skip(1) =~= dec_int(n) + seq![13u8, 10u8] + rest);
    lemma_dec_int_no_cr(n);
    lemma_no_cr_no_crlf(dec_int(n));
    lemma_line_split_exact(dec_int(n), rest);
    lemma_parse_dec_int(n as i64);
    assert((n as i64) as int == n);
}

/// The Null sentinel: Null's wire form is exactly `$-1` CR LF, and decodes
/// back to Null.
pub proof fn lemma_null_sentinel()
    ensures
        encode_spec(ValueModel::Null) == seq![36u8, 45u8, 49u8, 13u8, 10u8],
        spec_decode(seq![36u8, 45u8, 49u8, 13u8, 10u8]) == Some(
            (ValueModel::Null, Seq::<u8>::empty()),
        ),
{
    lemma_decode_encode(ValueModel::Null, Seq::empty());
    assert(encode_spec(ValueModel::Null) + Seq::<u8>::empty() =~= seq![
        36u8,
        45u8,
        49u8,
        13u8,
        10u8,
    ]);
}

/// An empty array encodes to exactly `*0` CR LF.
pub proof fn lemma_empty_array_encoding()
    ensures
        encode_spec(ValueModel::Array(Seq::empty())) == seq![42u8, 48u8, 13u8, 10u8],
{
    assert(dec_int(0) =~= seq![48u8]);
    assert(encode_spec(ValueModel::Array(Seq::empty())) =~= seq![42u8, 48u8, 13u8, 10u8]);
}

} // verus!
