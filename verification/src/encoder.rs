//! The RESP encoder: a pure, total, recursive mapping from a value to its
//! exact wire bytes.
use crate::numbers::{dec_int, i64_to_dec, u64_to_dec};
use crate::value::{models_of, value_model, RedisValue, ValueModel};
use vstd::prelude::*;

verus! {

broadcast use vstd::std_specs::vec::group_vec_axioms, vstd::seq::group_seq_axioms;

/// The CR LF line terminator of the wire format.
pub open spec fn crlf() -> Seq<u8> {
    seq![13u8, 10u8]
}

/// The exact wire bytes of a value: a tag byte, a line-framed decimal or
/// text field, and for bulk strings and arrays a length-prefixed body.
pub open spec fn encode_spec(m: ValueModel) -> Seq<u8>
    decreases m,
{
    match m {
        ValueModel::Integer(n) => seq![58u8] + dec_int(n) + crlf(),
        ValueModel::String(b) => seq![43u8] + b + crlf(),
        ValueModel::Error(b) => seq![45u8] + b + crlf(),
        ValueModel::Null => seq![36u8, 45u8, 49u8, 13u8, 10u8],
        ValueModel::BulkString(b) => seq![36u8] + dec_int(b.len() as int) + crlf() + b + crlf(),
        ValueModel::Array(items) => seq![42u8] + dec_int(items.len() as int) + crlf()
            + encode_items(items),
    }
}

/// The concatenation of the encodings of a sequence of values, in order.
pub open spec fn encode_items(items: Seq<ValueModel>) -> Seq<u8>
    decreases items,
{
    if items.len() == 0 {
        Seq::empty()
    } else {
        encode_spec(items[0]) + encode_items(items.subrange(1, items.len() as int))
    }
}

/// Every encoding is non-empty: it starts with the value's tag byte.
pub proof fn lemma_encode_nonempty(m: ValueModel)
    ensures
        encode_spec(m).len() >= 1,
{
}

/// Appending one more value to a sequence appends its encoding.
pub proof fn lemma_encode_items_snoc(items: Seq<ValueModel>, x: ValueModel)
    ensures
        encode_items(items + seq![x]) == encode_items(items) + encode_spec(x),
    decreases items.len(),
{
    let t = items + seq![x];
    if items.len() == 0 {
        assert(t[0] == x);
        assert(t.subrange(1, t.len() as int) =~= Seq::<ValueModel>::empty());
        assert(encode_items(Seq::<ValueModel>::empty()) == Seq::<u8>::empty());
        assert(encode_items(t) == encode_spec(t[0]) + encode_items(
            t.subrange(1, t.len() as int),
        ));
        assert(encode_items(t) =~= encode_spec(x));
        assert(encode_items(items) + encode_spec(x) =~= encode_spec(x));
    } else {
        assert(t[0] == items[0]);
        assert(t.subrange(1, t.len() as int) =~= items.subrange(1, items.len() as int) + seq![x]);
        lemma_encode_items_snoc(items.subrange(1, items.len() as int), x);
        assert(encode_items(t) =~= encode_items(items) + encode_spec(x));
    }
}

/// Frames one line of the wire format: the tag byte, the body's UTF-8
/// bytes, then CR LF.
pub fn _encode_one(prefix: u8, body: String) -> (r: Vec<u8>)
    ensures
        r@ == seq![prefix] + vstd::utf8::encode_utf8(body@) + crlf(),
{
    let bytes = body.as_str().as_bytes();
    let r = encode_line(prefix, bytes);
    r
}

/// Frames one line from raw bytes: the tag byte, the body, then CR LF.
fn encode_line(prefix: u8, body: &[u8]) -> (r: Vec<u8>)
    ensures
        r@ == seq![prefix] + body@ + crlf(),
{
    let mut r: Vec<u8> = Vec::new();
    r.push(prefix);
    let mut b = vstd::slice::slice_to_vec(body);
    r.append(&mut b);
    r.push(13);
    r.push(10);
    proof {
        assert(r@ =~= seq![prefix] + body@ + crlf());
    }
    r
}

/// Encodes a value into its exact wire bytes. Total and pure: every
/// in-memory value is encodable.
pub fn encode_one(value: RedisValue) -> (r: Vec<u8>)
    ensures
        r@ == encode_spec(value@),
{
    encode_value(&value)
}

fn encode_value(value: &RedisValue) -> (r: Vec<u8>)
    ensures
        r@ == encode_spec(value@),
    decreases *value,
{
    match value {
        RedisValue::Null => {
            let mut body: Vec<u8> = Vec::new();
            body.push(45);
            body.push(49);
            let r = encode_line(36, body.as_slice());
            proof {
                assert(r@ =~= encode_spec(ValueModel::Null));
            }
            r
        },
        RedisValue::Integer(n) => {
            let digits = i64_to_dec(*n);
            let r = encode_line(58, digits.as_slice());
            r
        },
        RedisValue::String(s) => {
            let r = encode_line(43, s.as_str().as_bytes());
            r
        },
        RedisValue::Error(s) => {
            let r = encode_line(45, s.as_str().as_bytes());
            r
        },
        RedisValue::BulkString(b) => {
            let len_digits = u64_to_dec(b.len() as u64);
            let mut r = encode_line(36, len_digits.as_slice());
            let mut payload = vstd::slice::slice_to_vec(b.as_slice());
            r.append(&mut payload);
            r.push(13);
            r.push(10);
            proof {
                assert(dec_int(b@.len() as int) == crate::numbers::dec_digits(b@.len() as nat));
                assert(r@ =~= encode_spec(value_model(*value)));
            }
            r
        },
        RedisValue::Array(items) => {
            let len_digits = u64_to_dec(items.len() as u64);
            let mut r = encode_line(42, len_digits.as_slice());
            let ghost header = r@;
            let ghost ms = models_of(items@);
            let mut i: usize = 0;
            while i < items.len()
                invariant
                    *value == RedisValue::Array(*items),
                    i <= items.len(),
                    ms == models_of(items@),
                    header == seq![42u8] + dec_int(items@.len() as int) + crlf(),
                    r@ == header + encode_items(ms.take(i as int)),
                decreases items@.len() - i,
            {
                proof {
                    let v = *value;
                    assert(decreases_to!(v => v->Array_0));
                    vstd::std_specs::vec::axiom_vec_index_decreases::<RedisValue>(
                        v->Array_0,
                        i as int,
                    );
                    assert(decreases_to!(*value => items@[i as int]));
                }
                let mut e = encode_value(&items[i]);
                proof {
                    assert(ms.take(i + 1) =~= ms.take(i as int) + seq![ms[i as int]]);
                    lemma_encode_items_snoc(ms.take(i as int), ms[i as int]);
                    assert(ms[i as int] == items@[i as int]@);
                }
                r.append(&mut e);
                i = i + 1;
            }
            proof {
                assert(ms.take(items@.len() as int) =~= ms);
                assert(value_model(*value) == ValueModel::Array(ms));
                assert(dec_int(items@.len() as int) == crate::numbers::dec_digits(
                    items@.len() as nat,
                ));
            }
            r
        },
    }
}

} // verus!
