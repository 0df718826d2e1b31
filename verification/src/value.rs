//! The closed set of RESP value variants shared by the encoder, the decoder,
//! the proxy relay and the stats engine, together with the mathematical model
//! the contracts are stated over.
use crate::numbers::{dec_digits, dec_int, i64_to_dec, lemma_dec_digits_all_digits, u64_to_dec};
use vstd::prelude::*;
use vstd::utf8::{encode_utf8, valid_utf8};

verus! {

broadcast use
    vstd::std_specs::vec::group_vec_axioms,
    vstd::seq::group_seq_axioms,
    vstd::utf8::encode_utf8_valid_utf8,
    vstd::utf8::valid_utf8_concat,
    vstd::utf8::decode_utf8_encode_utf8;

/// All possible returnable Redis value types.
#[derive(Debug, PartialEq)]
pub enum RedisValue {
    Integer(i64),
    String(String),
    BulkString(Vec<u8>),
    Error(String),
    Null,
    Array(Vec<RedisValue>),
}

/// The mathematical form of a RESP value: text carried as its UTF-8 bytes,
/// byte strings and arrays as sequences, integers unbounded.
#[verifier::ext_equal]
pub enum ValueModel {
    Integer(int),
    String(Seq<u8>),
    BulkString(Seq<u8>),
    Error(Seq<u8>),
    Null,
    Array(Seq<ValueModel>),
}

/// The model denoted by an in-memory value.
pub open spec fn value_model(v: RedisValue) -> ValueModel
    decreases v, 1int,
    via value_model_decreases
{
    match v {
        RedisValue::Integer(n) => ValueModel::Integer(n as int),
        RedisValue::String(s) => ValueModel::String(encode_utf8(s@)),
        RedisValue::BulkString(b) => ValueModel::BulkString(b@),
        RedisValue::Error(s) => ValueModel::Error(encode_utf8(s@)),
        RedisValue::Null => ValueModel::Null,
        RedisValue::Array(items) => ValueModel::Array(models_of(items@)),
    }
}

/// The models of a sequence of values, element by element.
pub open spec fn models_of(s: Seq<RedisValue>) -> Seq<ValueModel>
    decreases s, 0int,
    via models_of_decreases
{
    Seq::new(
        s.len(),
        |i: int|
            if 0 <= i < s.len() {
                value_model(s[i])
            } else {
                ValueModel::Null
            },
    )
}

#[via_fn]
proof fn value_model_decreases(v: RedisValue) {
    broadcast use vstd::std_specs::vec::group_vec_axioms, vstd::seq::group_seq_axioms;

    if let RedisValue::Array(items) = v {
        assert(decreases_to!(items => items@));
    }
}

#[via_fn]
proof fn models_of_decreases(s: Seq<RedisValue>) {
    broadcast use vstd::seq::group_seq_axioms;

    assert forall|i: int| 0 <= i < s.len() implies decreases_to!(s => s[i]) by {
        assert(decreases_to!(s => s[i]));
    }
}

impl View for RedisValue {
    type V = ValueModel;

    open spec fn view(&self) -> ValueModel {
        value_model(*self)
    }
}

impl Clone for RedisValue {
    /// A clone denotes the same model as the value it was cloned from.
    fn clone(&self) -> (r: Self)
        ensures
            r@ == self@,
        decreases *self,
    {
        match self {
            RedisValue::Integer(n) => RedisValue::Integer(*n),
            RedisValue::String(s) => RedisValue::String(s.clone()),
            RedisValue::BulkString(b) => RedisValue::BulkString(
                vstd::slice::slice_to_vec(b.as_slice()),
            ),
            RedisValue::Error(s) => RedisValue::Error(s.clone()),
            RedisValue::Null => RedisValue::Null,
            RedisValue::Array(items) => {
                let mut out: Vec<RedisValue> = Vec::new();
                let mut i: usize = 0;
                while i < items.len()
                    invariant
                        *self == RedisValue::Array(*items),
                        i <= items.len(),
                        out@.len() == i,
                        forall|j: int| 0 <= j < i ==> (#[trigger] out@[j])@ == items@[j]@,
                    decreases items@.len() - i,
                {
                    proof {
                        let v = *self;
                        assert(v == RedisValue::Array(*items));
                        assert(decreases_to!(v => v->Array_0));
                        vstd::std_specs::vec::axiom_vec_index_decreases::<RedisValue>(
                            v->Array_0,
                            i as int,
                        );
                        assert(decreases_to!(v => v->Array_0[i as int]));
                        assert(items@[i as int] == v->Array_0[i as int]);
                        assert(decreases_to!(*self => items@[i as int]));
                    }
                    out.push(items[i].clone());
                    i = i + 1;
                }
                let r = RedisValue::Array(out);
                proof {
                    let ra = value_model(r);
                    let sa = value_model(*self);
                    assert forall|k: int| 0 <= k < out@.len() implies ra->Array_0[k]
                        == sa->Array_0[k] by {
                        assert(value_model(out@[k]) == value_model(items@[k]));
                    }
                    assert(ra->Array_0 =~= sa->Array_0);
                    assert(ra =~= sa);
                }
                r
            },
        }
    }
}

/// Appending one value appends its model.
pub proof fn lemma_models_of_push(s: Seq<RedisValue>, v: RedisValue)
    ensures
        models_of(s.push(v)) == models_of(s) + seq![value_model(v)],
{
    assert(models_of(s.push(v)) =~= models_of(s) + seq![value_model(v)]);
}

/// Relies on std::str::from_utf8: it succeeds exactly on valid UTF-8 input
/// and returns the text those bytes encode.
#[verifier::external_body]
pub fn utf8_string(v: &[u8]) -> (r: Option<String>)
    ensures
        match r {
            Some(s) => valid_utf8(v@) && s@ == vstd::utf8::decode_utf8(v@),
            None => !valid_utf8(v@),
        },
{
    match std::str::from_utf8(v) {
        Ok(s) => Some(s.to_string()),
        Err(_) => None,
    }
}

/// No carriage return immediately followed by a line feed anywhere in `s`.
pub open spec fn no_crlf(s: Seq<u8>) -> bool {
    forall|i: int| #![trigger s[i]] 0 <= i && i + 1 < s.len() ==> !(s[i] == 13 && s[i + 1] == 10)
}

/// The invariants a value must satisfy for its encoding to decode back to
/// itself: text fields are valid UTF-8 holding no CR LF pair (a CR LF inside
/// a line-framed field would terminate the line early), and lengths fit the
/// signed 64-bit length prefix of the wire format.
pub open spec fn wf_model(m: ValueModel) -> bool
    decreases m,
{
    match m {
        ValueModel::Integer(n) => i64::MIN <= n <= i64::MAX,
        ValueModel::String(b) => valid_utf8(b) && no_crlf(b),
        ValueModel::Error(b) => valid_utf8(b) && no_crlf(b),
        ValueModel::BulkString(b) => b.len() <= i64::MAX,
        ValueModel::Null => true,
        ValueModel::Array(items) => items.len() <= i64::MAX && forall|i: int|
            0 <= i < items.len() ==> wf_model(#[trigger] items[i]),
    }
}

/// The debug rendering of a byte string that is not valid UTF-8: the bytes
/// as bracketed, comma-separated decimal numbers.
pub open spec fn debug_bytes(b: Seq<u8>) -> Seq<u8> {
    seq![91u8] + debug_items(b) + seq![93u8]
}

pub open spec fn debug_items(b: Seq<u8>) -> Seq<u8>
    decreases b.len(),
{
    if b.len() == 0 {
        Seq::empty()
    } else if b.len() == 1 {
        dec_digits(b[0] as nat)
    } else {
        dec_digits(b[0] as nat) + seq![44u8, 32u8] + debug_items(b.subrange(1, b.len() as int))
    }
}

/// The canonical flat rendering of a value, as UTF-8 bytes: integers in
/// decimal, text as itself, errors wrapped to stay distinguishable, bulk
/// strings as their text when valid UTF-8 and as a debug form otherwise,
/// arrays space-joined in order.
pub open spec fn render_bytes(m: ValueModel) -> Seq<u8>
    decreases m,
{
    match m {
        ValueModel::Integer(n) => dec_int(n),
        ValueModel::String(b) => b,
        ValueModel::BulkString(b) => if valid_utf8(b) {
            b
        } else {
            debug_bytes(b)
        },
        ValueModel::Error(b) => seq![69u8, 114u8, 114u8, 111u8, 114u8, 40u8] + b + seq![41u8],
        ValueModel::Null => seq![110u8, 117u8, 108u8, 108u8],
        ValueModel::Array(items) => render_items(items),
    }
}

pub open spec fn render_items(items: Seq<ValueModel>) -> Seq<u8>
    decreases items,
{
    if items.len() == 0 {
        Seq::empty()
    } else if items.len() == 1 {
        render_bytes(items[0])
    } else {
        render_bytes(items[0]) + seq![32u8] + render_items(
            items.subrange(1, items.len() as int),
        )
    }
}

/// A sequence of ASCII bytes is valid UTF-8.
pub proof fn lemma_ascii_valid_utf8(s: Seq<u8>)
    requires
        forall|i: int| 0 <= i < s.len() ==> #[trigger] s[i] < 128,
    ensures
        valid_utf8(s),
{
    assert(vstd::utf8::partial_valid_utf8(s, 0)) by {
        assert(s.subrange(0, 0) =~= Seq::<u8>::empty());
    }
    assert forall|i: int|
        0 <= 0 <= i < s.len() <= s.len() implies #[trigger] vstd::utf8::is_leading_byte_width_1(
        s[i],
    ) by {
        assert(s[i] < 128);
    }
    vstd::utf8::partial_valid_utf8_extend_ascii_block(s, 0, s.len() as int);
    assert(s.subrange(0, s.len() as int) =~= s);
}

/// The decimal form of an integer holds only ASCII bytes.
proof fn lemma_dec_int_ascii(n: int)
    ensures
        forall|i: int| 0 <= i < dec_int(n).len() ==> #[trigger] dec_int(n)[i] < 128,
{
    if n >= 0 {
        lemma_dec_digits_all_digits(n as nat);
    } else {
        lemma_dec_digits_all_digits((-n) as nat);
        assert forall|i: int| 0 <= i < dec_int(n).len() implies #[trigger] dec_int(n)[i]
            < 128 by {
            if i >= 1 {
                assert(dec_int(n)[i] == dec_digits((-n) as nat)[i - 1]);
                assert(crate::numbers::is_digit(dec_digits((-n) as nat)[i - 1]));
            }
        }
    }
}

/// The debug rendering of bytes holds only ASCII bytes.
proof fn lemma_debug_items_ascii(s: Seq<u8>)
    ensures
        forall|i: int| 0 <= i < debug_items(s).len() ==> #[trigger] debug_items(s)[i] < 128,
    decreases s.len(),
{
    if s.len() == 0 {
    } else if s.len() == 1 {
        lemma_dec_digits_all_digits(s[0] as nat);
    } else {
        lemma_dec_digits_all_digits(s[0] as nat);
        lemma_debug_items_ascii(s.subrange(1, s.len() as int));
        let head = dec_digits(s[0] as nat) + seq![44u8, 32u8];
        let tail = debug_items(s.subrange(1, s.len() as int));
        assert forall|i: int| 0 <= i < debug_items(s).len() implies #[trigger] debug_items(s)[i]
            < 128 by {
            if i < head.len() {
                assert(debug_items(s)[i] == head[i]);
                if i < dec_digits(s[0] as nat).len() {
                    assert(crate::numbers::is_digit(dec_digits(s[0] as nat)[i]));
                }
            } else {
                assert(debug_items(s)[i] == tail[i - head.len()]);
            }
        }
    }
}

/// Appending one more value to a non-empty run appends a space and its
/// rendering.
proof fn lemma_render_items_snoc(s: Seq<ValueModel>, x: ValueModel)
    requires
        s.len() >= 1,
    ensures
        render_items(s + seq![x]) == render_items(s) + seq![32u8] + render_bytes(x),
    decreases s.len(),
{
    let t = s + seq![x];
    if s.len() == 1 {
        assert(t[0] == s[0]);
        assert(t.subrange(1, t.len() as int) =~= seq![x]);
        assert(render_items(seq![x]) == render_bytes(x));
        assert(render_items(t) =~= render_items(s) + seq![32u8] + render_bytes(x));
    } else {
        assert(t[0] == s[0]);
        assert(t.subrange(1, t.len() as int) =~= s.subrange(1, s.len() as int) + seq![x]);
        lemma_render_items_snoc(s.subrange(1, s.len() as int), x);
        assert(render_items(t) =~= render_items(s) + seq![32u8] + render_bytes(x));
    }
}

/// Renders the debug form of the byte tail starting at `start`: decimal
/// numbers separated by comma and space.
fn render_debug_items(b: &[u8], start: usize) -> (r: Vec<u8>)
    requires
        start <= b@.len(),
    ensures
        r@ == debug_items(b@.skip(start as int)),
    decreases b@.len() - start,
{
    let ghost sk = b@.skip(start as int);
    let len = b.len();
    if start >= len {
        let r: Vec<u8> = Vec::new();
        proof {
            assert(sk =~= Seq::<u8>::empty());
        }
        return r;
    }
    let first = b[start];
    let mut r = u64_to_dec(first as u64);
    proof {
        assert(sk[0] == first);
    }
    if start + 1 < len {
        r.push(44);
        r.push(32);
        let mut tail = render_debug_items(b, start + 1);
        proof {
            assert(b@.skip(start as int + 1) =~= sk.subrange(1, sk.len() as int));
        }
        r.append(&mut tail);
        proof {
            assert(r@ =~= dec_digits(sk[0] as nat) + seq![44u8, 32u8] + debug_items(
                sk.subrange(1, sk.len() as int),
            ));
        }
    } else {
        proof {
            assert(sk.len() == 1);
        }
    }
    r
}

/// Renders a value into its canonical flat form, as UTF-8 bytes.
fn render_value(v: &RedisValue) -> (r: Vec<u8>)
    ensures
        r@ == render_bytes(v@),
        valid_utf8(r@),
    decreases *v,
{
    match v {
        RedisValue::Integer(n) => {
            let r = i64_to_dec(*n);
            proof {
                lemma_dec_int_ascii(*n as int);
                lemma_ascii_valid_utf8(r@);
            }
            r
        },
        RedisValue::String(s) => {
            let r = vstd::slice::slice_to_vec(s.as_str().as_bytes());
            r
        },
        RedisValue::Null => {
            let mut r: Vec<u8> = Vec::new();
            r.push(110);
            r.push(117);
            r.push(108);
            r.push(108);
            proof {
                assert(r@ =~= seq![110u8, 117u8, 108u8, 108u8]);
                lemma_ascii_valid_utf8(r@);
            }
            r
        },
        RedisValue::Error(s) => {
            let mut r: Vec<u8> = Vec::new();
            r.push(69);
            r.push(114);
            r.push(114);
            r.push(111);
            r.push(114);
            r.push(40);
            let ghost prefix = r@;
            let mut body = vstd::slice::slice_to_vec(s.as_str().as_bytes());
            r.append(&mut body);
            r.push(41);
            proof {
                assert(prefix =~= seq![69u8, 114u8, 114u8, 111u8, 114u8, 40u8]);
                assert(r@ =~= prefix + encode_utf8(s@) + seq![41u8]);
                lemma_ascii_valid_utf8(prefix);
                lemma_ascii_valid_utf8(seq![41u8]);
                assert(valid_utf8(prefix + encode_utf8(s@)));
                assert(valid_utf8((prefix + encode_utf8(s@)) + seq![41u8]));
                assert(r@ == (prefix + encode_utf8(s@)) + seq![41u8]);
            }
            r
        },
        RedisValue::BulkString(b) => {
            match utf8_string(b.as_slice()) {
                Some(_s) => {
                    let r = vstd::slice::slice_to_vec(b.as_slice());
                    r
                },
                None => {
                    let mut r: Vec<u8> = Vec::new();
                    r.push(91);
                    let mut items = render_debug_items(b.as_slice(), 0);
                    proof {
                        assert(b@.skip(0) =~= b@);
                    }
                    r.append(&mut items);
                    r.push(93);
                    proof {
                        assert(r@ =~= debug_bytes(b@));
                        lemma_debug_items_ascii(b@);
                        assert forall|i: int| 0 <= i < r@.len() implies #[trigger] r@[i] < 128 by {
                            if 1 <= i < r@.len() - 1 {
                                assert(r@[i] == debug_items(b@)[i - 1]);
                            }
                        }
                        lemma_ascii_valid_utf8(r@);
                    }
                    r
                },
            }
        },
        RedisValue::Array(items) => {
            if items.len() == 0 {
                let r: Vec<u8> = Vec::new();
                proof {
                    assert(models_of(items@) =~= Seq::<ValueModel>::empty());
                    assert(r@ =~= render_items(models_of(items@)));
                }
                r
            } else {
                proof {
                    let vv = *v;
                    assert(decreases_to!(vv => vv->Array_0));
                    vstd::std_specs::vec::axiom_vec_index_decreases::<RedisValue>(
                        vv->Array_0,
                        0int,
                    );
                }
                let mut r = render_value(&items[0]);
                let ghost ms = models_of(items@);
                proof {
                    assert(ms.take(1) =~= seq![ms[0]]);
                    assert(render_items(ms.take(1)) == render_bytes(ms[0]));
                }
                let mut k: usize = 1;
                while k < items.len()
                    invariant
                        *v == RedisValue::Array(*items),
                        1 <= k <= items@.len(),
                        ms == models_of(items@),
                        ms.len() == items@.len(),
                        r@ == render_items(ms.take(k as int)),
                        valid_utf8(r@),
                    decreases items@.len() - k,
                {
                    proof {
                        let vv = *v;
                        assert(decreases_to!(vv => vv->Array_0));
                        vstd::std_specs::vec::axiom_vec_index_decreases::<RedisValue>(
                            vv->Array_0,
                            k as int,
                        );
                        assert(decreases_to!(*v => items@[k as int]));
                    }
                    r.push(32);
                    let ghost mid = r@;
                    let mut e = render_value(&items[k]);
                    r.append(&mut e);
                    proof {
                        assert(ms.take(k + 1) =~= ms.take(k as int) + seq![ms[k as int]]);
                        lemma_render_items_snoc(ms.take(k as int), ms[k as int]);
                        assert(ms[k as int] == items@[k as int]@);
                        assert(r@ =~= render_items(ms.take(k as int)) + seq![32u8] + render_bytes(
                            ms[k as int],
                        ));
                        lemma_ascii_valid_utf8(seq![32u8]);
                        assert(valid_utf8(render_items(ms.take(k as int)) + seq![32u8]));
                        assert(valid_utf8(
                            (render_items(ms.take(k as int)) + seq![32u8]) + render_bytes(
                                ms[k as int],
                            ),
                        ));
                        assert(r@ == (render_items(ms.take(k as int)) + seq![32u8]) + render_bytes(
                            ms[k as int],
                        ));
                    }
                    k = k + 1;
                }
                proof {
                    assert(ms.take(items@.len() as int) =~= ms);
                }
                r
            }
        },
    }
}

impl RedisValue {
    /// Renders the value into its canonical flat textual form: integers in
    /// decimal, text as itself, errors wrapped as `Error(...)`, Null as
    /// `null`, bulk strings as text when valid UTF-8 and as a debug form of
    /// their bytes otherwise, arrays space-joined recursively.
    pub fn abuse(&self) -> (r: String)
        ensures
            encode_utf8(r@) == render_bytes(self@),
    {
        let bytes = render_value(self);
        match utf8_string(bytes.as_slice()) {
            Some(s) => {
                proof {
                    assert(encode_utf8(s@) == bytes@);
                }
                s
            },
            None => vstd::pervasive::unreached(),
        }
    }
}

} // verus!
