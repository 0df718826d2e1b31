//! Decimal rendering and parsing of the signed integers that appear in RESP
//! integer values and in bulk-string / array length prefixes.
use vstd::prelude::*;

verus! {

/// The decimal digits of `n`, most significant first, as ASCII bytes.
pub open spec fn dec_digits(n: nat) -> Seq<u8>
    decreases n,
{
    if n < 10 {
        seq![(48 + n) as u8]
    } else {
        dec_digits(n / 10) + seq![(48 + n % 10) as u8]
    }
}

/// The decimal ASCII form of a signed integer: a minus sign for negative
/// values, then the digits of the magnitude.
pub open spec fn dec_int(n: int) -> Seq<u8> {
    if n >= 0 {
        dec_digits(n as nat)
    } else {
        seq![45u8] + dec_digits((-n) as nat)
    }
}

pub open spec fn is_digit(b: u8) -> bool {
    48 <= b && b <= 57
}

pub open spec fn all_digits(s: Seq<u8>) -> bool {
    s.len() > 0 && forall|i: int| 0 <= i < s.len() ==> is_digit(#[trigger] s[i])
}

/// The value of a digit string, read most significant first.
pub open spec fn digits_val(s: Seq<u8>) -> nat
    decreases s.len(),
{
    if s.len() == 0 {
        0
    } else {
        digits_val(s.drop_last()) * 10 + (s.last() - 48) as nat
    }
}

/// What `str::parse::<i64>` accepts of a byte string: an optional sign
/// followed by at least one digit, the value in range for `i64`.
pub open spec fn parse_int_spec(s: Seq<u8>) -> Option<i64> {
    if s.len() > 0 && (s[0] == 43 || s[0] == 45) {
        let body = s.skip(1);
        if !all_digits(body) {
            None
        } else if s[0] == 45 {
            if digits_val(body) <= 0x8000_0000_0000_0000 {
                Some((-(digits_val(body) as int)) as i64)
            } else {
                None
            }
        } else {
            if digits_val(body) <= 0x7fff_ffff_ffff_ffff {
                Some(digits_val(body) as i64)
            } else {
                None
            }
        }
    } else {
        if all_digits(s) && digits_val(s) <= 0x7fff_ffff_ffff_ffff {
            Some(digits_val(s) as i64)
        } else {
            None
        }
    }
}

/// Renders an unsigned integer as decimal ASCII digits.
pub fn u64_to_dec(n: u64) -> (r: Vec<u8>)
    ensures
        r@ == dec_digits(n as nat),
    decreases n,
{
    if n < 10 {
        let mut r: Vec<u8> = Vec::new();
        r.push(48 + n as u8);
        assert(r@ =~= dec_digits(n as nat));
        r
    } else {
        let mut r = u64_to_dec(n / 10);
        r.push(48 + (n % 10) as u8);
        assert(r@ =~= dec_digits(n as nat));
        r
    }
}

/// Renders a signed integer as decimal ASCII, with a leading minus sign
/// for negative values.
pub fn i64_to_dec(n: i64) -> (r: Vec<u8>)
    ensures
        r@ == dec_int(n as int),
{
    if n >= 0 {
        u64_to_dec(n as u64)
    } else {
        let mag: u64 = if n == i64::MIN {
            9223372036854775808u64
        } else {
            (-n) as u64
        };
        assert(mag as nat == (-(n as int)) as nat);
        let mut r: Vec<u8> = Vec::new();
        r.push(45);
        let mut d = u64_to_dec(mag);
        r.append(&mut d);
        assert(r@ =~= dec_int(n as int));
        r
    }
}

proof fn lemma_digits_val_push(s: Seq<u8>, b: u8)
    ensures
        digits_val(s + seq![b]) == digits_val(s) * 10 + (b - 48) as nat,
{
    let t = s + seq![b];
    assert(t.drop_last() =~= s);
    assert(t.last() == b);
}

/// The value of a strictly longer digit prefix is at least the value of a
/// shorter one.
proof fn lemma_digits_val_take_le(s: Seq<u8>, i: int)
    requires
        0 <= i <= s.len(),
    ensures
        digits_val(s.take(i)) <= digits_val(s),
    decreases s.len() - i,
{
    if i < s.len() {
        assert(s.take(i + 1).drop_last() =~= s.take(i));
        assert(digits_val(s.take(i + 1)) == digits_val(s.take(i)) * 10 + (s.take(i + 1).last()
            - 48) as nat);
        lemma_digits_val_take_le(s, i + 1);
        assert(s.take(s.len() as int) =~= s);
    } else {
        assert(s.take(i) =~= s);
    }
}

/// Parses an ASCII digit string (with optional sign) into the magnitude it
/// denotes, failing exactly where `parse_int_spec` does on `s@` with the
/// corresponding sign prepended.
fn parse_digits(s: &[u8], start: usize, neg: bool) -> (r: Option<u64>)
    requires
        0 <= start <= s@.len(),
    ensures
        ({
            let body = s@.skip(start as int);
            let bound: nat = if neg { 0x8000_0000_0000_0000 } else { 0x7fff_ffff_ffff_ffff };
            match r {
                Some(v) => all_digits(body) && digits_val(body) == v && v as nat <= bound,
                None => !(all_digits(body) && digits_val(body) <= bound),
            }
        }),
{
    let ghost body = s@.skip(start as int);
    let len = s.len();
    if start >= len {
        return None;
    }
    let bound: u64 = if neg {
        0x8000_0000_0000_0000
    } else {
        0x7fff_ffff_ffff_ffff
    };
    let mut acc: u64 = 0;
    let mut i = start;
    while i < len
        invariant
            start <= i <= len,
            len == s@.len(),
            body == s@.skip(start as int),
            start < len,
            all_digits(body.take(i - start)) || i == start,
            digits_val(body.take(i - start)) == acc,
            acc <= bound,
            bound == if neg { 0x8000_0000_0000_0000u64 } else { 0x7fff_ffff_ffff_ffffu64 },
        decreases len - i,
    {
        let b = s[i];
        proof {
            assert(body[i - start] == s@[i as int]);
        }
        if b < 48 || b > 57 {
            proof {
                assert(!is_digit(body[i - start]));
                assert(!all_digits(body));
            }
            return None;
        }
        let d = (b - 48) as u64;
        proof {
            assert(body.take(i - start + 1).drop_last() =~= body.take(i - start));
            assert(body.take(i - start + 1).last() == body[i - start]);
        }
        if acc > (bound - d) / 10 {
            proof {
                assert(acc * 10 + d > bound) by (nonlinear_arith)
                    requires
                        acc > (bound - d) / 10,
                        d <= bound,
                        acc >= 0,
                ;
                assert(digits_val(body.take(i - start + 1)) > bound);
                lemma_digits_val_take_le(body, i - start + 1);
                assert(body.take(body.len() as int) =~= body);
                assert(digits_val(body) > bound);
            }
            return None;
        }
        proof {
            assert(acc * 10 + d <= bound) by (nonlinear_arith)
                requires
                    acc <= (bound - d) / 10,
                    d <= bound,
                    acc >= 0,
            ;
        }
        acc = acc * 10 + d;
        i = i + 1;
    }
    proof {
        assert(body.take(len - start) =~= body);
    }
    Some(acc)
}

/// Parses the decimal ASCII form of a signed 64-bit integer, accepting an
/// optional leading `+` or `-` sign, exactly as `str::parse::<i64>` does.
pub fn parse_int(s: &[u8]) -> (r: Option<i64>)
    ensures
        r == parse_int_spec(s@),
{
    let len = s.len();
    if len == 0 {
        return None;
    }
    let first = s[0];
    if first == 43 || first == 45 {
        let neg = first == 45;
        match parse_digits(s, 1, neg) {
            Some(v) => {
                if neg {
                    if v == 0x8000_0000_0000_0000 {
                        Some(i64::MIN)
                    } else {
                        Some(-(v as i64))
                    }
                } else {
                    Some(v as i64)
                }
            },
            None => None,
        }
    } else {
        match parse_digits(s, 0, false) {
            Some(v) => {
                proof {
                    assert(s@.skip(0) =~= s@);
                }
                Some(v as i64)
            },
            None => {
                proof {
                    assert(s@.skip(0) =~= s@);
                }
                None
            },
        }
    }
}

/// Every byte that `dec_digits` produces is an ASCII digit.
pub proof fn lemma_dec_digits_all_digits(n: nat)
    ensures
        all_digits(dec_digits(n)),
        digits_val(dec_digits(n)) == n,
    decreases n,
{
    if n < 10 {
        let t = dec_digits(n);
        assert(t == seq![(48 + n) as u8]);
        assert(t.len() == 1);
        assert(t.drop_last() =~= Seq::<u8>::empty());
        assert(digits_val(Seq::<u8>::empty()) == 0);
        assert(t.last() == (48 + n) as u8);
        assert(digits_val(t) == digits_val(t.drop_last()) * 10 + (t.last() - 48) as nat);
        assert((48 + n) as u8 == 48 + n);
        assert(((48 + n) as u8 - 48) as nat == n);
    } else {
        lemma_dec_digits_all_digits(n / 10);
        let d = (48 + n % 10) as u8;
        assert(dec_digits(n) == dec_digits(n / 10) + seq![d]);
        lemma_digits_val_push(dec_digits(n / 10), d);
        assert(digits_val(dec_digits(n)) == (n / 10) * 10 + n % 10);
        assert((n / 10) * 10 + n % 10 == n) by (nonlinear_arith);
        assert forall|i: int| 0 <= i < dec_digits(n).len() implies is_digit(
            #[trigger] dec_digits(n)[i],
        ) by {
            if i < dec_digits(n / 10).len() {
                assert(dec_digits(n)[i] == dec_digits(n / 10)[i]);
            }
        }
    }
}

/// Parsing inverts rendering: the decimal form of any `i64` parses back to
/// the same value.
pub proof fn lemma_parse_dec_int(n: i64)
    ensures
        parse_int_spec(dec_int(n as int)) == Some(n),
{
    if n >= 0 {
        lemma_dec_digits_all_digits(n as nat);
        assert(dec_int(n as int) == dec_digits(n as nat));
        assert(is_digit(dec_digits(n as nat)[0]));
        assert(dec_digits(n as nat)[0] != 43 && dec_digits(n as nat)[0] != 45);
    } else {
        let m = (-(n as int)) as nat;
        lemma_dec_digits_all_digits(m);
        let s = dec_int(n as int);
        assert(s == seq![45u8] + dec_digits(m));
        assert(s[0] == 45);
        assert(s.skip(1) =~= dec_digits(m));
        assert(digits_val(s.skip(1)) == m);
        assert(m <= 0x8000_0000_0000_0000);
    }
}

/// A decimal rendering never contains a carriage-return byte, so a CR LF
/// terminator after it is always the first one on the wire.
pub proof fn lemma_dec_int_no_cr(n: int)
    ensures
        forall|i: int| 0 <= i < dec_int(n).len() ==> #[trigger] dec_int(n)[i] != 13,
{
    if n >= 0 {
        lemma_dec_digits_all_digits(n as nat);
    } else {
        lemma_dec_digits_all_digits((-n) as nat);
        assert forall|i: int| 0 <= i < dec_int(n).len() implies #[trigger] dec_int(n)[i] != 13 by {
            if i >= 1 {
                assert(dec_int(n)[i] == dec_digits((-n) as nat)[i - 1]);
                assert(is_digit(dec_digits((-n) as nat)[i - 1]));
            }
        }
    }
}

} // verus!
