//! Decimal integer fields of the wire format: the canonical digit string of
//! an integer, the value of a digit string, and the verified printer and
//! parser the codec uses for length, count and integer lines.

use vstd::prelude::*;
use vstd::arithmetic::div_mod::lemma_fundamental_div_mod;

verus! {

pub open spec fn is_digit(b: u8) -> bool {
    48 <= b <= 57
}

pub open spec fn digits_ok(s: Seq<u8>) -> bool {
    forall|i: int| 0 <= i < s.len() ==> is_digit(#[trigger] s[i])
}

/// The value of a digit string, most significant digit first.
pub open spec fn dec_value(s: Seq<u8>) -> int
    decreases s.len(),
{
    if s.len() == 0 {
        0
    } else {
        dec_value(s.drop_last()) * 10 + (s.last() - 48)
    }
}

/// The canonical decimal digit string of a natural number: no sign, no
/// leading zero except for zero itself.
pub open spec fn dec_digits(n: nat) -> Seq<u8>
    decreases n,
{
    if n < 10 {
        seq![(48 + n) as u8]
    } else {
        dec_digits(n / 10).push((48 + n % 10) as u8)
    }
}

/// The canonical decimal rendering of an integer: a leading minus sign for
/// negative values, then the digits of the magnitude.
pub open spec fn dec_int(i: int) -> Seq<u8> {
    if i < 0 {
        seq![45u8] + dec_digits((-i) as nat)
    } else {
        dec_digits(i as nat)
    }
}

/// What a numeric wire line means: an optional minus sign followed by at
/// least one digit, and nothing else; any other shape has no value.
pub open spec fn spec_parse_dec(s: Seq<u8>) -> Option<int> {
    if s.len() >= 2 && s[0] == 45u8 {
        if digits_ok(s.skip(1)) {
            Some(-dec_value(s.skip(1)))
        } else {
            None
        }
    } else if s.len() >= 1 && s[0] != 45u8 {
        if digits_ok(s) {
            Some(dec_value(s))
        } else {
            None
        }
    } else {
        None
    }
}

pub open spec fn int_abs(i: int) -> int {
    if i < 0 {
        -i
    } else {
        i
    }
}

pub proof fn lemma_dec_digits_props(n: nat)
    ensures
        dec_digits(n).len() >= 1,
        digits_ok(dec_digits(n)),
        dec_value(dec_digits(n)) == n,
    decreases n,
{
    if n < 10 {
        let s = seq![(48 + n) as u8];
        assert(s.drop_last() =~= Seq::<u8>::empty());
        assert(dec_value(Seq::<u8>::empty()) == 0);
        assert(s.last() == 48 + n);
        assert(dec_value(s) == n);
    } else {
        lemma_dec_digits_props(n / 10);
        let d = dec_digits(n / 10);
        let s = d.push((48 + n % 10) as u8);
        assert(s.drop_last() =~= d);
        assert(s.last() == (48 + n % 10) as u8);
        lemma_fundamental_div_mod(n as int, 10);
        assert(dec_value(s) == (n / 10) * 10 + n % 10);
        assert(forall|i: int| 0 <= i < s.len() ==> is_digit(#[trigger] s[i]));
    }
}

/// Values are non-negative and a digit string's value dominates the value of
/// each of its prefixes.
pub proof fn lemma_dec_value_prefix(s: Seq<u8>, k: int)
    requires
        0 <= k <= s.len(),
        digits_ok(s),
    ensures
        dec_value(s) >= 0,
        dec_value(s.subrange(0, k)) <= dec_value(s),
    decreases s.len(),
{
    if s.len() == 0 {
        assert(s.subrange(0, k) =~= s);
    } else {
        let d = s.drop_last();
        assert(digits_ok(d));
        lemma_dec_value_prefix(d, if k <= d.len() { k } else { d.len() as int });
        assert(dec_value(s) == dec_value(d) * 10 + (s.last() - 48));
        assert(dec_value(d) * 10 >= dec_value(d)) by (nonlinear_arith)
            requires dec_value(d) >= 0;
        if k == s.len() {
            assert(s.subrange(0, k) =~= s);
        } else {
            assert(s.subrange(0, k) =~= d.subrange(0, k));
        }
    }
}

/// Parsing inverts printing: the canonical rendering of any integer reads
/// back as exactly that integer.
pub proof fn lemma_parse_dec_int(i: int)
    ensures
        spec_parse_dec(dec_int(i)) == Some(i),
{
    if i < 0 {
        let d = dec_digits((-i) as nat);
        lemma_dec_digits_props((-i) as nat);
        let s = seq![45u8] + d;
        assert(s[0] == 45u8);
        assert(s.len() >= 2);
        assert(s.skip(1) =~= d);
    } else {
        let s = dec_digits(i as nat);
        lemma_dec_digits_props(i as nat);
        assert(is_digit(s[0]));
        assert(s[0] != 45u8);
    }
}

/// The outcome of reading a numeric line: whether the shape was numeric at
/// all, its sign, and its magnitude, with `sat` marking a magnitude too
/// large for a 64-bit word.
pub struct ParsedNum {
    pub ok: bool,
    pub neg: bool,
    pub sat: bool,
    pub mag: u64,
}

/// Reads the decimal field `buf[a..b]`. The result carries the exact
/// magnitude when it fits a `u64` and otherwise says so.
#[verifier::loop_isolation(false)]
pub fn parse_dec(buf: &[u8], a: usize, b: usize) -> (r: ParsedNum)
    requires
        a <= b <= buf@.len(),
    ensures
        ({
            let s = buf@.subrange(a as int, b as int);
            &&& (r.ok <==> spec_parse_dec(s) is Some)
            &&& spec_parse_dec(s) matches Some(v) ==> {
                &&& r.neg == (s[0] == 45u8)
                &&& (r.neg ==> v <= 0)
                &&& (!r.neg ==> v >= 0)
                &&& (!r.sat ==> r.mag as int == int_abs(v))
                &&& (r.sat ==> int_abs(v) > u64::MAX)
            }
        }),
{
    let ghost s = buf@.subrange(a as int, b as int);
    if a == b {
        return ParsedNum { ok: false, neg: false, sat: false, mag: 0 };
    }
    let neg = buf[a] == 45u8;
    let ds: usize = if neg {
        a + 1
    } else {
        a
    };
    if ds == b {
        // a bare minus sign has no digits
        return ParsedNum { ok: false, neg, sat: false, mag: 0 };
    }
    let ghost dseq = buf@.subrange(ds as int, b as int);
    proof {
        if neg {
            assert(dseq =~= s.skip(1));
        } else {
            assert(dseq =~= s);
        }
    }
    // first pass: the field must be digits throughout
    let mut i: usize = ds;
    while i < b
        invariant
            ds <= i <= b <= buf@.len(),
            dseq == buf@.subrange(ds as int, b as int),
            forall|k: int| ds <= k < i ==> is_digit(#[trigger] buf@[k]),
        decreases b - i,
    {
        let c = buf[i];
        if c < 48 || c > 57 {
            proof {
                let idx = i - ds;
                assert(0 <= idx < dseq.len());
                assert(dseq[idx] == buf@[i as int]);
                assert(c == buf@[i as int]);
                assert(!is_digit(dseq[idx]));
                assert(!digits_ok(dseq));
            }
            return ParsedNum { ok: false, neg, sat: false, mag: 0 };
        }
        i = i + 1;
    }
    proof {
        assert(forall|k: int| 0 <= k < dseq.len() ==> dseq[k] == #[trigger] buf@.subrange(
            ds as int,
            b as int,
        )[k] && dseq[k] == buf@[ds + k]);
        assert(digits_ok(dseq));
    }
    // second pass: accumulate the magnitude, watching for overflow
    let mut mag: u64 = 0;
    let mut sat = false;
    let mut j: usize = ds;
    while j < b
        invariant
            ds <= j <= b <= buf@.len(),
            digits_ok(dseq),
            dseq == buf@.subrange(ds as int, b as int),
            !sat ==> mag as int == dec_value(dseq.subrange(0, j - ds)),
            sat ==> dec_value(dseq.subrange(0, j - ds)) > u64::MAX,
        decreases b - j,
    {
        let c = buf[j];
        proof {
            assert(buf@.subrange(ds as int, b as int)[j - ds] == buf@[j as int]);
            assert(is_digit(dseq[j - ds]));
        }
        let d: u64 = (c - 48) as u64;
        let ghost pre = dseq.subrange(0, j - ds);
        let ghost cur = dseq.subrange(0, j + 1 - ds);
        proof {
            assert(cur.drop_last() =~= pre);
            assert(cur.last() == buf@[j as int]);
            assert(dec_value(cur) == dec_value(pre) * 10 + (buf@[j as int] - 48));
            lemma_dec_value_prefix(dseq, j + 1 - ds);
            lemma_dec_value_prefix(pre, pre.len() as int);
        }
        if sat {
            proof {
                assert(dec_value(pre) * 10 >= dec_value(pre)) by (nonlinear_arith)
                    requires dec_value(pre) >= 0;
            }
        } else if mag > (u64::MAX - d) / 10 {
            proof {
                assert(mag * 10 + d > u64::MAX) by (nonlinear_arith)
                    requires
                        mag > (u64::MAX - d) / 10,
                        0 <= d <= 9,
                        mag <= u64::MAX;
            }
            sat = true;
        } else {
            proof {
                assert(mag * 10 + d <= u64::MAX) by (nonlinear_arith)
                    requires
                        mag <= (u64::MAX - d) / 10,
                        0 <= d <= 9;
            }
            mag = mag * 10 + d;
        }
        j = j + 1;
    }
    proof {
        assert(dseq.subrange(0, b - ds) =~= dseq);
        if neg {
            assert(s[0] == 45u8);
            assert(spec_parse_dec(s) == Some(-dec_value(dseq)));
        } else {
            assert(is_digit(s[0]));
            assert(spec_parse_dec(s) == Some(dec_value(dseq)));
        }
    }
    ParsedNum { ok: true, neg, sat, mag }
}

/// Prints a 64-bit natural number as its canonical digit string.
pub fn fmt_u64(n: u64) -> (r: Vec<u8>)
    ensures
        r@ == dec_digits(n as nat),
    decreases n,
{
    if n < 10 {
        let mut v: Vec<u8> = Vec::new();
        v.push(48 + (n as u8));
        proof {
            assert(v@ =~= seq![(48 + n as nat) as u8]);
        }
        v
    } else {
        let mut v = fmt_u64(n / 10);
        v.push(48 + ((n % 10) as u8));
        proof {
            assert(v@ =~= dec_digits((n / 10) as nat).push((48 + (n as nat) % 10) as u8));
        }
        v
    }
}

} // verus!
