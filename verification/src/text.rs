//! Decimal rendering of numbers for failure messages and checkpoint blobs,
//! and the content hash the integrity validator keys on.

use vstd::prelude::*;
use vstd::string::StrSliceExecFns;
use vstd::string::StringExecFns;

use crate::domain::DataView;
use crate::domain::MessageData;

verus! {

/// The decimal digit character for `d` (meaningful for `d < 10`).
pub open spec fn digit_char(d: u64) -> char {
    if d == 0 {
        '0'
    } else if d == 1 {
        '1'
    } else if d == 2 {
        '2'
    } else if d == 3 {
        '3'
    } else if d == 4 {
        '4'
    } else if d == 5 {
        '5'
    } else if d == 6 {
        '6'
    } else if d == 7 {
        '7'
    } else if d == 8 {
        '8'
    } else {
        '9'
    }
}

/// The usual decimal rendering of `n`, most significant digit first.
pub open spec fn dec(n: u64) -> Seq<char>
    decreases n,
{
    if n < 10 {
        seq![digit_char(n)]
    } else {
        dec((n / 10) as u64) + seq![digit_char(n % 10)]
    }
}

/// A one-character string slice holding the digit character for `d`.
pub fn digit_str(d: u64) -> (r: &'static str)
    requires
        d < 10,
    ensures
        r@ =~= seq![digit_char(d)],
{
    proof {
        reveal_strlit("0");
        reveal_strlit("1");
        reveal_strlit("2");
        reveal_strlit("3");
        reveal_strlit("4");
        reveal_strlit("5");
        reveal_strlit("6");
        reveal_strlit("7");
        reveal_strlit("8");
        reveal_strlit("9");
    }
    if d == 0 {
        "0"
    } else if d == 1 {
        "1"
    } else if d == 2 {
        "2"
    } else if d == 3 {
        "3"
    } else if d == 4 {
        "4"
    } else if d == 5 {
        "5"
    } else if d == 6 {
        "6"
    } else if d == 7 {
        "7"
    } else if d == 8 {
        "8"
    } else {
        "9"
    }
}

/// Appends the decimal rendering of `n` to `out`.
pub fn append_dec(out: &mut String, n: u64)
    ensures
        final(out)@ == old(out)@ + dec(n),
    decreases n,
{
    if n < 10 {
        out.append(digit_str(n));
    } else {
        proof {
            assert(n / 10 < n) by (nonlinear_arith)
                requires
                    n >= 10,
            ;
        }
        append_dec(out, n / 10);
        out.append(digit_str(n % 10));
        proof {
            assert(old(out)@ + dec((n / 10) as u64) + seq![digit_char(n % 10)] =~= old(out)@ + dec(
                n,
            ));
        }
    }
}

/// The decimal rendering of `n` as an owned string.
pub fn u64_to_string(n: u64) -> (r: String)
    ensures
        r@ == dec(n),
{
    let mut out = String::new();
    append_dec(&mut out, n);
    proof {
        assert(Seq::<char>::empty() + dec(n) =~= dec(n));
    }
    out
}

/// Folds the characters of `s` into the running hash `h`, multiplying by 31
/// and adding each character's code point, modulo 2^64.
pub open spec fn fold_hash(h: u64, s: Seq<char>) -> u64
    decreases s.len(),
{
    if s.len() == 0 {
        h
    } else {
        (((fold_hash(h, s.drop_last()) as int) * 31 + s.last() as int) % 0x10000000000000000) as u64
    }
}

/// The deterministic content hash of message data: key presence, key
/// characters and payload characters all contribute. Used only for equality
/// comparison; collisions are an accepted approximation.
pub open spec fn data_hash(d: DataView) -> u64 {
    match d.key {
        Some(k) => fold_hash(fold_hash(1, k), d.payload),
        None => fold_hash(fold_hash(0, Seq::<char>::empty()), d.payload),
    }
}

/// Folds one string into a running hash.
pub fn fold_hash_str(h0: u64, s: &str) -> (r: u64)
    ensures
        r == fold_hash(h0, s@),
{
    let len = s.unicode_len();
    let mut h = h0;
    let mut i: usize = 0;
    while i < len
        invariant
            i <= len,
            len == s@.len(),
            h == fold_hash(h0, s@.take(i as int)),
        decreases len - i,
    {
        let c = s.get_char(i);
        let wide: u128 = (h as u128) * 31 + (c as u128);
        h = (wide % 0x10000000000000000) as u64;
        i = i + 1;
        proof {
            assert(s@.take(i as int).drop_last() =~= s@.take(i as int - 1));
            assert(s@.take(i as int).last() == s@[i as int - 1]);
        }
    }
    proof {
        assert(s@.take(len as int) =~= s@);
    }
    h
}

/// Computes the content hash of a message's data, fresh per event.
pub fn compute_data_hash(d: &MessageData) -> (r: u64)
    ensures
        r == data_hash(d@),
{
    let h0: u64 = match &d.key {
        Some(k) => fold_hash_str(1, k.as_str()),
        None => 0,
    };
    let r = fold_hash_str(h0, d.payload.as_str());
    proof {
        if d.key is None {
            assert(fold_hash(0, Seq::<char>::empty()) == 0);
        }
    }
    r
}

} // verus!
