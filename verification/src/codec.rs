//! The checkpoint wire format: a self-describing text encoding of numbers and
//! strings, with a parser proved to invert the encoder. Numbers are written
//! least significant digit first, each digit followed by `+` (more digits) or
//! `;` (end); strings are length-prefixed, so no escaping is ever needed.

use vstd::prelude::*;
use vstd::string::StrSliceExecFns;
use vstd::string::StringExecFns;

use crate::text::digit_char;
use crate::text::digit_str;

verus! {

/// The numeric value of a decimal digit character, `None` for any other.
pub open spec fn digval(c: char) -> Option<u64> {
    if c == '0' {
        Some(0)
    } else if c == '1' {
        Some(1)
    } else if c == '2' {
        Some(2)
    } else if c == '3' {
        Some(3)
    } else if c == '4' {
        Some(4)
    } else if c == '5' {
        Some(5)
    } else if c == '6' {
        Some(6)
    } else if c == '7' {
        Some(7)
    } else if c == '8' {
        Some(8)
    } else if c == '9' {
        Some(9)
    } else {
        None
    }
}

/// Executable counterpart of `digval`.
pub fn digval_exec(c: char) -> (r: Option<u64>)
    ensures
        r == digval(c),
{
    if c == '0' {
        Some(0)
    } else if c == '1' {
        Some(1)
    } else if c == '2' {
        Some(2)
    } else if c == '3' {
        Some(3)
    } else if c == '4' {
        Some(4)
    } else if c == '5' {
        Some(5)
    } else if c == '6' {
        Some(6)
    } else if c == '7' {
        Some(7)
    } else if c == '8' {
        Some(8)
    } else if c == '9' {
        Some(9)
    } else {
        None
    }
}

/// Encoding of a number: least significant digit first, `+` between digits,
/// `;` after the last digit.
pub open spec fn enc_u64(n: u64) -> Seq<char>
    decreases n,
{
    if n < 10 {
        seq![digit_char(n), ';']
    } else {
        seq![digit_char(n % 10), '+'] + enc_u64((n / 10) as u64)
    }
}

/// Parses an encoded number from the front of `s`; returns the value and what
/// follows it, or `None` when `s` does not start with a well-formed encoding
/// of a value that fits in a `u64`.
pub open spec fn parse_u64(s: Seq<char>) -> Option<(u64, Seq<char>)>
    decreases s.len(),
{
    if s.len() < 2 {
        None
    } else {
        match digval(s[0]) {
            None => None,
            Some(d) => if s[1] == ';' {
                Some((d, s.skip(2)))
            } else if s[1] == '+' {
                match parse_u64(s.skip(2)) {
                    None => None,
                    Some((m, rest)) => if m >= 1 && d + 10 * (m as int) <= u64::MAX {
                        Some(((d + 10 * m) as u64, rest))
                    } else {
                        None
                    },
                }
            } else {
                None
            },
        }
    }
}

/// The number parser inverts the number encoder.
pub proof fn lemma_parse_enc_u64(n: u64, rest: Seq<char>)
    ensures
        parse_u64(enc_u64(n) + rest) == Some((n, rest)),
    decreases n,
{
    let s = enc_u64(n) + rest;
    if n < 10 {
        assert(s[0] == digit_char(n));
        assert(s[1] == ';');
        assert(digval(digit_char(n)) == Some(n));
        assert(s.skip(2) =~= rest);
    } else {
        assert(n / 10 >= 1 && n / 10 < n) by (nonlinear_arith)
            requires
                n >= 10,
        ;
        lemma_parse_enc_u64(n / 10, rest);
        assert(s[0] == digit_char(n % 10));
        assert(s[1] == '+');
        assert(digval(digit_char(n % 10)) == Some(n % 10));
        assert(s.skip(2) =~= enc_u64((n / 10) as u64) + rest);
        assert(n % 10 + 10 * ((n / 10) as int) == n) by (nonlinear_arith);
    }
}

/// Encoding of a string: its character count, then its characters verbatim.
pub open spec fn enc_str(s: Seq<char>) -> Seq<char> {
    enc_u64(s.len() as u64) + s
}

/// Parses an encoded string from the front of `s`.
pub open spec fn parse_str(s: Seq<char>) -> Option<(Seq<char>, Seq<char>)> {
    match parse_u64(s) {
        None => None,
        Some((n, r)) => if r.len() >= n {
            Some((r.take(n as int), r.skip(n as int)))
        } else {
            None
        },
    }
}

/// Concatenation of sequences is associative.
pub proof fn lemma_concat_assoc<A>(a: Seq<A>, b: Seq<A>, c: Seq<A>)
    ensures
        (a + b) + c == a + (b + c),
{
    assert((a + b) + c =~= a + (b + c));
}

/// The string parser inverts the string encoder.
pub proof fn lemma_parse_enc_str(s: Seq<char>, rest: Seq<char>)
    requires
        s.len() <= u64::MAX,
    ensures
        parse_str(enc_str(s) + rest) == Some((s, rest)),
{
    assert(enc_str(s) + rest =~= enc_u64(s.len() as u64) + (s + rest));
    lemma_parse_enc_u64(s.len() as u64, s + rest);
    assert((s + rest).take(s.len() as int) =~= s);
    assert((s + rest).skip(s.len() as int) =~= rest);
}

/// The characters of a string slice, in order, as a vector.
pub fn str_to_chars(s: &str) -> (r: Vec<char>)
    ensures
        r@ == s@,
{
    let len = s.unicode_len();
    let mut v: Vec<char> = Vec::new();
    let mut i: usize = 0;
    while i < len
        invariant
            i <= len,
            len == s@.len(),
            v@ == s@.take(i as int),
        decreases len - i,
    {
        let c = s.get_char(i);
        v.push(c);
        i = i + 1;
        proof {
            assert(v@ =~= s@.take(i as int));
        }
    }
    proof {
        assert(s@.take(len as int) =~= s@);
    }
    v
}

/// Relies on std's `FromIterator<char> for String` through `Iterator::collect`:
/// collecting characters yields the string of exactly those characters.
#[verifier::external_body]
pub fn chars_to_string(v: &Vec<char>, from: usize, to: usize) -> (r: String)
    requires
        from <= to,
        to <= v@.len(),
    ensures
        r@ == v@.subrange(from as int, to as int),
{
    v[from..to].iter().collect()
}

/// Parses an encoded number from position `pos` of `v`.
pub fn parse_u64_chars(v: &Vec<char>, pos: usize) -> (r: Option<(u64, usize)>)
    requires
        pos <= v@.len(),
    ensures
        match r {
            Some(p) => pos <= p.1 && p.1 <= v@.len() && parse_u64(v@.skip(pos as int)) == Some(
                (p.0, v@.skip(p.1 as int)),
            ),
            None => parse_u64(v@.skip(pos as int)) is None,
        },
    decreases v@.len() - pos,
{
    let ghost s = v@.skip(pos as int);
    if v.len() - pos < 2 {
        return None;
    }
    let c0 = v[pos];
    proof {
        assert(s[0] == v@[pos as int]);
    }
    match digval_exec(c0) {
        None => None,
        Some(d) => {
            let c1 = v[pos + 1];
            proof {
                assert(s[1] == v@[pos as int + 1]);
            }
            if c1 == ';' {
                proof {
                    assert(s.skip(2) =~= v@.skip(pos as int + 2));
                }
                Some((d, pos + 2))
            } else if c1 == '+' {
                proof {
                    assert(s.skip(2) =~= v@.skip(pos as int + 2));
                }
                match parse_u64_chars(v, pos + 2) {
                    None => None,
                    Some((m, p2)) => {
                        if m >= 1 && m <= (u64::MAX - d) / 10 {
                            proof {
                                assert(d + 10 * (m as int) <= u64::MAX) by (nonlinear_arith)
                                    requires
                                        d < 10,
                                        m <= (u64::MAX - d) / 10,
                                ;
                            }
                            Some((d + 10 * m, p2))
                        } else {
                            proof {
                                if m >= 1 {
                                    assert(d + 10 * (m as int) > u64::MAX) by (nonlinear_arith)
                                        requires
                                            d < 10,
                                            m > (u64::MAX - d) / 10,
                                    ;
                                }
                            }
                            None
                        }
                    },
                }
            } else {
                None
            }
        },
    }
}

/// Parses an encoded string from position `pos` of `v`.
pub fn parse_str_chars(v: &Vec<char>, pos: usize) -> (r: Option<(String, usize)>)
    requires
        pos <= v@.len(),
    ensures
        match r {
            Some(p) => pos <= p.1 && p.1 <= v@.len() && parse_str(v@.skip(pos as int)) == Some(
                (p.0@, v@.skip(p.1 as int)),
            ),
            None => parse_str(v@.skip(pos as int)) is None,
        },
{
    match parse_u64_chars(v, pos) {
        None => None,
        Some((n, p1)) => {
            let remaining = v.len() - p1;
            if n <= remaining as u64 {
                let end = p1 + (n as usize);
                let out = chars_to_string(v, p1, end);
                proof {
                    let r = v@.skip(p1 as int);
                    assert(r.take(n as int) =~= v@.subrange(p1 as int, end as int));
                    assert(r.skip(n as int) =~= v@.skip(end as int));
                }
                Some((out, end))
            } else {
                None
            }
        },
    }
}

/// Appends the encoding of `n` to `out`.
pub fn append_enc_u64(out: &mut String, n: u64)
    ensures
        final(out)@ == old(out)@ + enc_u64(n),
    decreases n,
{
    proof {
        reveal_strlit(";");
        reveal_strlit("+");
    }
    if n < 10 {
        out.append(digit_str(n));
        out.append(";");
        proof {
            assert(";"@ =~= seq![';']);
            assert(old(out)@ + seq![digit_char(n)] + seq![';'] =~= old(out)@ + enc_u64(n));
        }
    } else {
        proof {
            assert(n / 10 < n) by (nonlinear_arith)
                requires
                    n >= 10,
            ;
        }
        out.append(digit_str(n % 10));
        out.append("+");
        append_enc_u64(out, n / 10);
        proof {
            assert("+"@ =~= seq!['+']);
            assert(old(out)@ + seq![digit_char(n % 10)] + seq!['+'] + enc_u64((n / 10) as u64)
                =~= old(out)@ + enc_u64(n));
        }
    }
}

/// Appends the encoding of `s` to `out`.
pub fn append_enc_str(out: &mut String, s: &str)
    ensures
        final(out)@ == old(out)@ + enc_str(s@),
{
    let n = s.unicode_len();
    append_enc_u64(out, n as u64);
    out.append(s);
    proof {
        assert(old(out)@ + enc_u64(s@.len() as u64) + s@ =~= old(out)@ + enc_str(s@));
    }
}

} // verus!
