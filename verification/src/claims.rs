//! The claims document carried inside a token: a JSON object
//! `{"sub":"...","exp":N}` over UTF-8 bytes.  Printing and parsing are
//! verified inverses; the subject may hold any bytes, with the quote, the
//! backslash and control bytes escaped as JSON demands.

use vstd::arithmetic::div_mod::{lemma_fundamental_div_mod, lemma_mod_pos_bound};
use vstd::prelude::*;

verus! {

/// Lowercase hex digit for a value below sixteen.
pub open spec fn hex_byte(v: int) -> u8 {
    if v < 10 {
        (48 + v) as u8
    } else {
        (87 + v) as u8
    }
}

/// Inverse of `hex_byte`: the value of a lowercase hex digit.
pub open spec fn hex_val(b: u8) -> Option<u8> {
    if 48 <= b <= 57 {
        Some((b - 48) as u8)
    } else if 97 <= b <= 102 {
        Some((b - 97 + 10) as u8)
    } else {
        None
    }
}

pub proof fn lemma_hex_byte_val(v: int)
    requires
        0 <= v < 16,
    ensures
        hex_val(hex_byte(v)) == Some(v as u8),
{
}

/// How one byte of the subject appears inside the JSON string literal.
pub open spec fn esc_byte(b: u8) -> Seq<u8> {
    if b == 34 {
        seq![92u8, 34u8]
    } else if b == 92 {
        seq![92u8, 92u8]
    } else if b < 32 {
        seq![92u8, 117u8, 48u8, 48u8, hex_byte(b as int / 16), hex_byte(b as int % 16)]
    } else {
        seq![b]
    }
}

/// The whole subject, escaped.
pub open spec fn escape(s: Seq<u8>) -> Seq<u8>
    decreases s.len(),
{
    if s.len() == 0 {
        Seq::empty()
    } else {
        esc_byte(s[0]) + escape(s.skip(1))
    }
}

pub proof fn lemma_escape_append(a: Seq<u8>, b: Seq<u8>)
    ensures
        escape(a + b) == escape(a) + escape(b),
    decreases a.len(),
{
    if a.len() == 0 {
        assert(a + b =~= b);
        assert(escape(a) =~= Seq::<u8>::empty());
        assert(escape(a + b) =~= escape(a) + escape(b));
    } else {
        lemma_escape_append(a.skip(1), b);
        assert((a + b).skip(1) =~= a.skip(1) + b);
        assert(escape(a + b) =~= escape(a) + escape(b));
    }
}

/// Read a JSON string body from the front of `s` up to its closing quote:
/// the unescaped content, and how many bytes were consumed (closing quote
/// included).  `None` when no well-formed terminated literal starts here.
pub open spec fn unescape(s: Seq<u8>) -> Option<(Seq<u8>, int)>
    decreases s.len(),
{
    if s.len() == 0 {
        None
    } else if s[0] == 34 {
        Some((Seq::empty(), 1))
    } else if s[0] == 92 {
        if s.len() < 2 {
            None
        } else if s[1] == 34 || s[1] == 92 {
            match unescape(s.skip(2)) {
                Some(p) => Some((seq![s[1]] + p.0, p.1 + 2)),
                None => None,
            }
        } else if s[1] == 117 {
            if s.len() < 6 {
                None
            } else if s[2] == 48 && s[3] == 48 {
                match (hex_val(s[4]), hex_val(s[5])) {
                    (Some(h), Some(l)) => {
                        if h * 16 + l < 32 {
                            match unescape(s.skip(6)) {
                                Some(p) => Some((seq![(h * 16 + l) as u8] + p.0, p.1 + 6)),
                                None => None,
                            }
                        } else {
                            None
                        }
                    },
                    _ => None,
                }
            } else {
                None
            }
        } else {
            None
        }
    } else if s[0] < 32 {
        None
    } else {
        match unescape(s.skip(1)) {
            Some(p) => Some((seq![s[0]] + p.0, p.1 + 1)),
            None => None,
        }
    }
}

/// Reading back an escaped subject followed by its closing quote yields the
/// subject and stops right after the quote, whatever follows.
pub proof fn lemma_unescape_escape(c: Seq<u8>, rest: Seq<u8>)
    ensures
        unescape(escape(c) + seq![34u8] + rest) == Some((c, escape(c).len() + 1 as int)),
    decreases c.len(),
{
    let s = escape(c) + seq![34u8] + rest;
    if c.len() == 0 {
        assert(escape(c) =~= Seq::<u8>::empty());
        assert(s[0] == 34);
        assert(unescape(s) == Some((Seq::<u8>::empty(), 1int)));
        assert(c =~= Seq::<u8>::empty());
    } else {
        let b = c[0];
        let c1 = c.skip(1);
        lemma_unescape_escape(c1, rest);
        let s1 = escape(c1) + seq![34u8] + rest;
        assert(escape(c) =~= esc_byte(b) + escape(c1));
        if b == 34 || b == 92 {
            assert(s[0] == 92);
            assert(s[1] == b);
            assert(s.skip(2) =~= s1);
            assert(seq![s[1]] + c1 =~= c);
        } else if b < 32 {
            lemma_hex_byte_val(b as int / 16);
            lemma_hex_byte_val(b as int % 16);
            assert(s[0] == 92);
            assert(s[1] == 117);
            assert(s[2] == 48);
            assert(s[3] == 48);
            assert(s[4] == hex_byte(b as int / 16));
            assert(s[5] == hex_byte(b as int % 16));
            assert((b as int / 16) * 16 + (b as int % 16) == b as int);
            assert(s.skip(6) =~= s1);
            assert(seq![b] + c1 =~= c);
        } else {
            assert(s[0] == b);
            assert(s.skip(1) =~= s1);
            assert(seq![s[0]] + c1 =~= c);
        }
    }
}

/// Decimal digits of a nonnegative number, most significant first.
pub open spec fn dec_digits(n: int) -> Seq<u8>
    decreases n,
{
    if n < 10 {
        seq![(48 + n) as u8]
    } else {
        dec_digits(n / 10) + seq![(48 + n % 10) as u8]
    }
}

pub open spec fn is_digit(b: u8) -> bool {
    48 <= b <= 57
}

pub open spec fn all_digits(s: Seq<u8>) -> bool {
    forall|i: int| 0 <= i < s.len() ==> is_digit(#[trigger] s[i])
}

/// The number a digit string denotes.
pub open spec fn digits_val(s: Seq<u8>) -> int
    decreases s.len(),
{
    if s.len() == 0 {
        0
    } else {
        digits_val(s.take(s.len() - 1)) * 10 + (s.last() - 48)
    }
}

pub proof fn lemma_dec_digits(n: int)
    requires
        0 <= n,
    ensures
        dec_digits(n).len() >= 1,
        all_digits(dec_digits(n)),
        digits_val(dec_digits(n)) == n,
    decreases n,
{
    lemma_fundamental_div_mod(n, 10);
    lemma_mod_pos_bound(n, 10);
    if n < 10 {
        let d = dec_digits(n);
        assert(d.take(d.len() - 1) =~= Seq::<u8>::empty());
        assert(digits_val(Seq::<u8>::empty()) == 0);
    } else {
        lemma_dec_digits(n / 10);
        let d = dec_digits(n);
        let p = dec_digits(n / 10);
        assert(d.take(d.len() - 1) =~= p);
        assert(d.last() == (48 + n % 10) as u8);
        assert(digits_val(d) == digits_val(p) * 10 + n % 10);
        assert forall|i: int| 0 <= i < d.len() implies is_digit(#[trigger] d[i]) by {
            if i < d.len() - 1 {
                assert(d[i] == p[i]);
            } else {
                assert(d[i] == d.last());
            }
        }
    }
}

/// A digit string never denotes less than any of its prefixes.
pub proof fn lemma_digits_val_prefix(s: Seq<u8>, i: int)
    requires
        0 <= i <= s.len(),
        all_digits(s),
    ensures
        digits_val(s.take(i)) >= 0,
        digits_val(s) >= digits_val(s.take(i)),
    decreases s.len() - i,
{
    if i == s.len() {
        assert(s.take(i) =~= s);
        lemma_digits_val_nonneg(s);
    } else {
        lemma_digits_val_prefix(s, i + 1);
        let t = s.take(i + 1);
        assert(t.take(t.len() - 1) =~= s.take(i));
        lemma_digits_val_nonneg(s.take(i));
        assert(digits_val(t) == digits_val(s.take(i)) * 10 + (t.last() - 48));
    }
}

pub proof fn lemma_digits_val_nonneg(s: Seq<u8>)
    requires
        all_digits(s),
    ensures
        digits_val(s) >= 0,
    decreases s.len(),
{
    if s.len() > 0 {
        assert(all_digits(s.take(s.len() - 1)));
        lemma_digits_val_nonneg(s.take(s.len() - 1));
    }
}

/// `{"sub":"` — how every claims document opens.
pub open spec fn claims_prefix() -> Seq<u8> {
    seq![123u8, 34u8, 115u8, 117u8, 98u8, 34u8, 58u8, 34u8]
}

/// `,"exp":` — between the subject's closing quote and the expiry.
pub open spec fn claims_mid() -> Seq<u8> {
    seq![44u8, 34u8, 101u8, 120u8, 112u8, 34u8, 58u8]
}

/// The claims document for a subject (as UTF-8 bytes) and an expiry.
pub open spec fn claims_json(sub: Seq<u8>, exp: u64) -> Seq<u8> {
    claims_prefix() + escape(sub) + seq![34u8] + claims_mid() + dec_digits(exp as int) + seq![
        125u8,
    ]
}

/// Parse a claims document: accepts exactly the texts of the shape
/// `{"sub":"<escaped>","exp":<digits>}` whose expiry fits in a `u64`.
pub open spec fn parse_claims(s: Seq<u8>) -> Option<(Seq<u8>, u64)> {
    if s.len() < 8 {
        None
    } else if s.take(8) != claims_prefix() {
        None
    } else {
        match unescape(s.skip(8)) {
            None => None,
            Some(p) => {
                let rest = s.skip(8).skip(p.1);
                if rest.len() < 7 {
                    None
                } else if rest.take(7) != claims_mid() {
                    None
                } else {
                    let ds = rest.skip(7);
                    if ds.len() < 2 {
                        None
                    } else if ds.last() != 125 {
                        None
                    } else {
                        let digits = ds.take(ds.len() - 1);
                        if !all_digits(digits) {
                            None
                        } else if digits_val(digits) > u64::MAX {
                            None
                        } else {
                            Some((p.0, digits_val(digits) as u64))
                        }
                    }
                }
            },
        }
    }
}

/// Parsing inverts printing: every claims document gives back its subject
/// and expiry.
#[verifier::rlimit(50)]
pub proof fn lemma_claims_round_trip(sub: Seq<u8>, exp: u64)
    ensures
        parse_claims(claims_json(sub, exp)) == Some((sub, exp)),
{
    let s = claims_json(sub, exp);
    let e = escape(sub);
    let dd = dec_digits(exp as int);
    lemma_dec_digits(exp as int);
    assert(s.take(8) =~= claims_prefix());
    let after = s.skip(8);
    assert(after =~= e + seq![34u8] + (claims_mid() + dd + seq![125u8]));
    lemma_unescape_escape(sub, claims_mid() + dd + seq![125u8]);
    assert(unescape(after) == Some((sub, e.len() + 1 as int)));
    let rest = after.skip(e.len() as int + 1);
    assert(rest =~= claims_mid() + dd + seq![125u8]);
    assert(rest.take(7) =~= claims_mid());
    let ds = rest.skip(7);
    assert(ds =~= dd + seq![125u8]);
    assert(ds.last() == 125);
    assert(ds.take(ds.len() - 1) =~= dd);
    assert(digits_val(dd) == exp as int);
}

fn hex_byte_of(v: u8) -> (r: u8)
    requires
        v < 16,
    ensures
        r == hex_byte(v as int),
{
    if v < 10 {
        48 + v
    } else {
        87 + v
    }
}

fn hex_val_of(b: u8) -> (r: Option<u8>)
    ensures
        r == hex_val(b),
{
    if 48 <= b && b <= 57 {
        Some(b - 48)
    } else if 97 <= b && b <= 102 {
        Some(b - 97 + 10)
    } else {
        None
    }
}

/// Append the escaped form of the subject to `out`.
fn push_escaped(out: &mut Vec<u8>, sub: &[u8])
    ensures
        final(out)@ == old(out)@ + escape(sub@),
{
    let ghost base = out@;
    let mut i: usize = 0;
    while i < sub.len()
        invariant
            i <= sub.len(),
            out@ == base + escape(sub@.take(i as int)),
        decreases sub.len() - i,
    {
        let ghost prev = out@;
        let b: u8 = sub[i];
        if b == 34 {
            out.push(92);
            out.push(34);
        } else if b == 92 {
            out.push(92);
            out.push(92);
        } else if b < 32 {
            out.push(92);
            out.push(117);
            out.push(48);
            out.push(48);
            out.push(hex_byte_of(b / 16));
            out.push(hex_byte_of(b % 16));
        } else {
            out.push(b);
        }
        proof {
            lemma_escape_append(sub@.take(i as int), seq![b]);
            assert(sub@.take(i as int) + seq![b] =~= sub@.take(i + 1));
            assert(seq![b].skip(1) =~= Seq::<u8>::empty());
            assert(escape(Seq::<u8>::empty()) == Seq::<u8>::empty());
            assert(escape(seq![b]) =~= esc_byte(b));
            assert(out@ =~= prev + esc_byte(b));
        }
        i = i + 1;
    }
    proof {
        assert(sub@.take(sub@.len() as int) =~= sub@);
    }
}

/// Append the decimal digits of `n` to `out`.
fn push_dec(out: &mut Vec<u8>, n: u64)
    ensures
        final(out)@ == old(out)@ + dec_digits(n as int),
    decreases n,
{
    if n < 10 {
        out.push(48 + n as u8);
    } else {
        push_dec(out, n / 10);
        out.push(48 + (n % 10) as u8);
    }
}

/// Print the claims document for a subject and an expiry.
pub fn claims_bytes(sub: &[u8], exp: u64) -> (r: Vec<u8>)
    ensures
        r@ == claims_json(sub@, exp),
{
    let mut out: Vec<u8> = Vec::new();
    out.push(123);
    out.push(34);
    out.push(115);
    out.push(117);
    out.push(98);
    out.push(34);
    out.push(58);
    out.push(34);
    proof {
        assert(out@ =~= claims_prefix());
    }
    push_escaped(&mut out, sub);
    out.push(34);
    out.push(44);
    out.push(34);
    out.push(101);
    out.push(120);
    out.push(112);
    out.push(34);
    out.push(58);
    let ghost before_digits = out@;
    push_dec(&mut out, exp);
    out.push(125);
    proof {
        assert(before_digits =~= claims_prefix() + escape(sub@) + seq![34u8] + claims_mid());
        assert(out@ =~= claims_json(sub@, exp));
    }
    out
}

/// Read a string literal body from `s` starting at `from`, as `unescape`
/// describes, handing back the content and the index just past the
/// closing quote.
fn unescape_bytes(s: &[u8], from: usize) -> (r: Option<(Vec<u8>, usize)>)
    requires
        from <= s@.len(),
    ensures
        match r {
            Some(p) => {
                &&& unescape(s@.skip(from as int)) == Some((p.0@, p.1 as int - from))
                &&& from < p.1 <= s@.len()
            },
            None => unescape(s@.skip(from as int)) is None,
        },
{
    let mut out: Vec<u8> = Vec::new();
    let mut i: usize = from;
    loop
        invariant
            from <= i <= s@.len(),
            unescape(s@.skip(from as int)) == match unescape(s@.skip(i as int)) {
                Some(p) => Some((out@ + p.0, p.1 + (i - from))),
                None => None::<(Seq<u8>, int)>,
            },
        decreases s@.len() - i,
    {
        let ghost cur = s@.skip(i as int);
        if i == s.len() {
            proof {
                assert(cur.len() == 0);
            }
            return None;
        }
        let b: u8 = s[i];
        proof {
            assert(cur[0] == b);
        }
        if b == 34 {
            proof {
                assert(unescape(cur) == Some((Seq::<u8>::empty(), 1int)));
                assert(out@ + Seq::<u8>::empty() =~= out@);
            }
            return Some((out, i + 1));
        } else if b == 92 {
            if i + 1 == s.len() {
                proof {
                    assert(cur.len() < 2);
                }
                return None;
            }
            let b1: u8 = s[i + 1];
            proof {
                assert(cur[1] == b1);
            }
            if b1 == 34 || b1 == 92 {
                let ghost prev = out@;
                out.push(b1);
                proof {
                    assert(cur.skip(2) =~= s@.skip(i + 2));
                    match unescape(s@.skip(i + 2)) {
                        Some(p) => {
                            assert(out@ + p.0 =~= prev + (seq![b1] + p.0));
                        },
                        None => {},
                    }
                }
                i = i + 2;
            } else if b1 == 117 {
                if s.len() - i < 6 {
                    proof {
                        assert(cur.len() < 6);
                    }
                    return None;
                }
                let b2: u8 = s[i + 2];
                let b3: u8 = s[i + 3];
                let h = hex_val_of(s[i + 4]);
                let l = hex_val_of(s[i + 5]);
                proof {
                    assert(cur[2] == b2);
                    assert(cur[3] == b3);
                    assert(cur[4] == s@[i + 4]);
                    assert(cur[5] == s@[i + 5]);
                }
                if b2 != 48 || b3 != 48 {
                    return None;
                }
                match (h, l) {
                    (Some(hv), Some(lv)) => {
                        let v: u8 = hv * 16 + lv;
                        if v >= 32 {
                            return None;
                        }
                        let ghost prev = out@;
                        out.push(v);
                        proof {
                            assert(cur.skip(6) =~= s@.skip(i + 6));
                            match unescape(s@.skip(i + 6)) {
                                Some(p) => {
                                    assert(out@ + p.0 =~= prev + (seq![v] + p.0));
                                },
                                None => {},
                            }
                        }
                        i = i + 6;
                    },
                    _ => {
                        return None;
                    },
                }
            } else {
                return None;
            }
        } else if b < 32 {
            return None;
        } else {
            let ghost prev = out@;
            out.push(b);
            proof {
                assert(cur.skip(1) =~= s@.skip(i + 1));
                match unescape(s@.skip(i + 1)) {
                    Some(p) => {
                        assert(out@ + p.0 =~= prev + (seq![b] + p.0));
                    },
                    None => {},
                }
            }
            i = i + 1;
        }
    }
}

/// Parse a claims document, as `parse_claims` describes.
#[verifier::loop_isolation(false)]
pub fn parse_claims_bytes(s: &[u8]) -> (r: Option<(Vec<u8>, u64)>)
    ensures
        match r {
            Some(p) => parse_claims(s@) == Some((p.0@, p.1)),
            None => parse_claims(s@) is None,
        },
{
    if s.len() < 8 {
        return None;
    }
    if s[0] != 123 || s[1] != 34 || s[2] != 115 || s[3] != 117 || s[4] != 98 || s[5] != 34
        || s[6] != 58 || s[7] != 34 {
        proof {
            assert(s@.take(8) != claims_prefix());
        }
        return None;
    }
    proof {
        assert(s@.take(8) =~= claims_prefix());
    }
    let sub_part = unescape_bytes(s, 8);
    let (sub, after) = match sub_part {
        Some(p) => p,
        None => {
            proof {
                assert(s@.skip(8) =~= s@.skip(8int));
            }
            return None;
        },
    };
    let ghost rest = s@.skip(8).skip(after - 8);
    proof {
        assert(rest =~= s@.skip(after as int));
    }
    if s.len() - after < 7 {
        return None;
    }
    if s[after] != 44 || s[after + 1] != 34 || s[after + 2] != 101 || s[after + 3] != 120
        || s[after + 4] != 112 || s[after + 5] != 34 || s[after + 6] != 58 {
        proof {
            assert(rest.take(7) != claims_mid());
        }
        return None;
    }
    proof {
        assert(rest.take(7) =~= claims_mid());
    }
    let dstart: usize = after + 7;
    let ghost ds = rest.skip(7);
    proof {
        assert(ds =~= s@.skip(dstart as int));
    }
    if s.len() - dstart < 2 {
        return None;
    }
    if s[s.len() - 1] != 125 {
        proof {
            assert(ds.last() == s@[s@.len() - 1]);
        }
        return None;
    }
    proof {
        assert(ds.last() == s@[s@.len() - 1]);
    }
    let dend: usize = s.len() - 1;
    let ghost digits = ds.take(ds.len() - 1);
    proof {
        assert(digits =~= s@.subrange(dstart as int, dend as int));
    }
    let mut acc: u64 = 0;
    let mut j: usize = dstart;
    while j < dend
        invariant
            dstart <= j <= dend < s@.len(),
            digits =~= s@.subrange(dstart as int, dend as int),
            all_digits(digits.take(j - dstart)),
            acc as int == digits_val(digits.take(j - dstart)),
        decreases dend - j,
    {
        let b: u8 = s[j];
        proof {
            assert(digits[j - dstart] == b);
        }
        if b < 48 || b > 57 {
            proof {
                assert(!is_digit(digits[j - dstart]));
                assert(!all_digits(digits));
            }
            return None;
        }
        let d: u8 = b - 48;
        let ghost t = digits.take(j - dstart + 1);
        proof {
            assert(t.take(t.len() - 1) =~= digits.take(j - dstart));
            assert(t.last() == b);
        }
        if acc > (u64::MAX - d as u64) / 10 {
            proof {
                lemma_fundamental_div_mod(u64::MAX - d as int, 10);
                lemma_mod_pos_bound(u64::MAX - d as int, 10);
                if all_digits(digits) {
                    assert(digits_val(t) == acc as int * 10 + d);
                    assert(digits_val(t) > u64::MAX);
                    lemma_digits_val_prefix(digits, j - dstart + 1);
                    assert(digits_val(digits) > u64::MAX);
                }
            }
            return None;
        }
        acc = acc * 10 + d as u64;
        j = j + 1;
    }
    proof {
        assert(digits.take(digits.len() as int) =~= digits);
    }
    Some((sub, acc))
}

} // verus!
