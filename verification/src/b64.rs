//! Base64url (no padding) over byte sequences: the alphabet used by the
//! token segments.  Encoding and decoding are verified inverses.

use vstd::arithmetic::div_mod::{
    lemma_fundamental_div_mod, lemma_fundamental_div_mod_converse, lemma_mod_pos_bound,
};
use vstd::prelude::*;

verus! {

/// The base64url alphabet, as a byte: `A-Z`, `a-z`, `0-9`, `-`, `_`.
pub open spec fn b64_byte(v: int) -> u8 {
    if 0 <= v < 26 {
        (65 + v) as u8
    } else if v < 52 {
        (97 + (v - 26)) as u8
    } else if v < 62 {
        (48 + (v - 52)) as u8
    } else if v == 62 {
        45u8
    } else {
        95u8
    }
}

pub open spec fn is_b64_byte(b: u8) -> bool {
    (65 <= b <= 90) || (97 <= b <= 122) || (48 <= b <= 57) || b == 45 || b == 95
}

/// Inverse of the alphabet: the six-bit value of a byte, if it is in the alphabet.
pub open spec fn b64_val(b: u8) -> Option<u8> {
    if 65 <= b <= 90 {
        Some((b - 65) as u8)
    } else if 97 <= b <= 122 {
        Some((b - 97 + 26) as u8)
    } else if 48 <= b <= 57 {
        Some((b - 48 + 52) as u8)
    } else if b == 45 {
        Some(62u8)
    } else if b == 95 {
        Some(63u8)
    } else {
        None
    }
}

/// Base64url encoding without padding: three input bytes become four
/// alphabet bytes; a final remainder of one or two bytes becomes two or
/// three, with the unused low bits zero.
pub open spec fn b64_encode(b: Seq<u8>) -> Seq<u8>
    decreases b.len(),
{
    if b.len() == 0 {
        Seq::empty()
    } else if b.len() == 1 {
        seq![b64_byte(b[0] as int / 4), b64_byte((b[0] as int % 4) * 16)]
    } else if b.len() == 2 {
        seq![
            b64_byte(b[0] as int / 4),
            b64_byte((b[0] as int % 4) * 16 + b[1] as int / 16),
            b64_byte((b[1] as int % 16) * 4),
        ]
    } else {
        seq![
            b64_byte(b[0] as int / 4),
            b64_byte((b[0] as int % 4) * 16 + b[1] as int / 16),
            b64_byte((b[1] as int % 16) * 4 + b[2] as int / 64),
            b64_byte(b[2] as int % 64),
        ] + b64_encode(b.skip(3))
    }
}

/// Base64url decoding: accepts exactly the canonical encodings (unused
/// trailing bits must be zero) and rejects everything else.
pub open spec fn b64_decode(s: Seq<u8>) -> Option<Seq<u8>>
    decreases s.len(),
{
    if s.len() == 0 {
        Some(Seq::empty())
    } else if s.len() == 1 {
        None
    } else if s.len() == 2 {
        match (b64_val(s[0]), b64_val(s[1])) {
            (Some(v0), Some(v1)) => if v1 % 16 == 0 {
                Some(seq![(v0 * 4 + v1 / 16) as u8])
            } else {
                None
            },
            _ => None,
        }
    } else if s.len() == 3 {
        match (b64_val(s[0]), b64_val(s[1]), b64_val(s[2])) {
            (Some(v0), Some(v1), Some(v2)) => if v2 % 4 == 0 {
                Some(seq![(v0 * 4 + v1 / 16) as u8, ((v1 % 16) * 16 + v2 / 4) as u8])
            } else {
                None
            },
            _ => None,
        }
    } else {
        match (b64_val(s[0]), b64_val(s[1]), b64_val(s[2]), b64_val(s[3])) {
            (Some(v0), Some(v1), Some(v2), Some(v3)) => match b64_decode(s.skip(4)) {
                Some(rest) => Some(
                    seq![
                        (v0 * 4 + v1 / 16) as u8,
                        ((v1 % 16) * 16 + v2 / 4) as u8,
                        ((v2 % 4) * 64 + v3) as u8,
                    ] + rest,
                ),
                None => None,
            },
            _ => None,
        }
    }
}

pub proof fn lemma_b64_byte_val(v: int)
    requires
        0 <= v < 64,
    ensures
        is_b64_byte(b64_byte(v)),
        b64_val(b64_byte(v)) == Some(v as u8),
{
}

/// The div/mod bookkeeping of one coding group: the four six-bit values of
/// a three-byte group are in range, and reassembling them gives the bytes back.
proof fn lemma_group_vals(x: int, y: int, z: int)
    requires
        0 <= x < 256,
        0 <= y < 256,
        0 <= z < 256,
    ensures
        0 <= x / 4 < 64,
        0 <= (x % 4) * 16 < 64,
        0 <= (x % 4) * 16 + y / 16 < 64,
        0 <= (y % 16) * 4 < 64,
        0 <= (y % 16) * 4 + z / 64 < 64,
        0 <= z % 64 < 64,
        ((x % 4) * 16 + y / 16) / 16 == x % 4,
        ((x % 4) * 16 + y / 16) % 16 == y / 16,
        ((y % 16) * 4 + z / 64) / 4 == y % 16,
        ((y % 16) * 4 + z / 64) % 4 == z / 64,
        ((x % 4) * 16) / 16 == x % 4,
        ((x % 4) * 16) % 16 == 0,
        ((y % 16) * 4) / 4 == y % 16,
        ((y % 16) * 4) % 4 == 0,
        (x / 4) * 4 + x % 4 == x,
        (y / 16) * 16 + y % 16 == y,
        (z / 64) * 64 + z % 64 == z,
{
    lemma_fundamental_div_mod(x, 4);
    lemma_fundamental_div_mod(y, 16);
    lemma_fundamental_div_mod(z, 64);
    lemma_mod_pos_bound(x, 4);
    lemma_mod_pos_bound(y, 16);
    lemma_mod_pos_bound(z, 64);
    assert(0 <= y / 16 < 16);
    assert(0 <= z / 64 < 4);
    lemma_fundamental_div_mod_converse((x % 4) * 16 + y / 16, 16, x % 4, y / 16);
    lemma_fundamental_div_mod_converse((y % 16) * 4 + z / 64, 4, y % 16, z / 64);
    lemma_fundamental_div_mod_converse((x % 4) * 16, 16, x % 4, 0);
    lemma_fundamental_div_mod_converse((y % 16) * 4, 4, y % 16, 0);
}

/// Every byte of an encoding is in the alphabet (in particular, never `.`).
pub proof fn lemma_b64_encode_alphabet(b: Seq<u8>)
    ensures
        forall|i: int| 0 <= i < b64_encode(b).len() ==> is_b64_byte(#[trigger] b64_encode(b)[i]),
    decreases b.len(),
{
    if b.len() == 0 {
    } else if b.len() == 1 {
        let x = b[0] as int;
        lemma_group_vals(x, 0, 0);
        lemma_b64_byte_val(x / 4);
        lemma_b64_byte_val((x % 4) * 16);
    } else if b.len() == 2 {
        let x = b[0] as int;
        let y = b[1] as int;
        lemma_group_vals(x, y, 0);
        lemma_b64_byte_val(x / 4);
        lemma_b64_byte_val((x % 4) * 16 + y / 16);
        lemma_b64_byte_val((y % 16) * 4);
    } else {
        let x = b[0] as int;
        let y = b[1] as int;
        let z = b[2] as int;
        lemma_group_vals(x, y, z);
        lemma_b64_encode_alphabet(b.skip(3));
        lemma_b64_byte_val(x / 4);
        lemma_b64_byte_val((x % 4) * 16 + y / 16);
        lemma_b64_byte_val((y % 16) * 4 + z / 64);
        lemma_b64_byte_val(z % 64);
        assert forall|i: int| 4 <= i < b64_encode(b).len() implies is_b64_byte(
            b64_encode(b)[i],
        ) by {
            assert(b64_encode(b)[i] == b64_encode(b.skip(3))[i - 4]);
        }
    }
}

/// Decoding inverts encoding.
#[verifier::rlimit(50)]
pub proof fn lemma_b64_round_trip(b: Seq<u8>)
    ensures
        b64_decode(b64_encode(b)) == Some(b),
    decreases b.len(),
{
    if b.len() == 0 {
        assert(b64_decode(b64_encode(b)) =~= Some(b));
    } else if b.len() == 1 {
        let x = b[0] as int;
        lemma_group_vals(x, 0, 0);
        lemma_b64_byte_val(x / 4);
        lemma_b64_byte_val((x % 4) * 16);
        let s = b64_encode(b);
        assert(s.len() == 2);
        assert(b64_val(s[0]) == Some((x / 4) as u8));
        assert(b64_val(s[1]) == Some(((x % 4) * 16) as u8));
        assert(b64_decode(s) is Some);
        assert(b64_decode(s)->Some_0 =~= b);
    } else if b.len() == 2 {
        let x = b[0] as int;
        let y = b[1] as int;
        lemma_group_vals(x, y, 0);
        lemma_b64_byte_val(x / 4);
        lemma_b64_byte_val((x % 4) * 16 + y / 16);
        lemma_b64_byte_val((y % 16) * 4);
        let s = b64_encode(b);
        assert(s.len() == 3);
        assert(b64_val(s[0]) == Some((x / 4) as u8));
        assert(b64_val(s[1]) == Some(((x % 4) * 16 + y / 16) as u8));
        assert(b64_val(s[2]) == Some(((y % 16) * 4) as u8));
        assert(b64_decode(s) is Some);
        assert(b64_decode(s)->Some_0 =~= b);
    } else {
        lemma_b64_round_trip(b.skip(3));
        let x = b[0] as int;
        let y = b[1] as int;
        let z = b[2] as int;
        lemma_group_vals(x, y, z);
        lemma_b64_byte_val(x / 4);
        lemma_b64_byte_val((x % 4) * 16 + y / 16);
        lemma_b64_byte_val((y % 16) * 4 + z / 64);
        lemma_b64_byte_val(z % 64);
        let s = b64_encode(b);
        assert(s.skip(4) =~= b64_encode(b.skip(3)));
        assert(s.len() >= 4);
        assert(b64_val(s[0]) == Some((x / 4) as u8));
        assert(b64_val(s[1]) == Some(((x % 4) * 16 + y / 16) as u8));
        assert(b64_val(s[2]) == Some(((y % 16) * 4 + z / 64) as u8));
        assert(b64_val(s[3]) == Some((z % 64) as u8));
        assert(b64_decode(s) is Some);
        assert(b64_decode(s)->Some_0 =~= b);
    }
}

/// Encoding distributes over concatenation at a group boundary.
pub proof fn lemma_b64_encode_append(a: Seq<u8>, b: Seq<u8>)
    requires
        a.len() % 3 == 0,
    ensures
        b64_encode(a + b) == b64_encode(a) + b64_encode(b),
    decreases a.len(),
{
    if a.len() == 0 {
        assert(a + b =~= b);
        assert(b64_encode(a + b) =~= b64_encode(a) + b64_encode(b));
    } else {
        lemma_b64_encode_append(a.skip(3), b);
        assert((a + b).skip(3) =~= a.skip(3) + b);
        if b.len() == 0 {
            assert(a + b =~= a);
            assert(b64_encode(a + b) =~= b64_encode(a) + b64_encode(b));
        } else {
            assert(b64_encode(a + b) =~= b64_encode(a) + b64_encode(b));
        }
    }
}

fn b64_byte_of(v: u8) -> (r: u8)
    requires
        v < 64,
    ensures
        r == b64_byte(v as int),
{
    if v < 26 {
        65 + v
    } else if v < 52 {
        97 + (v - 26)
    } else if v < 62 {
        48 + (v - 52)
    } else if v == 62 {
        45
    } else {
        95
    }
}

fn b64_val_of(b: u8) -> (r: Option<u8>)
    ensures
        r == b64_val(b),
{
    if 65 <= b && b <= 90 {
        Some(b - 65)
    } else if 97 <= b && b <= 122 {
        Some(b - 97 + 26)
    } else if 48 <= b && b <= 57 {
        Some(b - 48 + 52)
    } else if b == 45 {
        Some(62)
    } else if b == 95 {
        Some(63)
    } else {
        None
    }
}

/// Encode a byte string in base64url without padding.
pub fn b64_encode_bytes(input: &[u8]) -> (r: Vec<u8>)
    ensures
        r@ == b64_encode(input@),
{
    let mut out: Vec<u8> = Vec::new();
    let mut i: usize = 0;
    while input.len() - i >= 3
        invariant
            i <= input.len(),
            i % 3 == 0,
            out@ == b64_encode(input@.take(i as int)),
        decreases input.len() - i,
    {
        let ghost prev = out@;
        let ghost g = input@.subrange(i as int, i + 3);
        let x: u8 = input[i];
        let y: u8 = input[i + 1];
        let z: u8 = input[i + 2];
        proof {
            lemma_group_vals(x as int, y as int, z as int);
            assert(g[0] == x);
            assert(g[1] == y);
            assert(g[2] == z);
            assert(g.skip(3) =~= Seq::<u8>::empty());
        }
        out.push(b64_byte_of(x / 4));
        out.push(b64_byte_of((x % 4) * 16 + y / 16));
        out.push(b64_byte_of((y % 16) * 4 + z / 64));
        out.push(b64_byte_of(z % 64));
        proof {
            let a = input@.take(i as int);
            lemma_b64_encode_append(a, g);
            assert(a + g =~= input@.take(i + 3));
            assert(b64_encode(Seq::<u8>::empty()) == Seq::<u8>::empty());
            assert(b64_encode(g) =~= seq![
                b64_byte(x as int / 4),
                b64_byte((x as int % 4) * 16 + y as int / 16),
                b64_byte((y as int % 16) * 4 + z as int / 64),
                b64_byte(z as int % 64),
            ]);
            assert(out@ =~= prev + b64_encode(g));
        }
        i = i + 3;
    }
    let ghost tail = input@.skip(i as int);
    proof {
        lemma_b64_encode_append(input@.take(i as int), tail);
        assert(input@.take(i as int) + tail =~= input@);
    }
    if input.len() - i == 1 {
        let ghost prev = out@;
        let x: u8 = input[i];
        proof {
            lemma_group_vals(x as int, 0, 0);
            assert(tail[0] == x);
            assert(b64_encode(tail) =~= seq![
                b64_byte(x as int / 4),
                b64_byte((x as int % 4) * 16),
            ]);
        }
        out.push(b64_byte_of(x / 4));
        out.push(b64_byte_of((x % 4) * 16));
        proof {
            assert(out@ =~= prev + b64_encode(tail));
        }
    } else if input.len() - i == 2 {
        let ghost prev = out@;
        let x: u8 = input[i];
        let y: u8 = input[i + 1];
        proof {
            lemma_group_vals(x as int, y as int, 0);
            assert(tail[0] == x);
            assert(tail[1] == y);
            assert(b64_encode(tail) =~= seq![
                b64_byte(x as int / 4),
                b64_byte((x as int % 4) * 16 + y as int / 16),
                b64_byte((y as int % 16) * 4),
            ]);
        }
        out.push(b64_byte_of(x / 4));
        out.push(b64_byte_of((x % 4) * 16 + y / 16));
        out.push(b64_byte_of((y % 16) * 4));
        proof {
            assert(out@ =~= prev + b64_encode(tail));
        }
    } else {
        proof {
            assert(tail =~= Seq::<u8>::empty());
            assert(out@ =~= b64_encode(input@));
        }
    }
    out
}

/// Decoding distributes over concatenation at a group boundary.
#[verifier::rlimit(50)]
pub proof fn lemma_b64_decode_append(a: Seq<u8>, b: Seq<u8>)
    requires
        a.len() % 4 == 0,
    ensures
        b64_decode(a + b) == match (b64_decode(a), b64_decode(b)) {
            (Some(x), Some(y)) => Some::<Seq<u8>>(x + y),
            _ => None::<Seq<u8>>,
        },
    decreases a.len(),
{
    if a.len() == 0 {
        assert(a + b =~= b);
        assert(b64_decode(a) == Some(Seq::<u8>::empty()));
        if b64_decode(b) is Some {
            assert(Seq::<u8>::empty() + b64_decode(b)->Some_0 =~= b64_decode(b)->Some_0);
        }
    } else {
        lemma_b64_decode_append(a.skip(4), b);
        assert((a + b).skip(4) =~= a.skip(4) + b);
        if b.len() == 0 {
            assert(a + b =~= a);
        }
        // a has at least one full group, so both sides peel the same first group
        match (b64_val(a[0]), b64_val(a[1]), b64_val(a[2]), b64_val(a[3])) {
            (Some(v0), Some(v1), Some(v2), Some(v3)) => {
                let g = seq![
                    (v0 * 4 + v1 / 16) as u8,
                    ((v1 % 16) * 16 + v2 / 4) as u8,
                    ((v2 % 4) * 64 + v3) as u8,
                ];
                match (b64_decode(a.skip(4)), b64_decode(b)) {
                    (Some(x), Some(y)) => {
                        assert(g + (x + y) =~= (g + x) + y);
                    },
                    _ => {},
                }
            },
            _ => {},
        }
    }
}

/// Decode a base64url byte string; `None` on anything but a canonical encoding.
#[verifier::rlimit(50)]
pub fn b64_decode_bytes(input: &[u8]) -> (r: Option<Vec<u8>>)
    ensures
        match r {
            Some(v) => b64_decode(input@) == Some(v@),
            None => b64_decode(input@) is None,
        },
{
    let mut out: Vec<u8> = Vec::new();
    let mut i: usize = 0;
    while input.len() - i > 4
        invariant
            i <= input.len(),
            i % 4 == 0,
            b64_decode(input@.take(i as int)) == Some(out@),
        decreases input.len() - i,
    {
        let ghost prev = out@;
        let ghost g = input@.subrange(i as int, i + 4);
        let r0 = b64_val_of(input[i]);
        let r1 = b64_val_of(input[i + 1]);
        let r2 = b64_val_of(input[i + 2]);
        let r3 = b64_val_of(input[i + 3]);
        proof {
            assert(g[0] == input@[i as int]);
            assert(g[1] == input@[i + 1]);
            assert(g[2] == input@[i + 2]);
            assert(g[3] == input@[i + 3]);
            assert(g.skip(4) =~= Seq::<u8>::empty());
        }
        match (r0, r1, r2, r3) {
            (Some(v0), Some(v1), Some(v2), Some(v3)) => {
                out.push(v0 * 4 + v1 / 16);
                out.push((v1 % 16) * 16 + v2 / 4);
                out.push((v2 % 4) * 64 + v3);
                proof {
                    let a = input@.take(i as int);
                    lemma_b64_decode_append(a, g);
                    assert(a + g =~= input@.take(i + 4));
                    assert(b64_decode(Seq::<u8>::empty()) == Some(Seq::<u8>::empty()));
                    assert(b64_decode(g) is Some);
                    assert(b64_decode(g)->Some_0 =~= seq![
                        (v0 * 4 + v1 / 16) as u8,
                        ((v1 % 16) * 16 + v2 / 4) as u8,
                        ((v2 % 4) * 64 + v3) as u8,
                    ]);
                    assert(out@ =~= prev + b64_decode(g)->Some_0);
                }
            },
            _ => {
                proof {
                    let t = input@.skip(i as int);
                    lemma_b64_decode_append(input@.take(i as int), t);
                    assert(input@.take(i as int) + t =~= input@);
                    assert(t[0] == input@[i as int]);
                    assert(t[1] == input@[i + 1]);
                    assert(t[2] == input@[i + 2]);
                    assert(t[3] == input@[i + 3]);
                    assert(t.len() > 4);
                    assert(b64_decode(t) is None);
                }
                return None;
            },
        }
        i = i + 4;
    }
    let ghost tail = input@.skip(i as int);
    proof {
        lemma_b64_decode_append(input@.take(i as int), tail);
        assert(input@.take(i as int) + tail =~= input@);
    }
    let rem: usize = input.len() - i;
    if rem == 0 {
        proof {
            assert(tail =~= Seq::<u8>::empty());
        }
        Some(out)
    } else if rem == 1 {
        None
    } else if rem == 2 {
        let ghost prev = out@;
        let r0 = b64_val_of(input[i]);
        let r1 = b64_val_of(input[i + 1]);
        proof {
            assert(tail[0] == input@[i as int]);
            assert(tail[1] == input@[i + 1]);
        }
        match (r0, r1) {
            (Some(v0), Some(v1)) => {
                if v1 % 16 == 0 {
                    out.push(v0 * 4 + v1 / 16);
                    proof {
                        assert(b64_decode(tail) is Some);
                        assert(b64_decode(tail)->Some_0 =~= seq![(v0 * 4 + v1 / 16) as u8]);
                        assert(out@ =~= prev + b64_decode(tail)->Some_0);
                    }
                    Some(out)
                } else {
                    None
                }
            },
            _ => None,
        }
    } else if rem == 3 {
        let ghost prev = out@;
        let r0 = b64_val_of(input[i]);
        let r1 = b64_val_of(input[i + 1]);
        let r2 = b64_val_of(input[i + 2]);
        proof {
            assert(tail[0] == input@[i as int]);
            assert(tail[1] == input@[i + 1]);
            assert(tail[2] == input@[i + 2]);
        }
        match (r0, r1, r2) {
            (Some(v0), Some(v1), Some(v2)) => {
                if v2 % 4 == 0 {
                    out.push(v0 * 4 + v1 / 16);
                    out.push((v1 % 16) * 16 + v2 / 4);
                    proof {
                        assert(b64_decode(tail) is Some);
                        assert(b64_decode(tail)->Some_0 =~= seq![
                            (v0 * 4 + v1 / 16) as u8,
                            ((v1 % 16) * 16 + v2 / 4) as u8,
                        ]);
                        assert(out@ =~= prev + b64_decode(tail)->Some_0);
                    }
                    Some(out)
                } else {
                    None
                }
            },
            _ => None,
        }
    } else {
        let ghost prev = out@;
        let r0 = b64_val_of(input[i]);
        let r1 = b64_val_of(input[i + 1]);
        let r2 = b64_val_of(input[i + 2]);
        let r3 = b64_val_of(input[i + 3]);
        proof {
            assert(tail[0] == input@[i as int]);
            assert(tail[1] == input@[i + 1]);
            assert(tail[2] == input@[i + 2]);
            assert(tail[3] == input@[i + 3]);
            assert(tail.len() == 4);
            assert(tail.skip(4) =~= Seq::<u8>::empty());
        }
        match (r0, r1, r2, r3) {
            (Some(v0), Some(v1), Some(v2), Some(v3)) => {
                out.push(v0 * 4 + v1 / 16);
                out.push((v1 % 16) * 16 + v2 / 4);
                out.push((v2 % 4) * 64 + v3);
                proof {
                    assert(b64_decode(Seq::<u8>::empty()) == Some(Seq::<u8>::empty()));
                    assert(b64_decode(tail) is Some);
                    assert(b64_decode(tail)->Some_0 =~= seq![
                        (v0 * 4 + v1 / 16) as u8,
                        ((v1 % 16) * 16 + v2 / 4) as u8,
                        ((v2 % 4) * 64 + v3) as u8,
                    ]);
                    assert(out@ =~= prev + b64_decode(tail)->Some_0);
                }
                Some(out)
            },
            _ => None,
        }
    }
}

} // verus!
