//! Signed LEB128 variable-length integers.
//!
//! Every byte of an encoding contributes seven payload bits, least
//! significant group first; the high bit of a byte says whether another
//! group follows. The value is the accumulated magnitude, corrected by the
//! final group's sign bit. An encoding is accepted up to ten bytes; a tenth
//! byte may only be `0x00` or `0x7f`, so that every accepted value fits in
//! a 64-bit signed integer.

use vstd::prelude::*;
use vstd::arithmetic::div_mod::lemma_fundamental_div_mod;
use vstd::arithmetic::div_mod::lemma_fundamental_div_mod_converse;

verus! {

/// A varint that could not be decoded: the buffer ended inside the
/// encoding, or the encoding does not fit a 64-bit signed integer.
#[derive(Debug, Clone, Copy, PartialEq, Eq)]
pub enum VarintError {
    Truncated,
    Malformed,
}

/// The low seven payload bits of an encoded byte.
pub open spec fn low7(b: u8) -> int {
    (b % 0x80) as int
}

/// Whether the byte carries the continuation bit.
pub open spec fn has_cont(b: u8) -> bool {
    b >= 0x80
}

/// Whether the payload's sign bit (bit six) is set.
pub open spec fn has_sign(b: u8) -> bool {
    b % 0x80 >= 0x40
}

/// 128 raised to the power `n`: the weight of the `n`-th payload group.
pub open spec fn pow128(n: nat) -> int
    decreases n,
{
    if n == 0 {
        1
    } else {
        128 * pow128((n - 1) as nat)
    }
}

/// The unsigned magnitude of a group sequence, first byte least
/// significant.
pub open spec fn leb_mag(s: Seq<u8>) -> int
    decreases s.len(),
{
    if s.len() == 0 {
        0
    } else {
        low7(s[0]) + 128 * leb_mag(s.drop_first())
    }
}

/// The value of a complete signed LEB128 group sequence: its magnitude,
/// sign-corrected by the final group's sign bit.
pub open spec fn sleb_value(s: Seq<u8>) -> int
    recommends
        s.len() > 0,
{
    leb_mag(s) - if has_sign(s[s.len() - 1]) {
        pow128(s.len())
    } else {
        0int
    }
}

/// The byte length of the signed LEB128 encoding starting at `pos`, after
/// `i` continuation groups have already been accepted.
pub open spec fn sleb_size_rec(s: Seq<u8>, pos: int, i: int) -> Result<int, VarintError>
    decreases 10 - i,
        when i <= 9
{
    if pos + i >= s.len() || pos + i < 0 {
        Err(VarintError::Truncated)
    } else if i >= 9 {
        if s[pos + 9] == 0x00 || s[pos + 9] == 0x7f {
            Ok(10)
        } else {
            Err(VarintError::Malformed)
        }
    } else if has_cont(s[pos + i]) {
        sleb_size_rec(s, pos, i + 1)
    } else {
        Ok(i + 1)
    }
}

/// The byte length of the signed LEB128 encoding starting at `pos`.
pub open spec fn sleb_size(s: Seq<u8>, pos: int) -> Result<int, VarintError> {
    sleb_size_rec(s, pos, 0)
}

/// Decoding one signed LEB128 integer at `pos`: the value and the position
/// just past its last byte.
pub open spec fn spec_sleb(s: Seq<u8>, pos: int) -> Result<(int, int), VarintError> {
    match sleb_size(s, pos) {
        Ok(n) => Ok((sleb_value(s.subrange(pos, pos + n)), pos + n)),
        Err(e) => Err(e),
    }
}

pub proof fn lemma_pow128_vals()
    ensures
        pow128(0) == 1,
        pow128(1) == 0x80,
        pow128(2) == 0x4000,
        pow128(3) == 0x20_0000,
        pow128(4) == 0x1000_0000,
        pow128(5) == 0x8_0000_0000,
        pow128(6) == 0x400_0000_0000,
        pow128(7) == 0x2_0000_0000_0000,
        pow128(8) == 0x100_0000_0000_0000,
        pow128(9) == 0x8000_0000_0000_0000,
        pow128(10) == 0x40_0000_0000_0000_0000,
{
    assert(pow128(0) == 1);
    assert(pow128(1) == 0x80);
    assert(pow128(2) == 0x4000);
    assert(pow128(3) == 0x20_0000);
    assert(pow128(4) == 0x1000_0000);
    assert(pow128(5) == 0x8_0000_0000);
    assert(pow128(6) == 0x400_0000_0000);
    assert(pow128(7) == 0x2_0000_0000_0000);
    assert(pow128(8) == 0x100_0000_0000_0000);
    assert(pow128(9) == 0x8000_0000_0000_0000);
    assert(pow128(10) == 0x40_0000_0000_0000_0000);
}

pub proof fn lemma_pow128_pos(n: nat)
    ensures
        pow128(n) >= 1,
    decreases n,
{
    if n > 0 {
        lemma_pow128_pos((n - 1) as nat);
    }
}

pub proof fn lemma_pow128_mono(a: nat, b: nat)
    requires
        a <= b,
    ensures
        pow128(a) <= pow128(b),
    decreases b,
{
    if a < b {
        lemma_pow128_mono(a, (b - 1) as nat);
        lemma_pow128_pos((b - 1) as nat);
    }
}

/// Appending one more group raises the magnitude by the group's payload at
/// the next weight.
pub proof fn lemma_leb_mag_snoc(s: Seq<u8>, b: u8)
    ensures
        leb_mag(s.push(b)) == leb_mag(s) + low7(b) * pow128(s.len()),
    decreases s.len(),
{
    if s.len() == 0 {
        assert(leb_mag(Seq::<u8>::empty()) == 0);
        assert(s.push(b).drop_first() =~= Seq::<u8>::empty());
        assert(s.push(b)[0] == b);
        assert(leb_mag(s.push(b)) == low7(b) + 128 * leb_mag(s.push(b).drop_first()));
        assert(leb_mag(s) == 0);
        assert(low7(b) * pow128(0) == low7(b) * 1);
    } else {
        let rest = s.drop_first();
        assert(s.push(b).drop_first() =~= rest.push(b));
        assert(s.push(b)[0] == s[0]);
        lemma_leb_mag_snoc(rest, b);
        assert(leb_mag(s.push(b)) == low7(s[0]) + 128 * leb_mag(rest.push(b)));
        assert(128 * (leb_mag(rest) + low7(b) * pow128(rest.len())) == 128 * leb_mag(rest) + 128
            * (low7(b) * pow128(rest.len())));
        assert(128 * (low7(b) * pow128(rest.len())) == low7(b) * (128 * pow128(rest.len())))
            by (nonlinear_arith);
        assert(pow128(s.len()) == 128 * pow128(rest.len()));
        assert(leb_mag(s) == low7(s[0]) + 128 * leb_mag(rest));
    }
}

pub proof fn lemma_sleb_size_bounds(s: Seq<u8>, pos: int, i: int)
    requires
        0 <= i <= 9,
        sleb_size_rec(s, pos, i) is Ok,
    ensures
        i < sleb_size_rec(s, pos, i)->Ok_0 <= 10,
        pos + sleb_size_rec(s, pos, i)->Ok_0 <= s.len(),
    decreases 10 - i,
{
    if pos + i >= s.len() || pos + i < 0 {
    } else if i >= 9 {
    } else if has_cont(s[pos + i]) {
        lemma_sleb_size_bounds(s, pos, i + 1);
    }
}

/// Decode one signed LEB128 integer from `bytes` starting at `pos`.
pub fn decode_signed(bytes: &Vec<u8>, pos: usize) -> (r: Result<(i64, usize), VarintError>)
    ensures
        (match (r, spec_sleb(bytes@, pos as int)) {
            (Ok((v, end)), Ok((sv, send))) => v as int == sv && end as int == send,
            (Err(e1), Err(e2)) => e1 == e2,
            _ => false,
        }),
{
    let len = bytes.len();
    if pos >= len {
        return Err(VarintError::Truncated);
    }
    let mut i: usize = 0;
    let mut acc: u64 = 0;
    let mut scale: u64 = 1;
    proof {
        assert(bytes@.subrange(pos as int, pos as int) =~= Seq::<u8>::empty());
    }
    loop
        invariant
            pos < len,
            len == bytes@.len(),
            i <= 9,
            pos + i <= len,
            scale == pow128(i as nat),
            scale <= 0x8000_0000_0000_0000,
            acc == leb_mag(bytes@.subrange(pos as int, pos + i)),
            acc < scale,
            sleb_size_rec(bytes@, pos as int, 0) == sleb_size_rec(bytes@, pos as int, i as int),
        decreases 10 - i,
    {
        proof {
            lemma_pow128_vals();
        }
        if pos + i == len {
            return Err(VarintError::Truncated);
        }
        let b = bytes[pos + i];
        let ghost pre = bytes@.subrange(pos as int, pos + i);
        proof {
            assert(bytes@.subrange(pos as int, pos + i + 1) =~= pre.push(b));
            lemma_leb_mag_snoc(pre, b);
        }
        if i == 9 {
            if b == 0x00 {
                let ghost whole = bytes@.subrange(pos as int, pos + 10);
                proof {
                    assert(i == 9);
                    assert(whole == bytes@.subrange(pos as int, pos + i + 1));
                    assert(whole == pre.push(b));
                    assert(leb_mag(whole) == leb_mag(pre) + low7(b) * pow128(pre.len()));
                    assert(low7(b) == 0);
                    assert(leb_mag(whole) == acc);
                    assert(!has_sign(0x00u8));
                    assert(sleb_value(whole) == acc);
                }
                return Ok((acc as i64, pos + 10));
            } else if b == 0x7f {
                let v: i64 = acc as i64 - 0x4000_0000_0000_0000;
                let v: i64 = v - 0x4000_0000_0000_0000;
                let ghost whole = bytes@.subrange(pos as int, pos + 10);
                proof {
                    assert(leb_mag(whole) == acc + 127 * 0x8000_0000_0000_0000);
                    assert(has_sign(0x7fu8));
                    assert(sleb_value(whole) == acc + 127 * 0x8000_0000_0000_0000 - pow128(10));
                    assert(sleb_value(whole) == acc - 0x8000_0000_0000_0000);
                }
                return Ok((v, pos + 10));
            } else {
                return Err(VarintError::Malformed);
            }
        }
        let low: u8 = b % 0x80;
        proof {
            assert(low as int == low7(b));
            assert((low as int) * (scale as int) <= 127 * (scale as int)) by (nonlinear_arith)
                requires
                    low <= 127,
                    scale >= 0,
            ;
            lemma_pow128_mono((i + 1) as nat, 9);
            assert(pow128((i + 1) as nat) == 128 * pow128(i as nat));
        }
        if b >= 0x80 {
            acc = acc + (low as u64) * scale;
            scale = scale * 128;
            i = i + 1;
        } else {
            let total: u64 = acc + (low as u64) * scale;
            let ghost whole = bytes@.subrange(pos as int, pos + i + 1);
            proof {
                assert(leb_mag(whole) == total);
                assert(sleb_size_rec(bytes@, pos as int, i as int) == Ok::<int, VarintError>(
                    i + 1,
                ));
            }
            if low >= 0x40 {
                let m: u64 = scale * 128;
                let diff: u64 = m - total;
                proof {
                    assert((low as int) * (scale as int) >= 0x40 * (scale as int))
                        by (nonlinear_arith)
                        requires
                            low >= 0x40,
                            scale >= 0,
                    ;
                    assert(has_sign(b));
                    assert(sleb_value(whole) == total - pow128((i + 1) as nat));
                }
                let v: i64 = -(diff as i64);
                return Ok((v, pos + i + 1));
            } else {
                proof {
                    assert(!has_sign(b));
                    assert(sleb_value(whole) == total);
                }
                return Ok((total as i64, pos + i + 1));
            }
        }
    }
}

/// The signed LEB128 encoding of a nonnegative integer: payload groups of
/// seven bits, continued until the rest fits a final group with a clear
/// sign bit.
pub open spec fn spec_encode_nonneg(n: nat) -> Seq<u8>
    decreases n,
{
    if n < 0x40 {
        seq![n as u8]
    } else {
        seq![(n % 0x80 + 0x80) as u8] + spec_encode_nonneg(n / 0x80)
    }
}

/// The encoding of a nonnegative integer is well formed: all groups but
/// the last continue, the last has a clear sign bit, and the magnitude is
/// the integer itself.
pub proof fn lemma_encode_wf(n: nat)
    ensures
        spec_encode_nonneg(n).len() >= 1,
        !has_cont(spec_encode_nonneg(n)[spec_encode_nonneg(n).len() - 1]),
        !has_sign(spec_encode_nonneg(n)[spec_encode_nonneg(n).len() - 1]),
        forall|j: int|
            0 <= j < spec_encode_nonneg(n).len() - 1 ==> has_cont(spec_encode_nonneg(n)[j]),
        leb_mag(spec_encode_nonneg(n)) == n,
    decreases n,
{
    let e = spec_encode_nonneg(n);
    if n < 0x40 {
        assert(e =~= seq![n as u8]);
        assert(e.drop_first() =~= Seq::<u8>::empty());
        assert(e[0] == n as u8);
        assert(leb_mag(Seq::<u8>::empty()) == 0);
        assert(leb_mag(e) == low7(e[0]) + 128 * leb_mag(e.drop_first()));
        assert(leb_mag(e) == low7(n as u8));
    } else {
        lemma_encode_wf(n / 0x80);
        let rest = spec_encode_nonneg(n / 0x80);
        assert(e.drop_first() =~= rest);
        assert(e[0] == (n % 0x80 + 0x80) as u8);
        assert(low7(e[0]) == n % 0x80);
        assert(leb_mag(e) == low7(e[0]) + 128 * leb_mag(e.drop_first()));
        assert(leb_mag(e) == n % 0x80 + 128 * (n / 0x80));
        lemma_fundamental_div_mod(n as int, 0x80);
        assert(n as int == 0x80 * ((n as int) / 0x80) + (n as int) % 0x80);
        assert(forall|j: int| 0 <= j < e.len() - 1 ==> has_cont(e[j])) by {
            assert(forall|j: int| 1 <= j < e.len() - 1 ==> e[j] == rest[j - 1]);
        }
    }
}

/// A bound on the integer bounds the encoding's length.
pub proof fn lemma_encode_len(n: nat, k: nat)
    requires
        n < 0x40 * pow128(k),
    ensures
        spec_encode_nonneg(n).len() <= k + 1,
    decreases n,
{
    if n < 0x40 {
    } else {
        assert(k >= 1) by {
            if k == 0 {
                assert(pow128(0) == 1);
            }
        }
        assert(pow128(k) == 128 * pow128((k - 1) as nat));
        lemma_fundamental_div_mod(n as int, 0x80);
        assert(n / 0x80 < 0x40 * pow128((k - 1) as nat)) by (nonlinear_arith)
            requires
                n < 0x40 * pow128(k),
                pow128(k) == 128 * pow128((k - 1) as nat),
                n as int == 0x80 * ((n as int) / 0x80) + (n as int) % 0x80,
                0 <= (n as int) % 0x80 < 0x80,
                n >= 0x40,
        ;
        lemma_encode_len(n / 0x80, (k - 1) as nat);
    }
}

/// A sequence of continuation groups closed by one terminal byte, at most
/// nine bytes in all, has exactly that size as an encoding.
pub proof fn lemma_sleb_size_of_groups(s: Seq<u8>, i: int)
    requires
        0 <= i <= s.len() - 1,
        s.len() <= 9,
        forall|j: int| 0 <= j < s.len() - 1 ==> has_cont(s[j]),
        !has_cont(s[s.len() - 1]),
    ensures
        sleb_size_rec(s, 0, i) == Ok::<int, VarintError>(s.len() as int),
    decreases s.len() - i,
{
    if i < s.len() - 1 {
        lemma_sleb_size_of_groups(s, i + 1);
    }
}

/// Decoding the encoding of a nonnegative integer gives the integer back.
pub proof fn lemma_decode_encode_nonneg(n: nat)
    requires
        n < 0x40 * pow128(8),
    ensures
        spec_sleb(spec_encode_nonneg(n), 0) == Ok::<(int, int), VarintError>(
            (n as int, spec_encode_nonneg(n).len() as int),
        ),
{
    let e = spec_encode_nonneg(n);
    lemma_encode_wf(n);
    lemma_encode_len(n, 8);
    lemma_sleb_size_of_groups(e, 0);
    assert(e.subrange(0, e.len() as int) =~= e);
    assert(sleb_value(e) == leb_mag(e));
}

/// Encode `v` as the signed LEB128 bytes of the nonnegative value `v`, the
/// form the varuint32 decode path reads back unchanged.
pub fn encode_varuint32(v: u32) -> (r: Vec<u8>)
    ensures
        r@ == spec_encode_nonneg(v as nat),
{
    let mut out: Vec<u8> = Vec::new();
    let mut n: u32 = v;
    proof {
        assert(out@ + spec_encode_nonneg(v as nat) =~= spec_encode_nonneg(v as nat));
    }
    while n >= 0x40
        invariant
            spec_encode_nonneg(v as nat) == out@ + spec_encode_nonneg(n as nat),
        decreases n,
    {
        let b: u8 = (n % 0x80 + 0x80) as u8;
        proof {
            assert(spec_encode_nonneg(n as nat) =~= seq![b] + spec_encode_nonneg(
                (n / 0x80) as nat,
            ));
            assert(out@ + (seq![b] + spec_encode_nonneg((n / 0x80) as nat)) =~= (out@ + seq![b])
                + spec_encode_nonneg((n / 0x80) as nat));
            assert(out@ + seq![b] =~= out@.push(b));
        }
        out.push(b);
        n = n / 0x80;
    }
    proof {
        assert(spec_encode_nonneg(n as nat) =~= seq![n as u8]);
        assert(out@ + seq![n as u8] =~= out@.push(n as u8));
    }
    out.push(n as u8);
    out
}

/// Euclidean remainder of a signed value by a positive modulus.
pub fn euclid_rem(v: i64, m: u64) -> (r: u64)
    requires
        0 < m,
    ensures
        r as int == (v as int) % (m as int),
        r < m,
{
    if v >= 0 {
        let w = v as u64;
        let r = w % m;
        proof {
            lemma_fundamental_div_mod(w as int, m as int);
            let q = (w as int) / (m as int);
            assert(v as int == q * (m as int) + (r as int)) by (nonlinear_arith)
                requires
                    v as int == w as int,
                    w as int == (m as int) * q + (w as int) % (m as int),
                    r as int == (w as int) % (m as int),
            ;
            lemma_fundamental_div_mod_converse(v as int, m as int, q, r as int);
        }
        r
    } else {
        let w = (-(v + 1)) as u64;
        let md = w % m;
        let r = if md + 1 == m {
            0
        } else {
            m - md - 1
        };
        proof {
            lemma_fundamental_div_mod(w as int, m as int);
            let a = (w / m) as int;
            if md + 1 == m {
                assert(v as int == (-a - 1) * (m as int) + 0) by (nonlinear_arith)
                    requires
                        v as int == -(w as int) - 1,
                        w as int == (m as int) * a + (md as int),
                        md as int == m as int - 1,
                ;
                lemma_fundamental_div_mod_converse(v as int, m as int, -a - 1, 0);
            } else {
                assert(v as int == (-a - 1) * (m as int) + (m as int - md as int - 1))
                    by (nonlinear_arith)
                    requires
                        v as int == -(w as int) - 1,
                        w as int == (m as int) * a + (md as int),
                ;
                lemma_fundamental_div_mod_converse(
                    v as int,
                    m as int,
                    -a - 1,
                    m as int - md as int - 1,
                );
            }
        }
        r
    }
}

} // verus!
