//! Canonical binary serialization: fixed-width little-endian integers and
//! length-prefixed byte strings, the ground layer of content hashing, the
//! checkpoint format and the wire protocol.
use vstd::prelude::*;
use crate::u256::U256;

verus! {

/// `256^n`.
pub open spec fn pow256(n: nat) -> int
    decreases n,
{
    if n == 0 {
        1
    } else {
        256 * pow256((n - 1) as nat)
    }
}

/// The canonical encoding of `v` as `n` little-endian bytes; higher bytes
/// of `v` are discarded.
pub open spec fn le_bytes(v: int, n: nat) -> Seq<u8>
    decreases n,
{
    if n == 0 {
        Seq::empty()
    } else {
        seq![(v % 256) as u8] + le_bytes(v / 256, (n - 1) as nat)
    }
}

/// The value of a little-endian byte string.
pub open spec fn le_val(s: Seq<u8>) -> int
    decreases s.len(),
{
    if s.len() == 0 {
        0
    } else {
        s[0] as int + 256 * le_val(s.drop_first())
    }
}

pub proof fn lemma_le_bytes_len(v: int, n: nat)
    ensures
        le_bytes(v, n).len() == n,
    decreases n,
{
    if n > 0 {
        lemma_le_bytes_len(v / 256, (n - 1) as nat);
    }
}

pub proof fn lemma_le_val_bound(s: Seq<u8>)
    ensures
        0 <= le_val(s) < pow256(s.len()),
    decreases s.len(),
{
    if s.len() > 0 {
        lemma_le_val_bound(s.drop_first());
    }
}

/// Reading back the canonical little-endian bytes of a value in range
/// recovers the value.
pub proof fn lemma_le_val_le_bytes(v: int, n: nat)
    requires
        0 <= v < pow256(n),
    ensures
        le_val(le_bytes(v, n)) == v,
    decreases n,
{
    if n > 0 {
        lemma_le_val_le_bytes(v / 256, (n - 1) as nat);
        let s = le_bytes(v, n);
        assert(s.drop_first() =~= le_bytes(v / 256, (n - 1) as nat));
    }
}

/// Splitting a value at a byte boundary splits its encoding.
pub proof fn lemma_le_bytes_concat(x: int, y: int, n: nat, m: nat)
    requires
        0 <= x < pow256(n),
        0 <= y,
    ensures
        le_bytes(x + pow256(n) * y, n + m) == le_bytes(x, n) + le_bytes(y, m),
    decreases n,
{
    if n == 0 {
        assert(le_bytes(x + pow256(n) * y, n + m) =~= le_bytes(x, n) + le_bytes(y, m));
    } else {
        let v = x + pow256(n) * y;
        assert(v == x + 256 * (pow256((n - 1) as nat) * y)) by (nonlinear_arith)
            requires
                v == x + pow256(n) * y,
                pow256(n) == 256 * pow256((n - 1) as nat),
        ;
        let t = pow256((n - 1) as nat) * y;
        lemma_pow256_pos((n - 1) as nat);
        vstd::arithmetic::mul::lemma_mul_nonnegative(pow256((n - 1) as nat), y);
        assert(v % 256 == x % 256 && v / 256 == x / 256 + t) by {
            vstd::arithmetic::div_mod::lemma_fundamental_div_mod(x, 256);
            vstd::arithmetic::div_mod::lemma_fundamental_div_mod_converse(
                v,
                256,
                x / 256 + t,
                x % 256,
            );
        }
        assert(x / 256 < pow256((n - 1) as nat));
        lemma_le_bytes_concat(x / 256, y, (n - 1) as nat, m);
        assert(le_bytes(v, (n + m) as nat) =~= le_bytes(x, n) + le_bytes(y, m));
    }
}

/// Appends the canonical `n`-byte little-endian encoding of `v`.
pub fn push_le(out: &mut Vec<u8>, v: u128, n: usize)
    requires
        n <= 16,
    ensures
        final(out)@ == old(out)@ + le_bytes(v as int, n as nat),
    decreases n,
{
    if n == 0 {
        assert(out@ =~= out@ + le_bytes(v as int, 0));
    } else {
        let ghost pre: Seq<u8> = out@;
        let b: u8 = (v % 256) as u8;
        out.push(b);
        push_le(out, v / 256, n - 1);
        assert(out@ =~= pre + le_bytes(v as int, n as nat));
    }
}

/// Reads the value of `n` little-endian bytes starting at `pos`.
pub fn read_le(bytes: &Vec<u8>, pos: usize, n: usize) -> (r: u128)
    requires
        n <= 16,
        pos + n <= bytes@.len(),
    ensures
        r == le_val(bytes@.subrange(pos as int, pos + n)),
    decreases n,
{
    proof {
        lemma_le_val_bound(bytes@.subrange(pos as int, pos + n));
    }
    if n == 0 {
        0
    } else {
        let total: usize = bytes.len();
        let b: u8 = bytes[pos];
        let rest: u128 = read_le(bytes, pos + 1, n - 1);
        proof {
            lemma_le_val_bound(bytes@.subrange(pos + 1, pos + n));
            assert(pow256(n as nat) <= pow256(16)) by {
                lemma_pow256_increases(n as nat, 16);
            }
            assert(pow256(16) == 0x1_0000_0000_0000_0000 * 0x1_0000_0000_0000_0000) by {
                lemma_pow256_16();
            }
            assert(bytes@.subrange(pos as int, pos + n).drop_first() =~= bytes@.subrange(
                pos + 1,
                pos + n,
            ));
        }
        b as u128 + 256 * rest
    }
}

pub proof fn lemma_pow256_pos(n: nat)
    ensures
        pow256(n) >= 1,
    decreases n,
{
    if n > 0 {
        lemma_pow256_pos((n - 1) as nat);
    }
}

pub proof fn lemma_pow256_increases(a: nat, b: nat)
    requires
        a <= b,
    ensures
        pow256(a) <= pow256(b),
    decreases b,
{
    if a < b && b > 0 {
        lemma_pow256_increases(a, (b - 1) as nat);
        lemma_pow256_pos((b - 1) as nat);
    }
}

pub proof fn lemma_pow256_16()
    ensures
        pow256(8) == 0x1_0000_0000_0000_0000,
        pow256(16) == 0x1_0000_0000_0000_0000 * 0x1_0000_0000_0000_0000,
{
    reveal_with_fuel(pow256, 17);
}

pub proof fn lemma_pow256_add(a: nat, b: nat)
    ensures
        pow256(a + b) == pow256(a) * pow256(b),
    decreases a,
{
    if a == 0 {
        lemma_pow256_pos(b);
    } else {
        lemma_pow256_add((a - 1) as nat, b);
        assert(256 * pow256((a - 1) as nat + b) == (256 * pow256((a - 1) as nat)) * pow256(
            b,
        )) by (nonlinear_arith)
            requires
                pow256((a - 1) as nat + b) == pow256((a - 1) as nat) * pow256(b),
        ;
    }
}

/// The value of splitting a little-endian byte string.
pub proof fn lemma_le_val_concat(a: Seq<u8>, b: Seq<u8>)
    ensures
        le_val(a + b) == le_val(a) + pow256(a.len()) * le_val(b),
    decreases a.len(),
{
    if a.len() == 0 {
        assert(a + b =~= b);
    } else {
        lemma_le_val_concat(a.drop_first(), b);
        assert((a + b).drop_first() =~= a.drop_first() + b);
        assert(256 * (le_val(a.drop_first()) + pow256((a.len() - 1) as nat) * le_val(b))
            == 256 * le_val(a.drop_first()) + (256 * pow256((a.len() - 1) as nat))
            * le_val(b)) by (nonlinear_arith);
    }
}

/// The value of a big-endian byte string: the digest of the hash function is
/// interpreted this way.
pub open spec fn be_val(s: Seq<u8>) -> int
    decreases s.len(),
{
    if s.len() == 0 {
        0
    } else {
        256 * be_val(s.drop_last()) + s.last() as int
    }
}

pub proof fn lemma_be_val_bound(s: Seq<u8>)
    ensures
        0 <= be_val(s) < pow256(s.len()),
    decreases s.len(),
{
    if s.len() > 0 {
        lemma_be_val_bound(s.drop_last());
    }
}

pub proof fn lemma_be_val_concat(a: Seq<u8>, b: Seq<u8>)
    ensures
        be_val(a + b) == be_val(a) * pow256(b.len()) + be_val(b),
    decreases b.len(),
{
    if b.len() == 0 {
        assert(a + b =~= a);
        assert(pow256(b.len()) == 1);
        assert(be_val(a) * 1 == be_val(a));
        assert(be_val(a + b) == be_val(a) * pow256(b.len()) + be_val(b));
    } else {
        lemma_be_val_concat(a, b.drop_last());
        assert((a + b).drop_last() =~= a + b.drop_last());
        assert((a + b).last() == b.last());
        assert(256 * (be_val(a) * pow256((b.len() - 1) as nat) + be_val(b.drop_last()))
            == be_val(a) * (256 * pow256((b.len() - 1) as nat)) + 256 * be_val(
            b.drop_last(),
        )) by (nonlinear_arith);
        assert(be_val(a + b) == 256 * be_val(a + b.drop_last()) + b.last() as int);
        assert(pow256(b.len()) == 256 * pow256((b.len() - 1) as nat));
        assert(be_val(a + b) == be_val(a) * pow256(b.len()) + be_val(b));
    }
}

/// Reads the value of `n` big-endian bytes starting at `pos`.
pub fn read_be(bytes: &Vec<u8>, pos: usize, n: usize) -> (r: u64)
    requires
        n <= 8,
        pos + n <= bytes@.len(),
    ensures
        r == be_val(bytes@.subrange(pos as int, pos + n)),
    decreases n,
{
    proof {
        lemma_be_val_bound(bytes@.subrange(pos as int, pos + n));
        lemma_pow256_increases(n as nat, 8);
        lemma_pow256_16();
    }
    if n == 0 {
        0
    } else {
        let total: usize = bytes.len();
        let hi: u64 = read_be(bytes, pos, n - 1);
        proof {
            lemma_be_val_bound(bytes@.subrange(pos as int, pos + n - 1));
            lemma_pow256_increases((n - 1) as nat, 7);
            assert(pow256(7) * 256 == pow256(8)) by {
                reveal_with_fuel(pow256, 9);
            }
            assert(bytes@.subrange(pos as int, pos + n).drop_last() =~= bytes@.subrange(
                pos as int,
                pos + n - 1,
            ));
        }
        let b: u8 = bytes[pos + n - 1];
        hi * 256 + b as u64
    }
}

/// Appends the canonical 32-byte little-endian encoding of a `U256`.
pub fn push_u256_le(out: &mut Vec<u8>, u: &U256)
    ensures
        final(out)@ == old(out)@ + le_bytes(u.val(), 32),
{
    let ghost pre: Seq<u8> = out@;
    push_le(out, u.l0 as u128, 8);
    push_le(out, u.l1 as u128, 8);
    push_le(out, u.l2 as u128, 8);
    push_le(out, u.l3 as u128, 8);
    proof {
        lemma_pow256_16();
        let b: int = 0x1_0000_0000_0000_0000;
        let v1: int = u.l1 as int + b * (u.l2 as int + b * u.l3 as int);
        let v2: int = u.l2 as int + b * u.l3 as int;
        let v3: int = u.l3 as int;
        lemma_le_bytes_concat(u.l0 as int, v1, 8, 24);
        lemma_le_bytes_concat(u.l1 as int, v2, 8, 16);
        lemma_le_bytes_concat(u.l2 as int, v3, 8, 8);
        assert(out@ =~= pre + le_bytes(u.val(), 32));
    }
}

/// Reads a `U256` from its canonical 32-byte little-endian encoding.
pub fn read_u256_le(bytes: &Vec<u8>, pos: usize) -> (r: U256)
    requires
        pos + 32 <= bytes@.len(),
    ensures
        r.val() == le_val(bytes@.subrange(pos as int, pos + 32)),
{
    let total: usize = bytes.len();
    proof {
        lemma_le_val_bound(bytes@.subrange(pos as int, pos + 8));
        lemma_le_val_bound(bytes@.subrange(pos + 8, pos + 16));
        lemma_le_val_bound(bytes@.subrange(pos + 16, pos + 24));
        lemma_le_val_bound(bytes@.subrange(pos + 24, pos + 32));
        lemma_pow256_16();
    }
    let l0: u64 = read_le(bytes, pos, 8) as u64;
    let l1: u64 = read_le(bytes, pos + 8, 8) as u64;
    let l2: u64 = read_le(bytes, pos + 16, 8) as u64;
    let l3: u64 = read_le(bytes, pos + 24, 8) as u64;
    proof {
        lemma_pow256_16();
        lemma_le_val_bound(bytes@.subrange(pos as int, pos + 8));
        lemma_le_val_bound(bytes@.subrange(pos + 8, pos + 16));
        lemma_le_val_bound(bytes@.subrange(pos + 16, pos + 24));
        lemma_le_val_bound(bytes@.subrange(pos + 24, pos + 32));
        let s = bytes@.subrange(pos as int, pos + 32);
        let s0 = bytes@.subrange(pos as int, pos + 8);
        let s1 = bytes@.subrange(pos + 8, pos + 16);
        let s2 = bytes@.subrange(pos + 16, pos + 24);
        let s3 = bytes@.subrange(pos + 24, pos + 32);
        assert(s =~= s0 + (s1 + (s2 + s3)));
        lemma_le_val_concat(s2, s3);
        lemma_le_val_concat(s1, s2 + s3);
        lemma_le_val_concat(s0, s1 + (s2 + s3));
        assert((s1 + (s2 + s3)).len() == 24);
        assert((s2 + s3).len() == 16);
    }
    U256 { l0, l1, l2, l3 }
}

/// Reads a `U256` from a 32-byte big-endian digest.
pub fn u256_from_be(bytes: &Vec<u8>) -> (r: U256)
    requires
        bytes@.len() == 32,
    ensures
        r.val() == be_val(bytes@),
{
    let l3: u64 = read_be(bytes, 0, 8);
    let l2: u64 = read_be(bytes, 8, 8);
    let l1: u64 = read_be(bytes, 16, 8);
    let l0: u64 = read_be(bytes, 24, 8);
    proof {
        lemma_pow256_16();
        let s = bytes@;
        let s3 = s.subrange(0, 8);
        let s2 = s.subrange(8, 16);
        let s1 = s.subrange(16, 24);
        let s0 = s.subrange(24, 32);
        lemma_be_val_bound(s3);
        lemma_be_val_bound(s2);
        lemma_be_val_bound(s1);
        lemma_be_val_bound(s0);
        assert(s =~= ((s3 + s2) + s1) + s0);
        lemma_be_val_concat(s3, s2);
        lemma_be_val_concat(s3 + s2, s1);
        lemma_be_val_concat((s3 + s2) + s1, s0);
        let b: int = 0x1_0000_0000_0000_0000;
        assert(be_val(s) == ((l3 as int * b + l2 as int) * b + l1 as int) * b
            + l0 as int);
        assert(((l3 as int * b + l2 as int) * b + l1 as int) * b + l0 as int
            == l0 as int + b * (l1 as int + b * (l2 as int + b * l3 as int)))
            by (nonlinear_arith);
    }
    U256 { l0, l1, l2, l3 }
}

/// The canonical encoding of a variable-length byte string: an 8-byte
/// little-endian count, then the bytes.
pub open spec fn enc_bytes(b: Seq<u8>) -> Seq<u8> {
    le_bytes(b.len() as int, 8) + b
}

/// Decodes 8 little-endian bytes at `pos` as an unsigned 64-bit value.
pub open spec fn dec_u64(s: Seq<u8>, pos: int) -> Option<(u64, int)> {
    if 0 <= pos && pos + 8 <= s.len() {
        Some((le_val(s.subrange(pos, pos + 8)) as u64, pos + 8))
    } else {
        None
    }
}

/// Decodes 16 little-endian bytes at `pos` as an unsigned 128-bit value.
pub open spec fn dec_u128(s: Seq<u8>, pos: int) -> Option<(u128, int)> {
    if 0 <= pos && pos + 16 <= s.len() {
        Some((le_val(s.subrange(pos, pos + 16)) as u128, pos + 16))
    } else {
        None
    }
}

/// Decodes 32 little-endian bytes at `pos` as a 256-bit value.
pub open spec fn dec_u256(s: Seq<u8>, pos: int) -> Option<(int, int)> {
    if 0 <= pos && pos + 32 <= s.len() {
        Some((le_val(s.subrange(pos, pos + 32)), pos + 32))
    } else {
        None
    }
}

/// Decodes a length-prefixed byte string at `pos`.
pub open spec fn dec_bytes(s: Seq<u8>, pos: int) -> Option<(Seq<u8>, int)> {
    match dec_u64(s, pos) {
        Some((n, p)) => if p + n <= s.len() {
            Some((s.subrange(p, p + n), p + n))
        } else {
            None
        },
        None => None,
    }
}

pub proof fn lemma_dec_enc_u64(v: u64, s: Seq<u8>, pos: int)
    requires
        0 <= pos,
        pos + 8 <= s.len(),
        s.subrange(pos, pos + 8) == le_bytes(v as int, 8),
    ensures
        dec_u64(s, pos) == Some((v, pos + 8)),
{
    lemma_pow256_16();
    lemma_le_val_le_bytes(v as int, 8);
}

pub proof fn lemma_dec_enc_u128(v: u128, s: Seq<u8>, pos: int)
    requires
        0 <= pos,
        pos + 16 <= s.len(),
        s.subrange(pos, pos + 16) == le_bytes(v as int, 16),
    ensures
        dec_u128(s, pos) == Some((v, pos + 16)),
{
    lemma_pow256_16();
    lemma_le_val_le_bytes(v as int, 16);
}

pub proof fn lemma_dec_enc_u256(v: int, s: Seq<u8>, pos: int)
    requires
        0 <= pos,
        pos + 32 <= s.len(),
        0 <= v < crate::u256::p256(),
        s.subrange(pos, pos + 32) == le_bytes(v, 32),
    ensures
        dec_u256(s, pos) == Some((v, pos + 32)),
{
    lemma_pow256_16();
    lemma_pow256_add(16, 16);
    let b: int = 0x1_0000_0000_0000_0000;
    assert((b * b) * (b * b) == b * (b * (b * b))) by (nonlinear_arith);
    lemma_le_val_le_bytes(v, 32);
}

pub proof fn lemma_dec_enc_bytes(b: Seq<u8>, s: Seq<u8>, pos: int)
    requires
        0 <= pos,
        b.len() < pow256(8),
        pos + enc_bytes(b).len() <= s.len(),
        s.subrange(pos, pos + enc_bytes(b).len()) == enc_bytes(b),
    ensures
        enc_bytes(b).len() == 8 + b.len(),
        dec_bytes(s, pos) == Some((b, pos + 8 + b.len())),
{
    lemma_le_bytes_len(b.len() as int, 8);
    let e = enc_bytes(b);
    assert(s.subrange(pos, pos + 8) =~= e.subrange(0, 8));
    assert(e.subrange(0, 8) =~= le_bytes(b.len() as int, 8));
    lemma_pow256_16();
    lemma_le_val_le_bytes(b.len() as int, 8);
    assert forall|i: int| 0 <= i < b.len() implies s[pos + 8 + i] == b[i] by {
        assert(s.subrange(pos, pos + e.len())[8 + i] == s[pos + 8 + i]);
        assert(e[8 + i] == b[i]);
    }
    assert(s.subrange(pos + 8, pos + 8 + b.len()) =~= b);
}

/// Appends the canonical length-prefixed encoding of a byte string.
pub fn push_bytes(out: &mut Vec<u8>, b: &Vec<u8>)
    ensures
        final(out)@ == old(out)@ + enc_bytes(b@),
{
    let ghost pre: Seq<u8> = out@;
    let n: usize = b.len();
    proof {
        lemma_pow256_16();
    }
    push_le(out, n as u128, 8);
    let mut i: usize = 0;
    while i < n
        invariant
            n == b@.len(),
            i <= n,
            out@ == pre + le_bytes(n as int, 8) + b@.subrange(0, i as int),
        decreases n - i,
    {
        out.push(b[i]);
        proof {
            assert(pre + le_bytes(n as int, 8) + b@.subrange(0, i as int) + seq![b@[i as int]]
                =~= pre + le_bytes(n as int, 8) + b@.subrange(0, i + 1));
        }
        i = i + 1;
    }
    proof {
        assert(b@.subrange(0, n as int) =~= b@);
        assert(pre + le_bytes(n as int, 8) + b@ =~= pre + enc_bytes(b@));
    }
}

/// A copy of the bytes in `[start, end)`.
pub fn copy_range(bytes: &Vec<u8>, start: usize, end: usize) -> (r: Vec<u8>)
    requires
        start <= end,
        end <= bytes@.len(),
    ensures
        r@ == bytes@.subrange(start as int, end as int),
{
    let mut r: Vec<u8> = Vec::new();
    let mut i: usize = start;
    while i < end
        invariant
            start <= i <= end,
            end <= bytes@.len(),
            r@ == bytes@.subrange(start as int, i as int),
        decreases end - i,
    {
        r.push(bytes[i]);
        proof {
            assert(bytes@.subrange(start as int, i as int) + seq![bytes@[i as int]]
                =~= bytes@.subrange(start as int, i + 1));
        }
        i = i + 1;
    }
    r
}

/// Reads an unsigned 64-bit value; mirrors [`dec_u64`].
pub fn read_u64(bytes: &Vec<u8>, pos: usize) -> (r: Option<(u64, usize)>)
    ensures
        match r {
            Some((v, p)) => dec_u64(bytes@, pos as int) == Some((v, p as int)),
            None => dec_u64(bytes@, pos as int) is None,
        },
{
    let total: usize = bytes.len();
    if pos > total || total - pos < 8 {
        return None;
    }
    proof {
        lemma_le_val_bound(bytes@.subrange(pos as int, pos + 8));
        lemma_pow256_16();
    }
    let v: u64 = read_le(bytes, pos, 8) as u64;
    Some((v, pos + 8))
}

/// Reads an unsigned 128-bit value; mirrors [`dec_u128`].
pub fn read_u128(bytes: &Vec<u8>, pos: usize) -> (r: Option<(u128, usize)>)
    ensures
        match r {
            Some((v, p)) => dec_u128(bytes@, pos as int) == Some((v, p as int)),
            None => dec_u128(bytes@, pos as int) is None,
        },
{
    let total: usize = bytes.len();
    if pos > total || total - pos < 16 {
        return None;
    }
    proof {
        lemma_le_val_bound(bytes@.subrange(pos as int, pos + 16));
        lemma_pow256_16();
    }
    let v: u128 = read_le(bytes, pos, 16);
    Some((v, pos + 16))
}

/// Reads a 256-bit value; mirrors [`dec_u256`].
pub fn read_u256(bytes: &Vec<u8>, pos: usize) -> (r: Option<(U256, usize)>)
    ensures
        match r {
            Some((v, p)) => dec_u256(bytes@, pos as int) == Some((v.val(), p as int)),
            None => dec_u256(bytes@, pos as int) is None,
        },
{
    let total: usize = bytes.len();
    if pos > total || total - pos < 32 {
        return None;
    }
    let v: U256 = read_u256_le(bytes, pos);
    Some((v, pos + 32))
}

/// Reads a length-prefixed byte string; mirrors [`dec_bytes`].
pub fn read_bytes(bytes: &Vec<u8>, pos: usize) -> (r: Option<(Vec<u8>, usize)>)
    ensures
        match r {
            Some((v, p)) => dec_bytes(bytes@, pos as int) == Some((v@, p as int)),
            None => dec_bytes(bytes@, pos as int) is None,
        },
{
    let total: usize = bytes.len();
    let (n, p) = match read_u64(bytes, pos) {
        Some(x) => x,
        None => {
            return None;
        },
    };
    if n > (total - p) as u64 {
        return None;
    }
    let nn: usize = n as usize;
    let v = copy_range(bytes, p, p + nn);
    Some((v, p + nn))
}

/// The big-endian encoding of `v` as `n` bytes.
pub open spec fn be_bytes(v: int, n: nat) -> Seq<u8>
    decreases n,
{
    if n == 0 {
        Seq::empty()
    } else {
        be_bytes(v / 256, (n - 1) as nat) + seq![(v % 256) as u8]
    }
}

pub proof fn lemma_be_bytes_len(v: int, n: nat)
    ensures
        be_bytes(v, n).len() == n,
    decreases n,
{
    if n > 0 {
        lemma_be_bytes_len(v / 256, (n - 1) as nat);
    }
}

/// Reading back the canonical big-endian bytes of a value in range
/// recovers the value.
pub proof fn lemma_be_val_be_bytes(v: int, n: nat)
    requires
        0 <= v < pow256(n),
    ensures
        be_val(be_bytes(v, n)) == v,
    decreases n,
{
    if n > 0 {
        lemma_be_val_be_bytes(v / 256, (n - 1) as nat);
        lemma_be_bytes_len(v / 256, (n - 1) as nat);
        let s = be_bytes(v, n);
        assert(s.drop_last() =~= be_bytes(v / 256, (n - 1) as nat));
        assert(s.last() == (v % 256) as u8);
    }
}

/// Appends the canonical `n`-byte big-endian encoding of `v`.
pub fn push_be(out: &mut Vec<u8>, v: u64, n: usize)
    requires
        n <= 8,
    ensures
        final(out)@ == old(out)@ + be_bytes(v as int, n as nat),
    decreases n,
{
    if n == 0 {
        assert(out@ =~= out@ + be_bytes(v as int, 0));
    } else {
        let ghost pre: Seq<u8> = out@;
        push_be(out, v / 256, n - 1);
        let b: u8 = (v % 256) as u8;
        out.push(b);
        assert(out@ =~= pre + be_bytes(v as int, n as nat));
    }
}

/// Splitting a value at a byte boundary splits its big-endian encoding.
pub proof fn lemma_be_bytes_concat(x: int, y: int, n: nat, m: nat)
    requires
        0 <= x,
        0 <= y < pow256(m),
    ensures
        be_bytes(x * pow256(m) + y, n + m) == be_bytes(x, n) + be_bytes(y, m),
    decreases m,
{
    if m == 0 {
        assert(x * 1 + y == x);
        assert(be_bytes(x * pow256(0) + y, n + 0) =~= be_bytes(x, n) + be_bytes(y, 0));
    } else {
        let v = x * pow256(m) + y;
        assert(v == 256 * (x * pow256((m - 1) as nat)) + y) by (nonlinear_arith)
            requires
                v == x * pow256(m) + y,
                pow256(m) == 256 * pow256((m - 1) as nat),
        ;
        let t = x * pow256((m - 1) as nat);
        vstd::arithmetic::mul::lemma_mul_nonnegative(x, pow256((m - 1) as nat));
        assert(v % 256 == y % 256 && v / 256 == t + y / 256) by {
            vstd::arithmetic::div_mod::lemma_fundamental_div_mod(y, 256);
            vstd::arithmetic::div_mod::lemma_fundamental_div_mod_converse(
                v,
                256,
                t + y / 256,
                y % 256,
            );
        }
        assert(y / 256 < pow256((m - 1) as nat));
        lemma_be_bytes_concat(x, y / 256, n, (m - 1) as nat);
        assert(be_bytes(v, (n + m) as nat) =~= be_bytes(x, n) + be_bytes(y, m));
    }
}

/// Appends the canonical 32-byte big-endian encoding of a `U256`.
pub fn push_u256_be(out: &mut Vec<u8>, u: &U256)
    ensures
        final(out)@ == old(out)@ + be_bytes(u.val(), 32),
{
    let ghost pre: Seq<u8> = out@;
    push_be(out, u.l3, 8);
    push_be(out, u.l2, 8);
    push_be(out, u.l1, 8);
    push_be(out, u.l0, 8);
    proof {
        lemma_pow256_16();
        let b: int = 0x1_0000_0000_0000_0000;
        let a2: int = u.l3 as int * b + u.l2 as int;
        let a3: int = a2 * b + u.l1 as int;
        assert(a3 * b + u.l0 as int == u.val()) by (nonlinear_arith)
            requires
                a2 == u.l3 as int * b + u.l2 as int,
                a3 == a2 * b + u.l1 as int,
                u.val() == u.l0 as int + b * (u.l1 as int + b * (u.l2 as int + b
                    * u.l3 as int)),
        ;
        vstd::arithmetic::mul::lemma_mul_nonnegative(u.l3 as int, b);
        vstd::arithmetic::mul::lemma_mul_nonnegative(a2, b);
        lemma_be_bytes_concat(u.l3 as int, u.l2 as int, 8, 8);
        lemma_be_bytes_concat(a2, u.l1 as int, 16, 8);
        lemma_be_bytes_concat(a3, u.l0 as int, 24, 8);
        assert(out@ =~= pre + be_bytes(u.val(), 32));
    }
}

/// Splitting a known subrange of `s` at an interior boundary.
pub proof fn lemma_split_subrange(s: Seq<u8>, pos: int, x: Seq<u8>, y: Seq<u8>)
    requires
        0 <= pos,
        pos + x.len() + y.len() <= s.len(),
        s.subrange(pos, pos + x.len() + y.len()) == x + y,
    ensures
        s.subrange(pos, pos + x.len()) == x,
        s.subrange(pos + x.len(), pos + x.len() + y.len()) == y,
{
    let e = x + y;
    assert forall|i: int| 0 <= i < x.len() implies s.subrange(pos, pos + x.len())[i]
        == x[i] by {
        assert(s.subrange(pos, pos + e.len())[i] == s[pos + i]);
        assert(s.subrange(pos, pos + x.len())[i] == s[pos + i]);
    }
    assert(s.subrange(pos, pos + x.len()) =~= x);
    assert forall|i: int| 0 <= i < y.len() implies s.subrange(
        pos + x.len(),
        pos + x.len() + y.len(),
    )[i] == y[i] by {
        assert(s.subrange(pos, pos + e.len())[x.len() + i] == s[pos + x.len() + i]);
        assert(s.subrange(pos + x.len(), pos + x.len() + y.len())[i] == s[pos + x.len()
            + i]);
        assert(e[x.len() + i] == y[i]);
    }
    assert(s.subrange(pos + x.len(), pos + x.len() + y.len()) =~= y);
}

} // verus!
