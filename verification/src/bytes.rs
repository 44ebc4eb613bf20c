//! Big-endian byte encodings of unsigned integers, and lower-case hex text
//! of byte strings.

use vstd::prelude::*;
use crate::text::{digit_char, push_char};

verus! {

/// The number that `s` encodes, most significant byte first.
pub open spec fn be_value(s: Seq<u8>) -> nat
    decreases s.len(),
{
    if s.len() == 0 {
        0
    } else {
        be_value(s.drop_last()) * 256 + s.last() as nat
    }
}

/// `256` to the power `n`.
pub open spec fn pow256(n: nat) -> nat
    decreases n,
{
    if n == 0 {
        1
    } else {
        256 * pow256((n - 1) as nat)
    }
}

/// The `len` low bytes of `n`, most significant first.
pub open spec fn be_bytes(n: nat, len: nat) -> Seq<u8>
    decreases len,
{
    if len == 0 {
        Seq::empty()
    } else {
        be_bytes(n / 256, (len - 1) as nat).push((n % 256) as u8)
    }
}

pub proof fn lemma_pow256_positive(n: nat)
    ensures
        pow256(n) > 0,
    decreases n,
{
    if n > 0 {
        lemma_pow256_positive((n - 1) as nat);
    }
}

pub proof fn lemma_pow256_8()
    ensures
        pow256(8) == 0x1_0000_0000_0000_0000,
{
    reveal_with_fuel(pow256, 9);
}

/// A byte string of length `n` encodes a number below `256^n`.
pub proof fn lemma_be_value_bound(s: Seq<u8>)
    ensures
        be_value(s) < pow256(s.len()),
    decreases s.len(),
{
    if s.len() > 0 {
        lemma_be_value_bound(s.drop_last());
        let p = pow256((s.len() - 1) as nat);
        let v = be_value(s.drop_last());
        assert(v * 256 + s.last() < p * 256) by (nonlinear_arith)
            requires
                v < p,
                s.last() < 256,
        ;
    }
}

/// Encoding `n` in `len` bytes keeps it modulo `256^len`.
pub proof fn lemma_be_bytes_value(n: nat, len: nat)
    ensures
        be_bytes(n, len).len() == len,
        be_value(be_bytes(n, len)) == n % pow256(len),
    decreases len,
{
    if len > 0 {
        lemma_be_bytes_value(n / 256, (len - 1) as nat);
        lemma_pow256_positive((len - 1) as nat);
        let p = pow256((len - 1) as nat);
        let s = be_bytes(n, len);
        assert(s.drop_last() =~= be_bytes(n / 256, (len - 1) as nat));
        vstd::arithmetic::div_mod::lemma_mod_breakdown(n as int, 256, p as int);
        assert(256 * p == pow256(len));
    }
}

/// Decoding the big-endian encoding of a `u64` in eight bytes gives it back.
pub proof fn lemma_be_roundtrip(n: u64)
    ensures
        be_bytes(n as nat, 8).len() == 8,
        be_value(be_bytes(n as nat, 8)) == n,
{
    lemma_be_bytes_value(n as nat, 8);
    lemma_pow256_8();
}

fn be_bytes_exec(n: u64, len: usize) -> (r: Vec<u8>)
    requires
        len <= 8,
    ensures
        r@ == be_bytes(n as nat, len as nat),
    decreases len,
{
    if len == 0 {
        Vec::new()
    } else {
        let mut v = be_bytes_exec(n / 256, len - 1);
        v.push((n % 256) as u8);
        v
    }
}

/// `n.to_be_bytes()`: the eight bytes of `n`, most significant first.
pub fn u64_to_be(n: u64) -> (r: Vec<u8>)
    ensures
        r@ == be_bytes(n as nat, 8),
        r@.len() == 8,
        be_value(r@) == n,
{
    proof {
        lemma_be_roundtrip(n);
    }
    be_bytes_exec(n, 8)
}

/// `u64::from_be_bytes`: the number that eight bytes encode, most
/// significant first.
pub fn u64_from_be(b: &[u8]) -> (r: u64)
    requires
        b@.len() == 8,
    ensures
        r == be_value(b@),
{
    let mut acc: u64 = 0;
    let mut i: usize = 0;
    while i < 8
        invariant
            i <= 8,
            b@.len() == 8,
            acc == be_value(b@.take(i as int)),
        decreases 8 - i,
    {
        proof {
            lemma_be_value_bound(b@.take(i as int));
            lemma_pow256_monotone(i as nat, 7);
            lemma_pow256_8();
            reveal_with_fuel(pow256, 9);
            assert(b@.take(i + 1).drop_last() =~= b@.take(i as int));
        }
        acc = acc * 256 + b[i] as u64;
        i = i + 1;
    }
    assert(b@.take(8) =~= b@);
    acc
}

proof fn lemma_pow256_monotone(a: nat, b: nat)
    requires
        a <= b,
    ensures
        pow256(a) <= pow256(b),
    decreases b,
{
    if a < b {
        lemma_pow256_monotone(a, (b - 1) as nat);
        lemma_pow256_positive((b - 1) as nat);
    }
}

/// Two lower-case hex digits for each byte, as `{:x}` writes a digest.
pub open spec fn bytes_hex(s: Seq<u8>) -> Seq<char>
    decreases s.len(),
{
    if s.len() == 0 {
        Seq::empty()
    } else {
        bytes_hex(s.drop_last()).push(digit_char((s.last() / 16) as nat)).push(
            digit_char((s.last() % 16) as nat),
        )
    }
}

fn hex_digit(d: u8) -> (c: char)
    requires
        d < 16,
    ensures
        c == digit_char(d as nat),
{
    if d == 0 { '0' } else if d == 1 { '1' } else if d == 2 { '2' } else if d == 3 { '3' }
    else if d == 4 { '4' } else if d == 5 { '5' } else if d == 6 { '6' } else if d == 7 { '7' }
    else if d == 8 { '8' } else if d == 9 { '9' } else if d == 10 { 'a' } else if d == 11 { 'b' }
    else if d == 12 { 'c' } else if d == 13 { 'd' } else if d == 14 { 'e' } else { 'f' }
}

/// Appends the hex text of `bytes` to `out`.
pub fn push_bytes_hex(out: &mut String, bytes: &[u8])
    ensures
        final(out)@ == old(out)@ + bytes_hex(bytes@),
{
    let mut i: usize = 0;
    while i < bytes.len()
        invariant
            i <= bytes@.len(),
            out@ == old(out)@ + bytes_hex(bytes@.take(i as int)),
        decreases bytes.len() - i,
    {
        let b = bytes[i];
        push_char(out, hex_digit(b / 16));
        push_char(out, hex_digit(b % 16));
        proof {
            assert(bytes@.take(i + 1).drop_last() =~= bytes@.take(i as int));
        }
        i = i + 1;
    }
    assert(bytes@.take(bytes@.len() as int) =~= bytes@);
}

} // verus!

verus! {

/// Lexicographic order on byte strings from position `i` on: the order in
/// which a sorted key-value store keeps its keys.
pub open spec fn bytes_le_from(a: Seq<u8>, b: Seq<u8>, i: int) -> bool
    decreases a.len() - i,
{
    if i >= a.len() || i < 0 {
        true
    } else if i >= b.len() {
        false
    } else if a[i] != b[i] {
        a[i] < b[i]
    } else {
        bytes_le_from(a, b, i + 1)
    }
}

pub open spec fn bytes_le(a: Seq<u8>, b: Seq<u8>) -> bool {
    bytes_le_from(a, b, 0)
}

proof fn lemma_be_value_front(s: Seq<u8>)
    requires
        s.len() > 0,
    ensures
        be_value(s) == s[0] as nat * pow256((s.len() - 1) as nat) + be_value(s.skip(1)),
    decreases s.len(),
{
    if s.len() == 1 {
        assert(s.drop_last() =~= Seq::<u8>::empty());
        assert(s.skip(1) =~= Seq::<u8>::empty());
        assert(be_value(Seq::<u8>::empty()) == 0);
        assert(s.last() == s[0]);
        assert(pow256(0) == 1);
        assert(be_value(s) == s[0] as nat);
        assert(s[0] as nat * pow256(0) == s[0] as nat);
    } else {
        let d = s.drop_last();
        lemma_be_value_front(d);
        let t = s.skip(1);
        assert(d.skip(1) =~= t.drop_last());
        assert(t.last() == s.last());
        assert(d[0] == s[0]);
        let p = pow256((d.len() - 1) as nat);
        let q = pow256((s.len() - 1) as nat);
        assert(q == 256 * p);
        let a = s[0] as nat;
        let bd = be_value(d.skip(1));
        let l = s.last() as nat;
        assert(be_value(d) == a * p + bd);
        assert(be_value(t) == bd * 256 + l);
        assert(be_value(s) == be_value(d) * 256 + l);
        assert((a * p + bd) * 256 + l == a * (256 * p) + (bd * 256 + l)) by (nonlinear_arith);
    }
}

proof fn lemma_bytes_le_value(a: Seq<u8>, b: Seq<u8>)
    requires
        a.len() == b.len(),
    ensures
        bytes_le(a, b) <==> be_value(a) <= be_value(b),
    decreases a.len(),
{
    if a.len() > 0 {
        let n = (a.len() - 1) as nat;
        let p = pow256(n);
        lemma_pow256_positive(n);
        lemma_be_value_front(a);
        lemma_be_value_front(b);
        let ra = be_value(a.skip(1));
        let rb = be_value(b.skip(1));
        lemma_be_value_bound(a.skip(1));
        lemma_be_value_bound(b.skip(1));
        let x = a[0] as nat;
        let y = b[0] as nat;
        if x != y {
            if x < y {
                assert(x * p + ra < y * p + rb) by (nonlinear_arith)
                    requires
                        x < y,
                        ra < p,
                        rb >= 0,
                ;
            } else {
                assert(y * p + rb < x * p + ra) by (nonlinear_arith)
                    requires
                        y < x,
                        rb < p,
                        ra >= 0,
                ;
            }
        } else {
            lemma_bytes_le_value(a.skip(1), b.skip(1));
            lemma_bytes_le_from_shift(a, b, 1);
        }
    }
}

proof fn lemma_bytes_le_from_shift(a: Seq<u8>, b: Seq<u8>, k: int)
    requires
        0 <= k <= a.len(),
        a.len() == b.len(),
        forall|j: int| 0 <= j < k ==> a[j] == b[j],
    ensures
        bytes_le_from(a, b, 0) == bytes_le(a.skip(k), b.skip(k)),
    decreases k,
{
    lemma_bytes_le_from_skip(a, b, k, 0);
    lemma_bytes_le_from_prefix(a, b, 0, k);
}

proof fn lemma_bytes_le_from_prefix(a: Seq<u8>, b: Seq<u8>, i: int, k: int)
    requires
        0 <= i <= k <= a.len(),
        a.len() == b.len(),
        forall|j: int| 0 <= j < k ==> a[j] == b[j],
    ensures
        bytes_le_from(a, b, i) == bytes_le_from(a, b, k),
    decreases k - i,
{
    if i < k {
        lemma_bytes_le_from_prefix(a, b, i + 1, k);
    }
}

proof fn lemma_bytes_le_from_skip(a: Seq<u8>, b: Seq<u8>, k: int, i: int)
    requires
        0 <= k <= a.len(),
        a.len() == b.len(),
        0 <= i,
    ensures
        bytes_le_from(a, b, k + i) == bytes_le_from(a.skip(k), b.skip(k), i),
    decreases a.len() - k - i,
{
    if k + i < a.len() {
        lemma_bytes_le_from_skip(a, b, k, i + 1);
    }
}

/// Eight-byte big-endian keys sort as the numbers they encode: a key
/// range scan from the encoding of `n` visits exactly the numbers at or
/// above `n`, in increasing order.
pub proof fn lemma_be_keys_ordered(x: u64, y: u64)
    ensures
        bytes_le(be_bytes(x as nat, 8), be_bytes(y as nat, 8)) <==> x <= y,
{
    lemma_be_roundtrip(x);
    lemma_be_roundtrip(y);
    lemma_bytes_le_value(be_bytes(x as nat, 8), be_bytes(y as nat, 8));
}

} // verus!
