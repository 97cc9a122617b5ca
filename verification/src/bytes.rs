//! Byte-string keys: the lexicographic order every component lists its keys
//! in, and the 8-byte big-endian encoding of timestamps, whose byte order
//! agrees with numeric order.

use vstd::prelude::*;

verus! {

/// Strict lexicographic order on byte strings: `a` comes before `b` when at
/// the first differing position `a` holds the smaller byte, or `a` is a
/// proper prefix of `b`.
pub open spec fn lex_lt(a: Seq<u8>, b: Seq<u8>) -> bool
    decreases a.len(),
{
    if b.len() == 0 {
        false
    } else if a.len() == 0 {
        true
    } else if a[0] < b[0] {
        true
    } else if a[0] > b[0] {
        false
    } else {
        lex_lt(a.skip(1), b.skip(1))
    }
}

/// A sequence of keys in strictly ascending lexicographic order.
pub open spec fn sorted_strict(s: Seq<Seq<u8>>) -> bool {
    forall|i: int, j: int| 0 <= i < j < s.len() ==> lex_lt(s[i], s[j])
}

pub proof fn lemma_lex_irrefl(a: Seq<u8>)
    ensures
        !lex_lt(a, a),
    decreases a.len(),
{
    if a.len() > 0 {
        lemma_lex_irrefl(a.skip(1));
    }
}

pub proof fn lemma_lex_connex(a: Seq<u8>, b: Seq<u8>)
    ensures
        lex_lt(a, b) || lex_lt(b, a) || a == b,
    decreases a.len(),
{
    if a.len() == 0 {
        if b.len() == 0 {
            assert(a =~= b);
        }
    } else if b.len() == 0 {
    } else if a[0] == b[0] {
        lemma_lex_connex(a.skip(1), b.skip(1));
        if !lex_lt(a, b) && !lex_lt(b, a) {
            assert(a.skip(1) =~= b.skip(1));
            assert forall|i: int| 0 <= i < a.len() implies a[i] == b[i] by {
                if i > 0 {
                    assert(a.skip(1)[i - 1] == a[i]);
                    assert(b.skip(1)[i - 1] == b[i]);
                }
            }
            assert(a =~= b);
        }
    }
}

pub proof fn lemma_lex_asym(a: Seq<u8>, b: Seq<u8>)
    ensures
        lex_lt(a, b) ==> !lex_lt(b, a),
    decreases a.len(),
{
    if a.len() > 0 && b.len() > 0 && a[0] == b[0] {
        lemma_lex_asym(a.skip(1), b.skip(1));
    }
}

pub proof fn lemma_lex_trans(a: Seq<u8>, b: Seq<u8>, c: Seq<u8>)
    requires
        lex_lt(a, b),
        lex_lt(b, c),
    ensures
        lex_lt(a, c),
    decreases a.len(),
{
    if a.len() == 0 {
    } else {
        if a[0] == b[0] && b[0] == c[0] {
            lemma_lex_trans(a.skip(1), b.skip(1), c.skip(1));
        }
    }
}

/// A common prefix of length `i` followed by a smaller byte in `a` puts `a`
/// first.
pub proof fn lemma_lex_prefix_lt(a: Seq<u8>, b: Seq<u8>, i: int)
    requires
        0 <= i < a.len(),
        i < b.len(),
        a.subrange(0, i) == b.subrange(0, i),
        a[i] < b[i],
    ensures
        lex_lt(a, b),
    decreases i,
{
    if i == 0 {
    } else {
        assert(a.subrange(0, i)[0] == a[0]);
        assert(b.subrange(0, i)[0] == b[0]);
        assert(a.skip(1).subrange(0, i - 1) =~= b.skip(1).subrange(0, i - 1)) by {
            assert forall|j: int| #![trigger a.skip(1).subrange(0, i - 1)[j]] 0 <= j < i - 1 implies a.skip(1).subrange(0, i - 1)[j] == b.skip(
                1,
            ).subrange(0, i - 1)[j] by {
                assert(a.subrange(0, i)[j + 1] == a[j + 1]);
                assert(b.subrange(0, i)[j + 1] == b[j + 1]);
            }
        }
        lemma_lex_prefix_lt(a.skip(1), b.skip(1), i - 1);
    }
}

/// A proper prefix comes first.
pub proof fn lemma_lex_prefix_proper(a: Seq<u8>, b: Seq<u8>)
    requires
        a.len() < b.len(),
        a == b.subrange(0, a.len() as int),
    ensures
        lex_lt(a, b),
    decreases a.len(),
{
    if a.len() > 0 {
        assert(b.subrange(0, a.len() as int)[0] == b[0]);
        assert(a.skip(1) =~= b.skip(1).subrange(0, a.len() - 1)) by {
            assert forall|j: int| #![trigger a.skip(1)[j]] 0 <= j < a.len() - 1 implies a.skip(1)[j] == b.skip(1).subrange(
                0,
                a.len() - 1,
            )[j] by {
                assert(b.subrange(0, a.len() as int)[j + 1] == b[j + 1]);
            }
        }
        lemma_lex_prefix_proper(a.skip(1), b.skip(1));
    }
}

/// Three-way comparison of byte strings in lexicographic order.
pub fn lex_cmp(a: &Vec<u8>, b: &Vec<u8>) -> (r: i32)
    ensures
        r == -1 || r == 0 || r == 1,
        (r == -1) == lex_lt(a@, b@),
        (r == 0) == (a@ == b@),
        (r == 1) == lex_lt(b@, a@),
{
    proof {
        lemma_lex_irrefl(a@);
        lemma_lex_asym(a@, b@);
        lemma_lex_asym(b@, a@);
        lemma_lex_connex(a@, b@);
    }
    let n: usize = if a.len() < b.len() {
        a.len()
    } else {
        b.len()
    };
    let mut i: usize = 0;
    while i < n
        invariant
            0 <= i <= n,
            n <= a.len(),
            n <= b.len(),
            n == a.len() || n == b.len(),
            a@.subrange(0, i as int) == b@.subrange(0, i as int),
        decreases n - i,
    {
        let x = a[i];
        let y = b[i];
        if x < y {
            proof {
                lemma_lex_prefix_lt(a@, b@, i as int);
                lemma_lex_asym(a@, b@);
            }
            return -1;
        }
        if y < x {
            proof {
                lemma_lex_prefix_lt(b@, a@, i as int);
                lemma_lex_asym(b@, a@);
            }
            return 1;
        }
        proof {
            assert(a@.subrange(0, i + 1 as int) =~= b@.subrange(0, i + 1 as int)) by {
                assert forall|j: int| #![trigger a@.subrange(0, i + 1 as int)[j]] 0 <= j < i + 1 implies a@.subrange(0, i + 1 as int)[j]
                    == b@.subrange(0, i + 1 as int)[j] by {
                    if j < i {
                        assert(a@.subrange(0, i as int)[j] == b@.subrange(0, i as int)[j]);
                    }
                }
            }
        }
        i = i + 1;
    }
    if a.len() < b.len() {
        proof {
            assert(a@ =~= b@.subrange(0, a@.len() as int)) by {
                assert(a@ =~= a@.subrange(0, i as int));
            }
            lemma_lex_prefix_proper(a@, b@);
        }
        -1
    } else if b.len() < a.len() {
        proof {
            assert(b@ =~= a@.subrange(0, b@.len() as int)) by {
                assert(b@ =~= b@.subrange(0, i as int));
            }
            lemma_lex_prefix_proper(b@, a@);
        }
        1
    } else {
        proof {
            assert(a@ =~= b@) by {
                assert(a@ =~= a@.subrange(0, i as int));
                assert(b@ =~= b@.subrange(0, i as int));
            }
        }
        0
    }
}

/// An owned copy of a byte string.
pub fn copy_bytes(src: &Vec<u8>) -> (r: Vec<u8>)
    ensures
        r@ == src@,
{
    let mut r: Vec<u8> = Vec::new();
    let mut i: usize = 0;
    while i < src.len()
        invariant
            i <= src@.len(),
            r@ == src@.subrange(0, i as int),
        decreases src@.len() - i,
    {
        r.push(src[i]);
        proof {
            assert(r@ =~= src@.subrange(0, i + 1));
        }
        i = i + 1;
    }
    proof {
        assert(r@ =~= src@);
    }
    r
}

/// An owned copy of a borrowed byte slice.
pub fn bytes_of(src: &[u8]) -> (r: Vec<u8>)
    ensures
        r@ == src@,
{
    let mut r: Vec<u8> = Vec::new();
    let mut i: usize = 0;
    while i < src.len()
        invariant
            i <= src@.len(),
            r@ == src@.subrange(0, i as int),
        decreases src@.len() - i,
    {
        r.push(src[i]);
        proof {
            assert(r@ =~= src@.subrange(0, i + 1));
        }
        i = i + 1;
    }
    proof {
        assert(r@ =~= src@);
    }
    r
}

pub open spec fn pow256(n: nat) -> int
    decreases n,
{
    if n == 0 {
        1
    } else {
        256 * pow256((n - 1) as nat)
    }
}

pub proof fn lemma_pow256_pos(n: nat)
    ensures
        pow256(n) >= 1,
    decreases n,
{
    if n > 0 {
        lemma_pow256_pos((n - 1) as nat);
    }
}

/// The numeric value of a byte string read as a big-endian integer, most
/// significant byte first.
pub open spec fn be_val(s: Seq<u8>) -> int
    decreases s.len(),
{
    if s.len() == 0 {
        0
    } else {
        s[0] * pow256((s.len() - 1) as nat) + be_val(s.skip(1))
    }
}

pub proof fn lemma_be_val_bound(s: Seq<u8>)
    ensures
        0 <= be_val(s) < pow256(s.len()),
    decreases s.len(),
{
    if s.len() > 0 {
        lemma_be_val_bound(s.skip(1));
        let p = pow256((s.len() - 1) as nat);
        lemma_pow256_pos((s.len() - 1) as nat);
        let h = s[0] as int;
        assert(h * p >= 0 && (h + 1) * p <= 256 * p && (h + 1) * p == h * p + p) by (nonlinear_arith)
            requires
                0 <= h <= 255,
                p >= 1,
        ;
        assert(h * p + be_val(s.skip(1)) < (h + 1) * p);
    }
}

/// Big-endian byte order agrees with numeric order: for byte strings of equal
/// length, the lexicographically smaller one holds the smaller value.
pub proof fn lemma_be_order(s: Seq<u8>, t: Seq<u8>)
    requires
        s.len() == t.len(),
    ensures
        lex_lt(s, t) <==> be_val(s) < be_val(t),
    decreases s.len(),
{
    if s.len() > 0 {
        let p = pow256((s.len() - 1) as nat);
        lemma_pow256_pos((s.len() - 1) as nat);
        lemma_be_val_bound(s.skip(1));
        lemma_be_val_bound(t.skip(1));
        let hs = s[0] as int;
        let ht = t[0] as int;
        let a = be_val(s.skip(1));
        let b = be_val(t.skip(1));
        if hs < ht {
            assert(hs * p + a < ht * p + b) by (nonlinear_arith)
                requires
                    hs + 1 <= ht,
                    0 <= a < p,
                    0 <= b,
                    p >= 1,
            ;
        } else if ht < hs {
            assert(ht * p + b < hs * p + a) by (nonlinear_arith)
                requires
                    ht + 1 <= hs,
                    0 <= b < p,
                    0 <= a,
                    p >= 1,
            ;
        } else {
            lemma_be_order(s.skip(1), t.skip(1));
        }
    }
}

/// Equal-length byte strings with the same big-endian value are equal.
pub proof fn lemma_be_val_injective(s: Seq<u8>, t: Seq<u8>)
    requires
        s.len() == t.len(),
        be_val(s) == be_val(t),
    ensures
        s == t,
{
    lemma_lex_connex(s, t);
    lemma_be_order(s, t);
    lemma_be_order(t, s);
}

pub proof fn lemma_pow256_values()
    ensures
        pow256(1) == 0x100,
        pow256(2) == 0x10000,
        pow256(3) == 0x1000000,
        pow256(4) == 0x100000000,
        pow256(5) == 0x10000000000,
        pow256(6) == 0x1000000000000,
        pow256(7) == 0x100000000000000,
        pow256(8) == 0x10000000000000000,
{
    assert(pow256(0) == 1);
    assert(pow256(1) == 0x100);
    assert(pow256(2) == 0x10000);
    assert(pow256(3) == 0x1000000);
    assert(pow256(4) == 0x100000000);
    assert(pow256(5) == 0x10000000000);
    assert(pow256(6) == 0x1000000000000);
    assert(pow256(7) == 0x100000000000000);
    assert(pow256(8) == 0x10000000000000000);
}

/// The big-endian value of an eight-byte string, written out.
pub proof fn lemma_be_val8(s: Seq<u8>)
    requires
        s.len() == 8,
    ensures
        be_val(s) == s[0] * 0x100000000000000 + s[1] * 0x1000000000000 + s[2] * 0x10000000000 + s[3]
            * 0x100000000 + s[4] * 0x1000000 + s[5] * 0x10000 + s[6] * 0x100 + s[7],
{
    lemma_pow256_values();
    reveal_with_fuel(be_val, 10);
    let s1 = s.skip(1);
    let s2 = s1.skip(1);
    let s3 = s2.skip(1);
    let s4 = s3.skip(1);
    let s5 = s4.skip(1);
    let s6 = s5.skip(1);
    let s7 = s6.skip(1);
    assert(s1[0] == s[1] && s2[0] == s[2] && s3[0] == s[3] && s4[0] == s[4] && s5[0] == s[5]
        && s6[0] == s[6] && s7[0] == s[7]);
    assert(s7.skip(1).len() == 0);
    assert(be_val(s7) == s[7] * pow256(0) + 0);
}

/// Encodes a timestamp as eight big-endian bytes, the form in which it serves
/// as an ordered store key.
pub fn be_encode(t: u64) -> (r: Vec<u8>)
    ensures
        r@.len() == 8,
        be_val(r@) == t,
{
    let q0: u64 = t / 0x100000000000000;
    let r0: u64 = t % 0x100000000000000;
    let q1: u64 = r0 / 0x1000000000000;
    let r1: u64 = r0 % 0x1000000000000;
    let q2: u64 = r1 / 0x10000000000;
    let r2: u64 = r1 % 0x10000000000;
    let q3: u64 = r2 / 0x100000000;
    let r3: u64 = r2 % 0x100000000;
    let q4: u64 = r3 / 0x1000000;
    let r4: u64 = r3 % 0x1000000;
    let q5: u64 = r4 / 0x10000;
    let r5: u64 = r4 % 0x10000;
    let q6: u64 = r5 / 0x100;
    let r6: u64 = r5 % 0x100;
    let mut v: Vec<u8> = Vec::new();
    v.push(q0 as u8);
    v.push(q1 as u8);
    v.push(q2 as u8);
    v.push(q3 as u8);
    v.push(q4 as u8);
    v.push(q5 as u8);
    v.push(q6 as u8);
    v.push(r6 as u8);
    proof {
        lemma_be_val8(v@);
    }
    v
}

/// Reads a timestamp back from its eight big-endian bytes.
pub fn be_decode(bytes: &Vec<u8>) -> (r: u64)
    requires
        bytes@.len() == 8,
    ensures
        r == be_val(bytes@),
{
    proof {
        lemma_be_val8(bytes@);
    }
    (bytes[0] as u64) * 0x100000000000000 + (bytes[1] as u64) * 0x1000000000000 + (bytes[2] as u64)
        * 0x10000000000 + (bytes[3] as u64) * 0x100000000 + (bytes[4] as u64) * 0x1000000 + (
    bytes[5] as u64) * 0x10000 + (bytes[6] as u64) * 0x100 + (bytes[7] as u64)
}

} // verus!
