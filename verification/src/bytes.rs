//! Small byte-level helpers shared by the pipeline stages: byte-vector
//! comparison and copying, decimal rendering, and big-endian 32-bit fields.

use vstd::prelude::*;

verus! {

/// The canonical decimal digit string of `n`, most significant digit first,
/// with no leading zeros (`0` itself is the single digit `0`).
pub open spec fn spec_dec_digits(n: nat) -> Seq<u8>
    decreases n,
{
    if n < 10 {
        seq![(48 + n) as u8]
    } else {
        spec_dec_digits(n / 10) + seq![(48 + n % 10) as u8]
    }
}

/// Appending one more low-order digit extends the digit string by one.
pub proof fn lemma_dec_digits_step(v: nat, d: nat)
    requires
        v >= 1,
        d < 10,
    ensures
        spec_dec_digits(v * 10 + d) == spec_dec_digits(v) + seq![(48 + d) as u8],
{
    let n = v * 10 + d;
    assert(n >= 10) by (nonlinear_arith)
        requires
            v >= 1,
            d < 10,
            n == v * 10 + d,
    ;
    assert(n / 10 == v && n % 10 == d) by (nonlinear_arith)
        requires
            v >= 1,
            d < 10,
            n == v * 10 + d,
    ;
}

pub proof fn lemma_dec_digits_len(n: nat)
    ensures
        spec_dec_digits(n).len() >= 1,
    decreases n,
{
    if n >= 10 {
        lemma_dec_digits_len(n / 10);
    }
}

/// Every byte of a canonical digit string is an ASCII digit.
pub proof fn lemma_dec_digits_are_digits(n: nat)
    ensures
        forall|i: int| 0 <= i < spec_dec_digits(n).len() ==> 48 <= #[trigger] spec_dec_digits(n)[i]
            <= 57,
    decreases n,
{
    if n < 10 {
        assert(spec_dec_digits(n) == seq![(48 + n) as u8]);
        assert(spec_dec_digits(n)[0] == (48 + n) as u8);
    } else {
        lemma_dec_digits_are_digits(n / 10);
        let prev = spec_dec_digits(n / 10);
        assert(spec_dec_digits(n) == prev + seq![(48 + n % 10) as u8]);
        assert forall|i: int| 0 <= i < spec_dec_digits(n).len() implies 48
            <= #[trigger] spec_dec_digits(n)[i] <= 57 by {
            if i < prev.len() {
                assert(spec_dec_digits(n)[i] == prev[i]);
            } else {
                assert(spec_dec_digits(n)[i] == (48 + n % 10) as u8);
            }
        }
    }
}

/// A nonzero value never starts with the digit zero.
pub proof fn lemma_dec_digits_leading(n: nat)
    requires
        n >= 1,
    ensures
        spec_dec_digits(n).len() >= 1,
        spec_dec_digits(n)[0] != 48,
    decreases n,
{
    if n >= 10 {
        lemma_dec_digits_leading(n / 10);
        lemma_dec_digits_len(n / 10);
    }
}

/// Two values with the same canonical digit string are equal.
pub proof fn lemma_dec_digits_unique(a: nat, b: nat)
    requires
        spec_dec_digits(a) == spec_dec_digits(b),
    ensures
        a == b,
    decreases a,
{
    lemma_dec_digits_len(a);
    lemma_dec_digits_len(b);
    if a < 10 && b < 10 {
        assert(spec_dec_digits(a) == seq![(48 + a) as u8]);
        assert(spec_dec_digits(b) == seq![(48 + b) as u8]);
        assert(spec_dec_digits(a)[0] == (48 + a) as u8);
        assert(spec_dec_digits(b)[0] == (48 + b) as u8);
        assert(((48 + a) as u8) as nat == 48 + a);
        assert(((48 + b) as u8) as nat == 48 + b);
    } else if a < 10 {
        lemma_dec_digits_len(b / 10);
        assert(spec_dec_digits(b).len() >= 2);
    } else if b < 10 {
        lemma_dec_digits_len(a / 10);
        assert(spec_dec_digits(a).len() >= 2);
    } else {
        assert(spec_dec_digits(a) == spec_dec_digits(a / 10) + seq![(48 + a % 10) as u8]);
        assert(spec_dec_digits(b) == spec_dec_digits(b / 10) + seq![(48 + b % 10) as u8]);
        assert(spec_dec_digits(a).last() == (48 + a % 10) as u8);
        assert(spec_dec_digits(b).last() == (48 + b % 10) as u8);
        assert(a % 10 == b % 10);
        assert(spec_dec_digits(a).drop_last() =~= spec_dec_digits(a / 10));
        assert(spec_dec_digits(b).drop_last() =~= spec_dec_digits(b / 10));
        lemma_dec_digits_unique(a / 10, b / 10);
        assert(a == (a / 10) * 10 + a % 10);
        assert(b == (b / 10) * 10 + b % 10);
    }
}

/// A value whose digit string has a proper prefix equal to the digit
/// string of `v` is at least ten times `v`.
pub proof fn lemma_dec_digits_prefix_bound(m: nat, v: nat, k: int)
    requires
        1 <= k < spec_dec_digits(m).len(),
        spec_dec_digits(m).take(k) == spec_dec_digits(v),
    ensures
        m >= v * 10,
    decreases m,
{
    if m < 10 {
        assert(spec_dec_digits(m).len() == 1);
    } else {
        lemma_dec_digits_len(m / 10);
        let prev = spec_dec_digits(m / 10);
        assert(spec_dec_digits(m) == prev + seq![(48 + m % 10) as u8]);
        if k == prev.len() {
            assert(spec_dec_digits(m).take(k) =~= prev);
            lemma_dec_digits_unique(m / 10, v);
            assert(m >= (m / 10) * 10);
        } else {
            assert(spec_dec_digits(m).take(k) =~= prev.take(k));
            lemma_dec_digits_prefix_bound(m / 10, v, k);
            assert(m >= m / 10);
        }
    }
}

/// Extending a digit-string prefix of `v` by the digit `d` bounds the
/// whole value below by `v * 10 + d`.
pub proof fn lemma_dec_digits_extend_bound(m: nat, v: nat, d: nat, k: int)
    requires
        v >= 1,
        d < 10,
        0 <= k,
        k + 1 <= spec_dec_digits(m).len(),
        spec_dec_digits(m).take(k) == spec_dec_digits(v),
        spec_dec_digits(m)[k] == 48 + d,
    ensures
        m >= v * 10 + d,
{
    lemma_dec_digits_step(v, d);
    assert(spec_dec_digits(m).take(k + 1) =~= spec_dec_digits(v) + seq![(48 + d) as u8]);
    if k + 1 == spec_dec_digits(m).len() {
        assert(spec_dec_digits(m).take(k + 1) =~= spec_dec_digits(m));
        lemma_dec_digits_unique(m, v * 10 + d);
    } else {
        lemma_dec_digits_prefix_bound(m, v * 10 + d, k + 1);
        assert((v * 10 + d) * 10 >= v * 10 + d) by (nonlinear_arith)
            requires
                v >= 1,
                d >= 0,
        ;
    }
}

/// Renders `n` in decimal, matching `spec_dec_digits`.
pub fn dec_digits(n: u64) -> (r: Vec<u8>)
    ensures
        r@ == spec_dec_digits(n as nat),
{
    if n == 0 {
        let mut out: Vec<u8> = Vec::new();
        out.push(48);
        assert(out@ =~= spec_dec_digits(0));
        return out;
    }
    let mut out: Vec<u8> = Vec::new();
    let mut cur: u64 = n;
    while cur > 0
        invariant
            cur > 0 ==> spec_dec_digits(n as nat) =~= spec_dec_digits(cur as nat) + out@,
            cur == 0 ==> spec_dec_digits(n as nat) =~= out@,
        decreases cur,
    {
        let d: u8 = (cur % 10) as u8;
        out.insert(0, 48 + d);
        proof {
            if cur >= 10 {
                assert(spec_dec_digits(cur as nat) == spec_dec_digits(
                    (cur as nat) / 10,
                ) + seq![(48 + (cur as nat) % 10) as u8]);
            }
        }
        cur = cur / 10;
    }
    out
}

/// True exactly when the two byte vectors hold the same bytes.
pub fn bytes_eq(a: &Vec<u8>, b: &Vec<u8>) -> (r: bool)
    ensures
        r == (a@ == b@),
{
    if a.len() != b.len() {
        assert(a@ != b@);
        return false;
    }
    let n = a.len();
    let mut i: usize = 0;
    while i < n
        invariant
            n == a@.len() == b@.len(),
            i <= n,
            forall|j: int| 0 <= j < i ==> a@[j] == b@[j],
        decreases n - i,
    {
        if a[i] != b[i] {
            assert(a@ != b@);
            return false;
        }
        i += 1;
    }
    assert(a@ =~= b@);
    true
}

/// A fresh copy of a byte vector.
pub fn copy_bytes(a: &Vec<u8>) -> (r: Vec<u8>)
    ensures
        r@ == a@,
{
    let mut out: Vec<u8> = Vec::new();
    let n = a.len();
    let mut i: usize = 0;
    while i < n
        invariant
            n == a@.len(),
            i <= n,
            out@ =~= a@.subrange(0, i as int),
        decreases n - i,
    {
        out.push(a[i]);
        i += 1;
    }
    assert(out@ =~= a@);
    out
}

/// A copy of `a[from..to]`.
pub fn copy_range(a: &Vec<u8>, from: usize, to: usize) -> (r: Vec<u8>)
    requires
        from <= to <= a@.len(),
    ensures
        r@ == a@.subrange(from as int, to as int),
{
    let mut out: Vec<u8> = Vec::new();
    let mut i: usize = from;
    while i < to
        invariant
            from <= i <= to <= a@.len(),
            out@ =~= a@.subrange(from as int, i as int),
        decreases to - i,
    {
        out.push(a[i]);
        i += 1;
    }
    out
}

/// The value of a big-endian 32-bit field, as a mathematical integer.
pub open spec fn spec_u32_be(a: u8, b: u8, c: u8, d: u8) -> int {
    a * 0x1000000 + b * 0x10000 + c * 0x100 + d
}

/// The four big-endian bytes of `n`, most significant first.
pub open spec fn spec_be_bytes(n: u32) -> Seq<u8> {
    seq![
        (n / 0x1000000) as u8,
        ((n / 0x10000) % 0x100) as u8,
        ((n / 0x100) % 0x100) as u8,
        (n % 0x100) as u8,
    ]
}

/// Reads a big-endian 32-bit value from four bytes.
pub fn u32_from_be(a: u8, b: u8, c: u8, d: u8) -> (r: u32)
    ensures
        r == spec_u32_be(a, b, c, d),
{
    (a as u32) * 0x1000000 + (b as u32) * 0x10000 + (c as u32) * 0x100 + (d as u32)
}

/// Writes `n` as four big-endian bytes.
pub fn u32_to_be(n: u32) -> (r: Vec<u8>)
    ensures
        r@ == spec_be_bytes(n),
        r@.len() == 4,
{
    let mut out: Vec<u8> = Vec::new();
    out.push((n / 0x1000000) as u8);
    out.push(((n / 0x10000) % 0x100) as u8);
    out.push(((n / 0x100) % 0x100) as u8);
    out.push((n % 0x100) as u8);
    assert(out@ =~= spec_be_bytes(n));
    out
}

} // verus!
