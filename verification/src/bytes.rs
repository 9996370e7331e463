//! Little-endian integers in byte strings.

use vstd::prelude::*;

verus! {

pub open spec fn le16_at(b: Seq<u8>, i: int) -> int {
    b[i] + 0x100 * b[i + 1]
}

pub open spec fn le32_at(b: Seq<u8>, i: int) -> int {
    le16_at(b, i) + 0x1_0000 * le16_at(b, i + 2)
}

pub open spec fn le64_at(b: Seq<u8>, i: int) -> int {
    le32_at(b, i) + 0x1_0000_0000 * le32_at(b, i + 4)
}

/// Byte `k` of the little-endian form of `x`.
pub open spec fn le_byte(x: int, k: int) -> u8 {
    (if k == 0 {
        x % 256
    } else if k == 1 {
        x / 0x100 % 256
    } else if k == 2 {
        x / 0x1_0000 % 256
    } else if k == 3 {
        x / 0x100_0000 % 256
    } else if k == 4 {
        x / 0x1_0000_0000 % 256
    } else if k == 5 {
        x / 0x100_0000_0000 % 256
    } else if k == 6 {
        x / 0x1_0000_0000_0000 % 256
    } else {
        x / 0x100_0000_0000_0000 % 256
    }) as u8
}

/// The little-endian form of `x` in `n` bytes.
pub open spec fn le_bytes(x: int, n: nat) -> Seq<u8> {
    Seq::new(n, |k: int| le_byte(x, k))
}

/// The 16-bit integer at `at`.
pub fn le16(b: &[u8], at: usize) -> (r: u16)
    requires
        at + 2 <= b@.len(),
    ensures
        r == le16_at(b@, at as int),
{
    b[at] as u16 + 0x100 * (b[at + 1] as u16)
}

/// The 32-bit integer at `at`.
pub fn le32(b: &[u8], at: usize) -> (r: u32)
    requires
        at + 4 <= b@.len(),
    ensures
        r == le32_at(b@, at as int),
{
    let n: usize = b.len();
    assert(at + 4 <= n);
    le16(b, at) as u32 + 0x1_0000 * (le16(b, at + 2) as u32)
}

/// The 64-bit integer at `at`.
pub fn le64(b: &[u8], at: usize) -> (r: u64)
    requires
        at + 8 <= b@.len(),
    ensures
        r == le64_at(b@, at as int),
{
    let n: usize = b.len();
    assert(at + 8 <= n);
    le32(b, at) as u64 + 0x1_0000_0000 * (le32(b, at + 4) as u64)
}

/// Byte `k` of `x`.
pub fn byte_of(x: u64, k: usize) -> (r: u8)
    requires
        k < 8,
    ensures
        r == le_byte(x as int, k as int),
{
    let q: u64 = if k == 0 {
        x
    } else if k == 1 {
        x / 0x100
    } else if k == 2 {
        x / 0x1_0000
    } else if k == 3 {
        x / 0x100_0000
    } else if k == 4 {
        x / 0x1_0000_0000
    } else if k == 5 {
        x / 0x100_0000_0000
    } else if k == 6 {
        x / 0x1_0000_0000_0000
    } else {
        x / 0x100_0000_0000_0000
    };
    (q % 256) as u8
}

/// `b` with the 64-bit integer `x` written at `at`.
pub open spec fn put_le64(b: Seq<u8>, at: int, x: int) -> Seq<u8> {
    Seq::new(b.len(), |k: int| if at <= k < at + 8 {
        le_byte(x, k - at)
    } else {
        b[k]
    })
}

/// Write a 64-bit integer at `at`.
pub fn write_le64(b: &mut Vec<u8>, at: usize, x: u64)
    requires
        at + 8 <= old(b)@.len(),
    ensures
        final(b)@ == put_le64(old(b)@, at as int, x as int),
{
    let n: usize = b.len();
    let mut k: usize = 0;
    while k < 8
        invariant
            k <= 8,
            n == b@.len(),
            at + 8 <= n,
            b@.len() == old(b)@.len(),
            forall|j: int| 0 <= j < b@.len() ==> #[trigger] b@[j] == (if at <= j < at + k {
                le_byte(x as int, j - at)
            } else {
                old(b)@[j]
            }),
        decreases 8 - k,
    {
        b[at + k] = byte_of(x, k);
        k = k + 1;
    }
}

/// Reading back what was written.
pub proof fn law_le64_round_trip(b: Seq<u8>, at: int, x: u64)
    requires
        0 <= at,
        at + 8 <= b.len(),
    ensures
        le64_at(put_le64(b, at, x as int), at) == x,
{
    let c = put_le64(b, at, x as int);
    let n = x as int;
    assert(c[at] == le_byte(n, 0) && c[at + 1] == le_byte(n, 1) && c[at + 2] == le_byte(n, 2)
        && c[at + 3] == le_byte(n, 3) && c[at + 4] == le_byte(n, 4) && c[at + 5] == le_byte(n, 5)
        && c[at + 6] == le_byte(n, 6) && c[at + 7] == le_byte(n, 7));
    lemma_le64_digits(n);
}

proof fn lemma_le64_digits(n: int)
    requires
        0 <= n <= u64::MAX,
    ensures
        n == n % 256 + 0x100 * (n / 0x100 % 256) + 0x1_0000 * (n / 0x1_0000 % 256) + 0x100_0000 * (n
            / 0x100_0000 % 256) + 0x1_0000_0000 * (n / 0x1_0000_0000 % 256) + 0x100_0000_0000 * (n
            / 0x100_0000_0000 % 256) + 0x1_0000_0000_0000 * (n / 0x1_0000_0000_0000 % 256)
            + 0x100_0000_0000_0000 * (n / 0x100_0000_0000_0000 % 256),
{
    let a = n / 0x100;
    let b = n / 0x1_0000;
    let c = n / 0x100_0000;
    let d = n / 0x1_0000_0000;
    let e = n / 0x100_0000_0000;
    let f = n / 0x1_0000_0000_0000;
    let g = n / 0x100_0000_0000_0000;
    assert(b == a / 256);
    assert(c == b / 256);
    assert(d == c / 256);
    assert(e == d / 256);
    assert(f == e / 256);
    assert(g == f / 256);
    assert(g < 256);
}

/// `b` with the low `n` bytes of `x` written at `at`.
pub open spec fn put_le(b: Seq<u8>, at: int, n: int, x: int) -> Seq<u8> {
    Seq::new(b.len(), |k: int| if at <= k < at + n {
        le_byte(x, k - at)
    } else {
        b[k]
    })
}

/// Write the low `n` bytes of `x` at `at`.
pub fn write_le(b: &mut Vec<u8>, at: usize, n: usize, x: u64)
    requires
        n <= 8,
        at + n <= old(b)@.len(),
    ensures
        final(b)@ == put_le(old(b)@, at as int, n as int, x as int),
{
    let total: usize = b.len();
    let mut k: usize = 0;
    while k < n
        invariant
            k <= n <= 8,
            total == b@.len(),
            at + n <= total,
            b@.len() == old(b)@.len(),
            forall|j: int| 0 <= j < b@.len() ==> #[trigger] b@[j] == (if at <= j < at + k {
                le_byte(x as int, j - at)
            } else {
                old(b)@[j]
            }),
        decreases n - k,
    {
        b[at + k] = byte_of(x, k);
        k = k + 1;
    }
    assert(b@ =~= put_le(old(b)@, at as int, n as int, x as int));
}

/// The digits of a sum of digits.
proof fn lemma_digits_back(
    n: int,
    b0: int,
    b1: int,
    b2: int,
    b3: int,
    b4: int,
    b5: int,
    b6: int,
    b7: int,
)
    requires
        0 <= b0 < 256,
        0 <= b1 < 256,
        0 <= b2 < 256,
        0 <= b3 < 256,
        0 <= b4 < 256,
        0 <= b5 < 256,
        0 <= b6 < 256,
        0 <= b7 < 256,
        n == b0 + 0x100 * b1 + 0x1_0000 * b2 + 0x100_0000 * b3 + 0x1_0000_0000 * b4
            + 0x100_0000_0000 * b5 + 0x1_0000_0000_0000 * b6 + 0x100_0000_0000_0000 * b7,
    ensures
        n % 256 == b0,
        n / 0x100 % 256 == b1,
        n / 0x1_0000 % 256 == b2,
        n / 0x100_0000 % 256 == b3,
        n / 0x1_0000_0000 % 256 == b4,
        n / 0x100_0000_0000 % 256 == b5,
        n / 0x1_0000_0000_0000 % 256 == b6,
        n / 0x100_0000_0000_0000 % 256 == b7,
{
    let q7 = b7;
    let q6 = b6 + 256 * q7;
    let q5 = b5 + 256 * q6;
    let q4 = b4 + 256 * q5;
    let q3 = b3 + 256 * q4;
    let q2 = b2 + 256 * q3;
    let q1 = b1 + 256 * q2;
    vstd::arithmetic::div_mod::lemma_fundamental_div_mod_converse(n, 256, q1, b0);
    vstd::arithmetic::div_mod::lemma_fundamental_div_mod_converse(n, 0x100, q1, b0);
    vstd::arithmetic::div_mod::lemma_fundamental_div_mod_converse(q1, 256, q2, b1);
    vstd::arithmetic::div_mod::lemma_fundamental_div_mod_converse(n, 0x1_0000, q2, b0 + 0x100 * b1);
    vstd::arithmetic::div_mod::lemma_fundamental_div_mod_converse(q2, 256, q3, b2);
    vstd::arithmetic::div_mod::lemma_fundamental_div_mod_converse(n, 0x100_0000, q3, b0 + 0x100 * b1 + 0x1_0000 * b2);
    vstd::arithmetic::div_mod::lemma_fundamental_div_mod_converse(q3, 256, q4, b3);
    vstd::arithmetic::div_mod::lemma_fundamental_div_mod_converse(n, 0x1_0000_0000, q4, b0 + 0x100 * b1 + 0x1_0000 * b2 + 0x100_0000 * b3);
    vstd::arithmetic::div_mod::lemma_fundamental_div_mod_converse(q4, 256, q5, b4);
    vstd::arithmetic::div_mod::lemma_fundamental_div_mod_converse(n, 0x100_0000_0000, q5, b0 + 0x100 * b1 + 0x1_0000 * b2 + 0x100_0000 * b3 + 0x1_0000_0000 * b4);
    vstd::arithmetic::div_mod::lemma_fundamental_div_mod_converse(q5, 256, q6, b5);
    vstd::arithmetic::div_mod::lemma_fundamental_div_mod_converse(n, 0x1_0000_0000_0000, q6, b0 + 0x100 * b1 + 0x1_0000 * b2 + 0x100_0000 * b3 + 0x1_0000_0000 * b4 + 0x100_0000_0000 * b5);
    vstd::arithmetic::div_mod::lemma_fundamental_div_mod_converse(q6, 256, q7, b6);
    vstd::arithmetic::div_mod::lemma_fundamental_div_mod_converse(n, 0x100_0000_0000_0000, q7, b0 + 0x100 * b1 + 0x1_0000 * b2 + 0x100_0000 * b3 + 0x1_0000_0000 * b4 + 0x100_0000_0000 * b5 + 0x1_0000_0000_0000 * b6);
}

/// Writing back the integer that stands at `at` changes nothing.
pub proof fn lemma_put_back(b: Seq<u8>, c: Seq<u8>, at: int)
    requires
        0 <= at,
        at + 8 <= b.len(),
        c.len() == b.len(),
        forall|k: int|
            0 <= k < b.len() && !(at <= k < at + 8) ==> #[trigger] c[k] == b[k],
    ensures
        0 <= le64_at(b, at) <= u64::MAX,
        put_le64(c, at, le64_at(b, at)) == b,
{
    let n = le64_at(b, at);
    let b0 = b[at] as int;
    let b1 = b[at + 1] as int;
    let b2 = b[at + 2] as int;
    let b3 = b[at + 3] as int;
    let b4 = b[at + 4] as int;
    let b5 = b[at + 5] as int;
    let b6 = b[at + 6] as int;
    let b7 = b[at + 7] as int;
    assert(n == b0 + 0x100 * b1 + 0x1_0000 * b2 + 0x100_0000 * b3 + 0x1_0000_0000 * b4
        + 0x100_0000_0000 * b5 + 0x1_0000_0000_0000 * b6 + 0x100_0000_0000_0000 * b7);
    lemma_digits_back(n, b0, b1, b2, b3, b4, b5, b6, b7);
    let d = put_le64(c, at, n);
    assert forall|k: int| 0 <= k < b.len() implies d[k] == b[k] by {
        if at <= k < at + 8 {
            assert(k - at == 0 || k - at == 1 || k - at == 2 || k - at == 3 || k - at == 4 || k - at
                == 5 || k - at == 6 || k - at == 7);
        }
    }
    assert(d =~= b);
}

} // verus!
