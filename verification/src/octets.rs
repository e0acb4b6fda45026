//! Little-endian integers in byte sequences.
use vstd::prelude::*;

verus! {

/// `256` to the power `n`: the number of values that `n` bytes can hold.
pub open spec fn pow256(n: nat) -> nat
    decreases n,
{
    if n == 0 {
        1
    } else {
        256 * pow256((n - 1) as nat)
    }
}

/// The low `n` bytes of `value`, least significant byte first.
pub open spec fn le_bytes(value: nat, n: nat) -> Seq<u8>
    decreases n,
{
    if n == 0 {
        Seq::empty()
    } else {
        seq![(value % 256) as u8] + le_bytes(value / 256, (n - 1) as nat)
    }
}

/// The number whose bytes, least significant first, are `bytes`.
pub open spec fn le_value(bytes: Seq<u8>) -> nat
    decreases bytes.len(),
{
    if bytes.len() == 0 {
        0
    } else {
        bytes[0] as nat + 256 * le_value(bytes.drop_first())
    }
}

/// The `n` byte number that starts at `at` in `bytes`.
pub open spec fn le_at(bytes: Seq<u8>, at: int, n: nat) -> nat {
    le_value(bytes.subrange(at, at + n))
}

pub proof fn lemma_le_bytes_len(value: nat, n: nat)
    ensures
        le_bytes(value, n).len() == n,
    decreases n,
{
    if n > 0 {
        lemma_le_bytes_len(value / 256, (n - 1) as nat);
    }
}

/// Encoding a number that fits and reading the bytes back gives the number.
pub proof fn lemma_le_roundtrip(value: nat, n: nat)
    requires
        value < pow256(n),
    ensures
        le_bytes(value, n).len() == n,
        le_value(le_bytes(value, n)) == value,
    decreases n,
{
    if n > 0 {
        lemma_le_roundtrip(value / 256, (n - 1) as nat);
        let tail = le_bytes(value / 256, (n - 1) as nat);
        assert(le_bytes(value, n).drop_first() =~= tail);
    }
}

/// Reading bytes and encoding the number in as many bytes gives the bytes back.
pub proof fn lemma_le_value_roundtrip(bytes: Seq<u8>)
    ensures
        le_bytes(le_value(bytes), bytes.len()) == bytes,
        le_value(bytes) < pow256(bytes.len()),
    decreases bytes.len(),
{
    if bytes.len() > 0 {
        let tail = bytes.drop_first();
        lemma_le_value_roundtrip(tail);
        let value = le_value(bytes);
        assert(value % 256 == bytes[0] as nat);
        assert(value / 256 == le_value(tail));
        assert(le_bytes(value, bytes.len()) =~= bytes);
    } else {
        assert(le_bytes(0, 0) =~= bytes);
    }
}

/// The values of the byte counts in use.
pub proof fn lemma_pow256_values()
    ensures
        pow256(1) == 0x100,
        pow256(2) == 0x1_0000,
        pow256(4) == 0x1_0000_0000,
        pow256(6) == 0x1_0000_0000_0000,
        pow256(8) == 0x1_0000_0000_0000_0000,
{
    reveal_with_fuel(pow256, 9);
}

proof fn lemma_pow256_monotonic(a: nat, b: nat)
    requires
        a <= b,
    ensures
        0 < pow256(a) <= pow256(b),
    decreases b,
{
    if a < b {
        lemma_pow256_monotonic(a, (b - 1) as nat);
    } else if b > 0 {
        lemma_pow256_monotonic((b - 1) as nat, (b - 1) as nat);
    }
}

/// Appends the low `n` bytes of `value`, least significant first.
pub fn put_le(out: &mut Vec<u8>, value: u64, n: usize)
    ensures
        final(out)@ == old(out)@ + le_bytes(value as nat, n as nat),
{
    let mut rest: u64 = value;
    let mut left: usize = n;
    proof {
        assert(old(out)@ + le_bytes(value as nat, n as nat) =~= out@ + le_bytes(
            rest as nat,
            left as nat,
        ));
    }
    while left > 0
        invariant
            out@ + le_bytes(rest as nat, left as nat) == old(out)@ + le_bytes(
                value as nat,
                n as nat,
            ),
        decreases left,
    {
        let ghost before = out@;
        out.push((rest % 256) as u8);
        proof {
            assert(before + le_bytes(rest as nat, left as nat) =~= out@ + le_bytes(
                (rest / 256) as nat,
                (left - 1) as nat,
            ));
        }
        rest = rest / 256;
        left = left - 1;
    }
    assert(out@ + le_bytes(rest as nat, 0) =~= out@);
}

/// Reads the `n` byte number at `at`.
pub fn get_le(bytes: &[u8], at: usize, n: usize) -> (value: u64)
    requires
        n <= 8,
        at + n <= bytes@.len(),
    ensures
        value as nat == le_at(bytes@, at as int, n as nat),
        (value as nat) < pow256(n as nat),
{
    let total: usize = bytes.len();
    let mut value: u64 = 0;
    let mut done: usize = 0;
    let ghost field = bytes@.subrange(at as int, at + n);
    assert(field.subrange(n as int, n as int) =~= Seq::empty());
    while done < n
        invariant
            done <= n <= 8,
            total == bytes@.len(),
            at + n <= total,
            field == bytes@.subrange(at as int, at + n),
            value as nat == le_value(field.subrange(n - done, n as int)),
            (value as nat) < pow256(done as nat),
        decreases n - done,
    {
        let ghost shorter = field.subrange(n - done, n as int);
        let ghost longer = field.subrange(n - done - 1, n as int);
        proof {
            assert(longer.drop_first() =~= shorter);
            lemma_le_value_roundtrip(longer);
            lemma_pow256_monotonic((done + 1) as nat, 8);
            lemma_pow256_values();
        }
        let byte: u8 = bytes[at + (n - done - 1)];
        assert(byte == longer[0]);
        assert(value as nat * 256 + byte as nat == le_value(longer));
        value = value * 256 + byte as u64;
        done = done + 1;
    }
    assert(field.subrange(0, n as int) =~= field);
    value
}

/// The bytes from `from` up to `to`, as a vector of their own.
pub fn copy_range(bytes: &[u8], from: usize, to: usize) -> (out: Vec<u8>)
    requires
        from <= to <= bytes@.len(),
    ensures
        out@ == bytes@.subrange(from as int, to as int),
{
    let mut out: Vec<u8> = Vec::with_capacity(to - from);
    let mut i: usize = from;
    while i < to
        invariant
            from <= i <= to <= bytes@.len(),
            out@ == bytes@.subrange(from as int, i as int),
        decreases to - i,
    {
        out.push(bytes[i]);
        i = i + 1;
        assert(out@ =~= bytes@.subrange(from as int, i as int));
    }
    out
}

/// Appends `count` copies of `byte`.
pub fn put_repeated(out: &mut Vec<u8>, byte: u8, count: usize)
    ensures
        final(out)@ == old(out)@ + Seq::new(count as nat, |i: int| byte),
{
    let mut done: usize = 0;
    assert(out@ =~= old(out)@ + Seq::new(0, |i: int| byte));
    while done < count
        invariant
            done <= count,
            out@ == old(out)@ + Seq::new(done as nat, |i: int| byte),
        decreases count - done,
    {
        out.push(byte);
        done = done + 1;
        assert(out@ =~= old(out)@ + Seq::new(done as nat, |i: int| byte));
    }
}

/// The bytes of an array, as a vector.
pub fn array16_to_vec(bytes: &[u8; 16]) -> (out: Vec<u8>)
    ensures
        out@ == bytes@,
{
    let mut out: Vec<u8> = Vec::new();
    let mut i: usize = 0;
    while i < 16
        invariant
            i <= 16,
            out@ == bytes@.take(i as int),
        decreases 16 - i,
    {
        out.push(bytes[i]);
        i = i + 1;
        assert(out@ =~= bytes@.take(i as int));
    }
    assert(out@ =~= bytes@);
    out
}

/// The 16 bytes at `at`, as an array.
pub fn array16_at(bytes: &[u8], at: usize) -> (out: [u8; 16])
    requires
        at + 16 <= bytes@.len(),
    ensures
        out@ == bytes@.subrange(at as int, at + 16),
{
    let total: usize = bytes.len();
    let mut out: [u8; 16] = [0u8; 16];
    let mut i: usize = 0;
    while i < 16
        invariant
            i <= 16,
            total == bytes@.len(),
            at + 16 <= total,
            forall|j: int| 0 <= j < i ==> out@[j] == bytes@[at + j],
        decreases 16 - i,
    {
        out[i] = bytes[at + i];
        i = i + 1;
    }
    assert(out@ =~= bytes@.subrange(at as int, at + 16));
    out
}

/// The first half of 32 bytes.
pub fn first16(bytes: &[u8; 32]) -> (out: [u8; 16])
    ensures
        out@ == bytes@.take(16),
{
    let mut out: [u8; 16] = [0u8; 16];
    let mut i: usize = 0;
    while i < 16
        invariant
            i <= 16,
            forall|j: int| 0 <= j < i ==> out@[j] == bytes@[j],
        decreases 16 - i,
    {
        out[i] = bytes[i];
        i = i + 1;
    }
    assert(out@ =~= bytes@.take(16));
    out
}

/// The byte at `i` counts for 256 to the power `i`: what is below it and what is above it is
/// written in the bytes before and behind.
pub proof fn law_bytes_of_a_number(value: nat, n: nat, i: int)
    requires
        0 <= i < n,
    ensures
        le_bytes(value, n).len() == n,
        le_bytes(value, n)[i] == (value / pow256(i as nat)) % 256,
    decreases n,
{
    lemma_le_bytes_len(value, n);
    if i > 0 {
        law_bytes_of_a_number(value / 256, (n - 1) as nat, i - 1);
        let low = pow256((i - 1) as nat);
        lemma_pow256_positive((i - 1) as nat);
        vstd::arithmetic::div_mod::lemma_div_denominator(value as int, 256, low as int);
        assert(pow256(i as nat) == 256 * low);
        assert(value as int / (256 * low) as int == (value / 256) as int / low as int);
        assert(le_bytes(value, n)[i] == le_bytes(value / 256, (n - 1) as nat)[i - 1]);
    } else {
        assert(pow256(0) == 1);
        assert(value / 1 == value);
        assert(value % 256 == (value / pow256(0)) % 256);
    }
}

proof fn lemma_pow256_positive(n: nat)
    ensures
        pow256(n) > 0,
    decreases n,
{
    if n > 0 {
        lemma_pow256_positive((n - 1) as nat);
    }
}

} // verus!
