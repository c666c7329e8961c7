//! Integers as bytes: the fixed-width fields of the wire format.
//!
//! A number is written in base 256, with as many digits as its type has
//! bytes, in one of two orders. Each field comes with the bytes of a value,
//! a reader that splits a value off the front of a byte sequence, and the
//! two executable functions that compute them.
use vstd::prelude::*;
use vstd::slice::slice_subrange;

verus! {

/// 256 to the power of `n`.
pub open spec fn pow256(n: nat) -> nat
    decreases n,
{
    if n == 0 {
        1
    } else {
        256 * pow256((n - 1) as nat)
    }
}

/// The `n` lowest digits of `x` in base 256, the least significant first.
#[verifier::opaque]
pub open spec fn le_bytes(x: nat, n: nat) -> Seq<u8>
    decreases n,
{
    if n == 0 {
        Seq::empty()
    } else {
        seq![(x % 256) as u8] + le_bytes(x / 256, (n - 1) as nat)
    }
}

/// The number whose digits in base 256 are `s`, the least significant
/// first.
#[verifier::opaque]
pub open spec fn le_value(s: Seq<u8>) -> nat
    decreases s.len(),
{
    if s.len() == 0 {
        0
    } else {
        s[0] as nat + 256 * le_value(s.skip(1))
    }
}

/// The `n` lowest digits of `x` in base 256, the most significant first.
pub open spec fn be_bytes(x: nat, n: nat) -> Seq<u8> {
    le_bytes(x, n).reverse()
}

/// The number whose digits in base 256 are `s`, the most significant first.
pub open spec fn be_value(s: Seq<u8>) -> nat {
    le_value(s.reverse())
}

/// The powers of 256 that bound the integer types.
pub proof fn lemma_pow256()
    ensures
        pow256(0) == 1,
        pow256(1) == 0x100,
        pow256(2) == 0x1_0000,
        pow256(4) == 0x1_0000_0000,
        pow256(8) == 0x1_0000_0000_0000_0000,
        pow256(15) == 0x100_0000_0000_0000_0000_0000_0000_0000,
        pow256(16) == 0x1_0000_0000_0000_0000_0000_0000_0000_0000,
{
    assert(pow256(1) == 256 * pow256(0));
    assert(pow256(2) == 256 * pow256(1));
    assert(pow256(3) == 256 * pow256(2));
    assert(pow256(4) == 256 * pow256(3));
    assert(pow256(5) == 256 * pow256(4));
    assert(pow256(6) == 256 * pow256(5));
    assert(pow256(7) == 256 * pow256(6));
    assert(pow256(8) == 256 * pow256(7));
    assert(pow256(9) == 256 * pow256(8));
    assert(pow256(10) == 256 * pow256(9));
    assert(pow256(11) == 256 * pow256(10));
    assert(pow256(12) == 256 * pow256(11));
    assert(pow256(13) == 256 * pow256(12));
    assert(pow256(14) == 256 * pow256(13));
    assert(pow256(15) == 256 * pow256(14));
    assert(pow256(16) == 256 * pow256(15));
}

/// A power of 256 grows with its exponent.
pub proof fn lemma_pow256_grows(m: nat, n: nat)
    requires
        m <= n,
    ensures
        0 < pow256(m) <= pow256(n),
    decreases n,
{
    if n > 0 {
        if m < n {
            lemma_pow256_grows(m, (n - 1) as nat);
        } else {
            lemma_pow256_grows((m - 1) as nat, (n - 1) as nat);
        }
    }
}

/// `n` digits are `n` bytes.
pub proof fn lemma_le_bytes_len(x: nat, n: nat)
    ensures
        le_bytes(x, n).len() == n,
    decreases n,
{
    reveal(le_bytes);
    if n > 0 {
        lemma_le_bytes_len(x / 256, (n - 1) as nat);
    }
}

/// The number that `s` holds has no more digits than `s` has bytes.
pub proof fn lemma_le_value_bound(s: Seq<u8>)
    ensures
        le_value(s) < pow256(s.len()),
    decreases s.len(),
{
    reveal(le_value);
    if s.len() > 0 {
        lemma_le_value_bound(s.skip(1));
    }
}

/// A number that has no more than `n` digits is the number that its `n`
/// digits hold.
pub proof fn lemma_le_value_of_bytes(x: nat, n: nat)
    requires
        x < pow256(n),
    ensures
        le_value(le_bytes(x, n)) == x,
    decreases n,
{
    reveal(le_bytes);
    reveal(le_value);
    if n > 0 {
        let s = le_bytes(x, n);
        lemma_le_bytes_len(x / 256, (n - 1) as nat);
        assert(s.skip(1) =~= le_bytes(x / 256, (n - 1) as nat));
        assert(s[0] == (x % 256) as u8);
        lemma_le_value_of_bytes(x / 256, (n - 1) as nat);
    }
}

/// Bytes are the digits of the number that they hold.
pub proof fn lemma_le_bytes_of_value(s: Seq<u8>)
    ensures
        le_bytes(le_value(s), s.len()) == s,
    decreases s.len(),
{
    reveal(le_bytes);
    reveal(le_value);
    if s.len() > 0 {
        let x = le_value(s);
        let rest = le_value(s.skip(1));
        assert(x == s[0] as nat + 256 * rest);
        assert(x % 256 == s[0] as nat && x / 256 == rest);
        lemma_le_bytes_of_value(s.skip(1));
        assert(le_bytes(x, s.len()) =~= s);
    } else {
        assert(le_bytes(le_value(s), 0) =~= s);
    }
}

/// Reversing a sequence twice gives the sequence back.
pub proof fn lemma_reverse_twice(s: Seq<u8>)
    ensures
        s.reverse().reverse() == s,
        s.reverse().len() == s.len(),
{
    assert(s.reverse().reverse() =~= s);
}

/// The bytes of `v`, last first.
fn reversed(v: &[u8]) -> (r: Vec<u8>)
    ensures
        r@ == v@.reverse(),
{
    let n: usize = v.len();
    let mut r: Vec<u8> = Vec::new();
    let mut i: usize = 0;
    while i < n
        invariant
            n == v@.len(),
            i <= n,
            r@.len() == i,
            forall|j: int| 0 <= j < i ==> r@[j] == v@[n - 1 - j],
        decreases n - i,
    {
        r.push(v[n - 1 - i]);
        i += 1;
    }
    assert(r@ =~= v@.reverse());
    r
}

/// Appends `more` to `out`.
fn append(out: &mut Vec<u8>, more: &Vec<u8>)
    ensures
        final(out)@ == old(out)@ + more@,
{
    let n: usize = more.len();
    let mut i: usize = 0;
    while i < n
        invariant
            n == more@.len(),
            i <= n,
            out@ == old(out)@ + more@.subrange(0, i as int),
        decreases n - i,
    {
        out.push(more[i]);
        i += 1;
        assert(out@ =~= old(out)@ + more@.subrange(0, i as int));
    }
    assert(more@.subrange(0, n as int) =~= more@);
}

/// The `n` lowest digits of `x`, the least significant first.
fn digits(x: u128, n: usize) -> (out: Vec<u8>)
    ensures
        out@ == le_bytes(x as nat, n as nat),
{
    let mut out: Vec<u8> = Vec::new();
    let mut left: u128 = x;
    let mut i: usize = 0;
    proof {
        reveal(le_bytes);
    }
    assert(out@ + le_bytes(left as nat, n as nat) =~= le_bytes(x as nat, n as nat));
    while i < n
        invariant
            i <= n,
            out@ + le_bytes(left as nat, (n - i) as nat) == le_bytes(x as nat, n as nat),
        decreases n - i,
    {
        let ghost before = out@;
        let ghost tail = le_bytes((left / 256) as nat, (n - i - 1) as nat);
        let digit: u8 = (left % 256) as u8;
        proof {
            reveal(le_bytes);
        }
        assert(le_bytes(left as nat, (n - i) as nat) == seq![digit] + tail);
        out.push(digit);
        left = left / 256;
        i += 1;
        assert(out@ + tail =~= before + (seq![digit] + tail));
    }
    proof {
        reveal(le_bytes);
    }
    assert(out@ + le_bytes(left as nat, 0) =~= out@);
    out
}

/// The number whose digits are `field`, the least significant first.
fn number(field: &[u8]) -> (x: u128)
    requires
        field@.len() <= 16,
    ensures
        x == le_value(field@),
        x < pow256(field@.len()),
{
    let n: usize = field.len();
    let mut x: u128 = 0;
    let mut j: usize = n;
    proof {
        reveal(le_value);
    }
    assert(field@.skip(n as int) =~= Seq::<u8>::empty());
    while j > 0
        invariant
            n == field@.len(),
            n <= 16,
            j <= n,
            x == le_value(field@.skip(j as int)),
        decreases j,
    {
        proof {
            reveal(le_value);
            let s = field@.skip(j - 1);
            assert(s.skip(1) =~= field@.skip(j as int));
            assert(s[0] == field@[j - 1]);
            lemma_le_value_bound(field@.skip(j as int));
            lemma_pow256_grows((n - j) as nat, 15);
            lemma_pow256();
        }
        j -= 1;
        x = field[j] as u128 + 256 * x;
    }
    proof {
        assert(field@.skip(0) =~= field@);
        lemma_le_value_bound(field@);
    }
    x
}

/// The 2 bytes of `x`, the least significant byte first.
pub open spec fn u16_le(x: u16) -> Seq<u8> {
    le_bytes(x as nat, 2)
}

/// Splits a `u16` off the front of `s`: the value that the first 2
/// bytes hold, the least significant byte first, and what follows them; or nothing where
/// `s` has fewer than 2 bytes.
pub open spec fn read_u16_le(s: Seq<u8>) -> Option<(u16, Seq<u8>)> {
    if s.len() < 2 {
        None
    } else {
        Some((le_value(s.subrange(0, 2)) as u16, s.skip(2)))
    }
}

/// Reading what was written gives the value back, and what followed it.
pub proof fn lemma_read_u16_le(x: u16, tail: Seq<u8>)
    ensures
        u16_le(x).len() == 2,
        read_u16_le(u16_le(x) + tail) == Some((x, tail)),
{
    lemma_pow256();
    lemma_le_value_of_bytes(x as nat, 2);
    lemma_le_bytes_len(x as nat, 2);
    let s = u16_le(x) + tail;
    assert(s.subrange(0, 2) =~= u16_le(x));
    assert(s.skip(2) =~= tail);
}

/// What was read is what stands written at the front.
pub proof fn lemma_written_u16_le(s: Seq<u8>)
    ensures
        read_u16_le(s) matches Some((x, rest)) ==> s == u16_le(x) + rest,
{
    if s.len() >= 2 {
        let head = s.subrange(0, 2);
        lemma_pow256();
        lemma_le_value_bound(head);
        lemma_le_bytes_of_value(head);
        assert(s =~= head + s.skip(2));
    }
}

/// Appends the 2 bytes of `x`, the least significant byte first, to `out`.
pub fn put_u16_le(out: &mut Vec<u8>, x: u16)
    ensures
        final(out)@ == old(out)@ + u16_le(x),
{
    let bytes = digits(x as u128, 2);
    append(out, &bytes);
}

/// Reads a `u16` at offset `at` of `bytes`: the value and the offset
/// behind it, or nothing where fewer than 2 bytes stand there.
pub fn take_u16_le(bytes: &[u8], at: usize) -> (r: Option<(u16, usize)>)
    ensures
        at > bytes@.len() ==> r is None,
        at <= bytes@.len() ==> match read_u16_le(bytes@.skip(at as int)) {
            Some((x, rest)) => r matches Some((got, next)) && got == x && next == at + 2
                && next <= bytes@.len() && rest == bytes@.skip(next as int),
            None => r is None,
        },
{
    if at > bytes.len() || bytes.len() - at < 2 {
        None
    } else {
        let field = slice_subrange(bytes, at, at + 2);
        assert(field@ =~= bytes@.skip(at as int).subrange(0, 2));
        assert(bytes@.skip(at as int).skip(2) =~= bytes@.skip(at + 2));
        let x = number(field);
        proof {
            lemma_pow256();
        }
        Some((x as u16, at + 2))
    }
}

/// The 4 bytes of `x`, the least significant byte first.
pub open spec fn u32_le(x: u32) -> Seq<u8> {
    le_bytes(x as nat, 4)
}

/// Splits a `u32` off the front of `s`: the value that the first 4
/// bytes hold, the least significant byte first, and what follows them; or nothing where
/// `s` has fewer than 4 bytes.
pub open spec fn read_u32_le(s: Seq<u8>) -> Option<(u32, Seq<u8>)> {
    if s.len() < 4 {
        None
    } else {
        Some((le_value(s.subrange(0, 4)) as u32, s.skip(4)))
    }
}

/// Reading what was written gives the value back, and what followed it.
pub proof fn lemma_read_u32_le(x: u32, tail: Seq<u8>)
    ensures
        u32_le(x).len() == 4,
        read_u32_le(u32_le(x) + tail) == Some((x, tail)),
{
    lemma_pow256();
    lemma_le_value_of_bytes(x as nat, 4);
    lemma_le_bytes_len(x as nat, 4);
    let s = u32_le(x) + tail;
    assert(s.subrange(0, 4) =~= u32_le(x));
    assert(s.skip(4) =~= tail);
}

/// What was read is what stands written at the front.
pub proof fn lemma_written_u32_le(s: Seq<u8>)
    ensures
        read_u32_le(s) matches Some((x, rest)) ==> s == u32_le(x) + rest,
{
    if s.len() >= 4 {
        let head = s.subrange(0, 4);
        lemma_pow256();
        lemma_le_value_bound(head);
        lemma_le_bytes_of_value(head);
        assert(s =~= head + s.skip(4));
    }
}

/// Appends the 4 bytes of `x`, the least significant byte first, to `out`.
pub fn put_u32_le(out: &mut Vec<u8>, x: u32)
    ensures
        final(out)@ == old(out)@ + u32_le(x),
{
    let bytes = digits(x as u128, 4);
    append(out, &bytes);
}

/// Reads a `u32` at offset `at` of `bytes`: the value and the offset
/// behind it, or nothing where fewer than 4 bytes stand there.
pub fn take_u32_le(bytes: &[u8], at: usize) -> (r: Option<(u32, usize)>)
    ensures
        at > bytes@.len() ==> r is None,
        at <= bytes@.len() ==> match read_u32_le(bytes@.skip(at as int)) {
            Some((x, rest)) => r matches Some((got, next)) && got == x && next == at + 4
                && next <= bytes@.len() && rest == bytes@.skip(next as int),
            None => r is None,
        },
{
    if at > bytes.len() || bytes.len() - at < 4 {
        None
    } else {
        let field = slice_subrange(bytes, at, at + 4);
        assert(field@ =~= bytes@.skip(at as int).subrange(0, 4));
        assert(bytes@.skip(at as int).skip(4) =~= bytes@.skip(at + 4));
        let x = number(field);
        proof {
            lemma_pow256();
        }
        Some((x as u32, at + 4))
    }
}

/// The 8 bytes of `x`, the least significant byte first.
pub open spec fn u64_le(x: u64) -> Seq<u8> {
    le_bytes(x as nat, 8)
}

/// Splits a `u64` off the front of `s`: the value that the first 8
/// bytes hold, the least significant byte first, and what follows them; or nothing where
/// `s` has fewer than 8 bytes.
pub open spec fn read_u64_le(s: Seq<u8>) -> Option<(u64, Seq<u8>)> {
    if s.len() < 8 {
        None
    } else {
        Some((le_value(s.subrange(0, 8)) as u64, s.skip(8)))
    }
}

/// Reading what was written gives the value back, and what followed it.
pub proof fn lemma_read_u64_le(x: u64, tail: Seq<u8>)
    ensures
        u64_le(x).len() == 8,
        read_u64_le(u64_le(x) + tail) == Some((x, tail)),
{
    lemma_pow256();
    lemma_le_value_of_bytes(x as nat, 8);
    lemma_le_bytes_len(x as nat, 8);
    let s = u64_le(x) + tail;
    assert(s.subrange(0, 8) =~= u64_le(x));
    assert(s.skip(8) =~= tail);
}

/// What was read is what stands written at the front.
pub proof fn lemma_written_u64_le(s: Seq<u8>)
    ensures
        read_u64_le(s) matches Some((x, rest)) ==> s == u64_le(x) + rest,
{
    if s.len() >= 8 {
        let head = s.subrange(0, 8);
        lemma_pow256();
        lemma_le_value_bound(head);
        lemma_le_bytes_of_value(head);
        assert(s =~= head + s.skip(8));
    }
}

/// Appends the 8 bytes of `x`, the least significant byte first, to `out`.
pub fn put_u64_le(out: &mut Vec<u8>, x: u64)
    ensures
        final(out)@ == old(out)@ + u64_le(x),
{
    let bytes = digits(x as u128, 8);
    append(out, &bytes);
}

/// Reads a `u64` at offset `at` of `bytes`: the value and the offset
/// behind it, or nothing where fewer than 8 bytes stand there.
pub fn take_u64_le(bytes: &[u8], at: usize) -> (r: Option<(u64, usize)>)
    ensures
        at > bytes@.len() ==> r is None,
        at <= bytes@.len() ==> match read_u64_le(bytes@.skip(at as int)) {
            Some((x, rest)) => r matches Some((got, next)) && got == x && next == at + 8
                && next <= bytes@.len() && rest == bytes@.skip(next as int),
            None => r is None,
        },
{
    if at > bytes.len() || bytes.len() - at < 8 {
        None
    } else {
        let field = slice_subrange(bytes, at, at + 8);
        assert(field@ =~= bytes@.skip(at as int).subrange(0, 8));
        assert(bytes@.skip(at as int).skip(8) =~= bytes@.skip(at + 8));
        let x = number(field);
        proof {
            lemma_pow256();
        }
        Some((x as u64, at + 8))
    }
}

/// The 4 bytes of `x`, the most significant byte first.
pub open spec fn u32_be(x: u32) -> Seq<u8> {
    be_bytes(x as nat, 4)
}

/// Splits a `u32` off the front of `s`: the value that the first 4
/// bytes hold, the most significant byte first, and what follows them; or nothing where
/// `s` has fewer than 4 bytes.
pub open spec fn read_u32_be(s: Seq<u8>) -> Option<(u32, Seq<u8>)> {
    if s.len() < 4 {
        None
    } else {
        Some((be_value(s.subrange(0, 4)) as u32, s.skip(4)))
    }
}

/// Reading what was written gives the value back, and what followed it.
pub proof fn lemma_read_u32_be(x: u32, tail: Seq<u8>)
    ensures
        u32_be(x).len() == 4,
        read_u32_be(u32_be(x) + tail) == Some((x, tail)),
{
    lemma_pow256();
    lemma_le_value_of_bytes(x as nat, 4);
    lemma_le_bytes_len(x as nat, 4);
    lemma_reverse_twice(le_bytes(x as nat, 4));
    let s = u32_be(x) + tail;
    assert(s.subrange(0, 4) =~= u32_be(x));
    assert(s.skip(4) =~= tail);
}

/// What was read is what stands written at the front.
pub proof fn lemma_written_u32_be(s: Seq<u8>)
    ensures
        read_u32_be(s) matches Some((x, rest)) ==> s == u32_be(x) + rest,
{
    if s.len() >= 4 {
        let head = s.subrange(0, 4);
        lemma_pow256();
        lemma_le_value_bound(head.reverse());
        lemma_le_bytes_of_value(head.reverse());
        lemma_reverse_twice(head);
        assert(s =~= head + s.skip(4));
    }
}

/// Appends the 4 bytes of `x`, the most significant byte first, to `out`.
pub fn put_u32_be(out: &mut Vec<u8>, x: u32)
    ensures
        final(out)@ == old(out)@ + u32_be(x),
{
    let bytes = digits(x as u128, 4);
    let bytes = reversed(bytes.as_slice());
    append(out, &bytes);
}

/// Reads a `u32` at offset `at` of `bytes`: the value and the offset
/// behind it, or nothing where fewer than 4 bytes stand there.
pub fn take_u32_be(bytes: &[u8], at: usize) -> (r: Option<(u32, usize)>)
    ensures
        at > bytes@.len() ==> r is None,
        at <= bytes@.len() ==> match read_u32_be(bytes@.skip(at as int)) {
            Some((x, rest)) => r matches Some((got, next)) && got == x && next == at + 4
                && next <= bytes@.len() && rest == bytes@.skip(next as int),
            None => r is None,
        },
{
    if at > bytes.len() || bytes.len() - at < 4 {
        None
    } else {
        let field = slice_subrange(bytes, at, at + 4);
        assert(field@ =~= bytes@.skip(at as int).subrange(0, 4));
        assert(bytes@.skip(at as int).skip(4) =~= bytes@.skip(at + 4));
        let turned = reversed(field);
        let x = number(turned.as_slice());
        proof {
            lemma_pow256();
        }
        Some((x as u32, at + 4))
    }
}

/// The 8 bytes of `x`, the most significant byte first.
pub open spec fn u64_be(x: u64) -> Seq<u8> {
    be_bytes(x as nat, 8)
}

/// Splits a `u64` off the front of `s`: the value that the first 8
/// bytes hold, the most significant byte first, and what follows them; or nothing where
/// `s` has fewer than 8 bytes.
pub open spec fn read_u64_be(s: Seq<u8>) -> Option<(u64, Seq<u8>)> {
    if s.len() < 8 {
        None
    } else {
        Some((be_value(s.subrange(0, 8)) as u64, s.skip(8)))
    }
}

/// Reading what was written gives the value back, and what followed it.
pub proof fn lemma_read_u64_be(x: u64, tail: Seq<u8>)
    ensures
        u64_be(x).len() == 8,
        read_u64_be(u64_be(x) + tail) == Some((x, tail)),
{
    lemma_pow256();
    lemma_le_value_of_bytes(x as nat, 8);
    lemma_le_bytes_len(x as nat, 8);
    lemma_reverse_twice(le_bytes(x as nat, 8));
    let s = u64_be(x) + tail;
    assert(s.subrange(0, 8) =~= u64_be(x));
    assert(s.skip(8) =~= tail);
}

/// What was read is what stands written at the front.
pub proof fn lemma_written_u64_be(s: Seq<u8>)
    ensures
        read_u64_be(s) matches Some((x, rest)) ==> s == u64_be(x) + rest,
{
    if s.len() >= 8 {
        let head = s.subrange(0, 8);
        lemma_pow256();
        lemma_le_value_bound(head.reverse());
        lemma_le_bytes_of_value(head.reverse());
        lemma_reverse_twice(head);
        assert(s =~= head + s.skip(8));
    }
}

/// Appends the 8 bytes of `x`, the most significant byte first, to `out`.
pub fn put_u64_be(out: &mut Vec<u8>, x: u64)
    ensures
        final(out)@ == old(out)@ + u64_be(x),
{
    let bytes = digits(x as u128, 8);
    let bytes = reversed(bytes.as_slice());
    append(out, &bytes);
}

/// Reads a `u64` at offset `at` of `bytes`: the value and the offset
/// behind it, or nothing where fewer than 8 bytes stand there.
pub fn take_u64_be(bytes: &[u8], at: usize) -> (r: Option<(u64, usize)>)
    ensures
        at > bytes@.len() ==> r is None,
        at <= bytes@.len() ==> match read_u64_be(bytes@.skip(at as int)) {
            Some((x, rest)) => r matches Some((got, next)) && got == x && next == at + 8
                && next <= bytes@.len() && rest == bytes@.skip(next as int),
            None => r is None,
        },
{
    if at > bytes.len() || bytes.len() - at < 8 {
        None
    } else {
        let field = slice_subrange(bytes, at, at + 8);
        assert(field@ =~= bytes@.skip(at as int).subrange(0, 8));
        assert(bytes@.skip(at as int).skip(8) =~= bytes@.skip(at + 8));
        let turned = reversed(field);
        let x = number(turned.as_slice());
        proof {
            lemma_pow256();
        }
        Some((x as u64, at + 8))
    }
}

/// The 16 bytes of `x`, the most significant byte first.
pub open spec fn u128_be(x: u128) -> Seq<u8> {
    be_bytes(x as nat, 16)
}

/// Splits a `u128` off the front of `s`: the value that the first 16
/// bytes hold, the most significant byte first, and what follows them; or nothing where
/// `s` has fewer than 16 bytes.
pub open spec fn read_u128_be(s: Seq<u8>) -> Option<(u128, Seq<u8>)> {
    if s.len() < 16 {
        None
    } else {
        Some((be_value(s.subrange(0, 16)) as u128, s.skip(16)))
    }
}

/// Reading what was written gives the value back, and what followed it.
pub proof fn lemma_read_u128_be(x: u128, tail: Seq<u8>)
    ensures
        u128_be(x).len() == 16,
        read_u128_be(u128_be(x) + tail) == Some((x, tail)),
{
    lemma_pow256();
    lemma_le_value_of_bytes(x as nat, 16);
    lemma_le_bytes_len(x as nat, 16);
    lemma_reverse_twice(le_bytes(x as nat, 16));
    let s = u128_be(x) + tail;
    assert(s.subrange(0, 16) =~= u128_be(x));
    assert(s.skip(16) =~= tail);
}

/// What was read is what stands written at the front.
pub proof fn lemma_written_u128_be(s: Seq<u8>)
    ensures
        read_u128_be(s) matches Some((x, rest)) ==> s == u128_be(x) + rest,
{
    if s.len() >= 16 {
        let head = s.subrange(0, 16);
        lemma_pow256();
        lemma_le_value_bound(head.reverse());
        lemma_le_bytes_of_value(head.reverse());
        lemma_reverse_twice(head);
        assert(s =~= head + s.skip(16));
    }
}

/// Appends the 16 bytes of `x`, the most significant byte first, to `out`.
pub fn put_u128_be(out: &mut Vec<u8>, x: u128)
    ensures
        final(out)@ == old(out)@ + u128_be(x),
{
    let bytes = digits(x as u128, 16);
    let bytes = reversed(bytes.as_slice());
    append(out, &bytes);
}

/// Reads a `u128` at offset `at` of `bytes`: the value and the offset
/// behind it, or nothing where fewer than 16 bytes stand there.
pub fn take_u128_be(bytes: &[u8], at: usize) -> (r: Option<(u128, usize)>)
    ensures
        at > bytes@.len() ==> r is None,
        at <= bytes@.len() ==> match read_u128_be(bytes@.skip(at as int)) {
            Some((x, rest)) => r matches Some((got, next)) && got == x && next == at + 16
                && next <= bytes@.len() && rest == bytes@.skip(next as int),
            None => r is None,
        },
{
    if at > bytes.len() || bytes.len() - at < 16 {
        None
    } else {
        let field = slice_subrange(bytes, at, at + 16);
        assert(field@ =~= bytes@.skip(at as int).subrange(0, 16));
        assert(bytes@.skip(at as int).skip(16) =~= bytes@.skip(at + 16));
        let turned = reversed(field);
        let x = number(turned.as_slice());
        proof {
            lemma_pow256();
        }
        Some((x as u128, at + 16))
    }
}

} // verus!
