//! Numbers as little-endian byte strings.
//!
//! An element of up to eight bytes is handled as a `u64` whose unused high bytes are zero.
use vstd::prelude::*;

verus! {

/// The byte of `b` at `i`, or zero past its end.
pub open spec fn byte_at(b: Seq<u8>, i: int) -> u64 {
    if 0 <= i < b.len() {
        b[i] as u64
    } else {
        0
    }
}

/// Eight bytes put together, the first one lowest.
pub open spec fn pack(b0: u64, b1: u64, b2: u64, b3: u64, b4: u64, b5: u64, b6: u64, b7: u64) -> u64 {
    b0 | (b1 << 8) | (b2 << 16) | (b3 << 24) | (b4 << 32) | (b5 << 40) | (b6 << 48) | (b7 << 56)
}

/// The number that up to eight bytes spell in little-endian order.
pub open spec fn word(b: Seq<u8>) -> u64 {
    pack(
        byte_at(b, 0),
        byte_at(b, 1),
        byte_at(b, 2),
        byte_at(b, 3),
        byte_at(b, 4),
        byte_at(b, 5),
        byte_at(b, 6),
        byte_at(b, 7),
    )
}

/// Byte `i` of `x`, counted from the lowest.
pub open spec fn byte_of(x: u64, i: int) -> u8 {
    ((x >> ((8 * i) as u64)) & 0xff) as u8
}

/// The `n` lowest bytes of `x` in little-endian order.
pub open spec fn bytes(x: u64, n: nat) -> Seq<u8> {
    Seq::new(n, |i: int| byte_of(x, i))
}

/// The largest number that `n` bytes can spell.
pub open spec fn max_word(n: nat) -> u64 {
    if n <= 1 {
        0xff
    } else if n == 2 {
        0xffff
    } else if n == 3 {
        0xff_ffff
    } else if n == 4 {
        0xffff_ffff
    } else if n == 5 {
        0xff_ffff_ffff
    } else if n == 6 {
        0xffff_ffff_ffff
    } else if n == 7 {
        0xff_ffff_ffff_ffff
    } else {
        0xffff_ffff_ffff_ffff
    }
}

proof fn lemma_pack_of_bytes(x: u64)
    by (bit_vector)
    ensures
        pack(
            ((x >> 0) & 0xff) as u8 as u64,
            ((x >> 8) & 0xff) as u8 as u64,
            ((x >> 16) & 0xff) as u8 as u64,
            ((x >> 24) & 0xff) as u8 as u64,
            ((x >> 32) & 0xff) as u8 as u64,
            ((x >> 40) & 0xff) as u8 as u64,
            ((x >> 48) & 0xff) as u8 as u64,
            ((x >> 56) & 0xff) as u8 as u64,
        ) == x,
        x <= 0xff ==> (x >> 8) & 0xff == 0,
        x <= 0xffff ==> (x >> 16) & 0xff == 0,
        x <= 0xff_ffff ==> (x >> 24) & 0xff == 0,
        x <= 0xffff_ffff ==> (x >> 32) & 0xff == 0,
        x <= 0xff_ffff_ffff ==> (x >> 40) & 0xff == 0,
        x <= 0xffff_ffff_ffff ==> (x >> 48) & 0xff == 0,
        x <= 0xff_ffff_ffff_ffff ==> (x >> 56) & 0xff == 0,
        x <= 0xff ==> (x >> 16) & 0xff == 0,
        x <= 0xffff ==> (x >> 24) & 0xff == 0,
        x <= 0xff_ffff ==> (x >> 32) & 0xff == 0,
        x <= 0xffff_ffff ==> (x >> 40) & 0xff == 0,
        x <= 0xff_ffff_ffff ==> (x >> 48) & 0xff == 0,
        x <= 0xffff_ffff_ffff ==> (x >> 56) & 0xff == 0,
        x <= 0xff ==> (x >> 24) & 0xff == 0,
        x <= 0xffff ==> (x >> 32) & 0xff == 0,
        x <= 0xff_ffff ==> (x >> 40) & 0xff == 0,
        x <= 0xffff_ffff ==> (x >> 48) & 0xff == 0,
        x <= 0xff_ffff_ffff ==> (x >> 56) & 0xff == 0,
        x <= 0xff ==> (x >> 32) & 0xff == 0,
        x <= 0xffff ==> (x >> 40) & 0xff == 0,
        x <= 0xff_ffff ==> (x >> 48) & 0xff == 0,
        x <= 0xffff_ffff ==> (x >> 56) & 0xff == 0,
        x <= 0xff ==> (x >> 40) & 0xff == 0,
        x <= 0xffff ==> (x >> 48) & 0xff == 0,
        x <= 0xff_ffff ==> (x >> 56) & 0xff == 0,
        x <= 0xff ==> (x >> 48) & 0xff == 0,
        x <= 0xffff ==> (x >> 56) & 0xff == 0,
        x <= 0xff ==> (x >> 56) & 0xff == 0,
        0u64 as u8 as u64 == 0,
{
}

proof fn lemma_bytes_of_pack(b0: u8, b1: u8, b2: u8, b3: u8, b4: u8, b5: u8, b6: u8, b7: u8)
    by (bit_vector)
    ensures
        ({
            let x = pack(
                b0 as u64,
                b1 as u64,
                b2 as u64,
                b3 as u64,
                b4 as u64,
                b5 as u64,
                b6 as u64,
                b7 as u64,
            );
            &&& ((x >> 0) & 0xff) as u8 == b0
            &&& ((x >> 8) & 0xff) as u8 == b1
            &&& ((x >> 16) & 0xff) as u8 == b2
            &&& ((x >> 24) & 0xff) as u8 == b3
            &&& ((x >> 32) & 0xff) as u8 == b4
            &&& ((x >> 40) & 0xff) as u8 == b5
            &&& ((x >> 48) & 0xff) as u8 == b6
            &&& ((x >> 56) & 0xff) as u8 == b7
            &&& (b1 == 0 && b2 == 0 && b3 == 0 && b4 == 0 && b5 == 0 && b6 == 0 && b7 == 0 ==> x
                <= 0xff)
            &&& (b2 == 0 && b3 == 0 && b4 == 0 && b5 == 0 && b6 == 0 && b7 == 0 ==> x <= 0xffff)
            &&& (b3 == 0 && b4 == 0 && b5 == 0 && b6 == 0 && b7 == 0 ==> x <= 0xff_ffff)
            &&& (b4 == 0 && b5 == 0 && b6 == 0 && b7 == 0 ==> x <= 0xffff_ffff)
            &&& (b5 == 0 && b6 == 0 && b7 == 0 ==> x <= 0xff_ffff_ffff)
            &&& (b6 == 0 && b7 == 0 ==> x <= 0xffff_ffff_ffff)
            &&& (b7 == 0 ==> x <= 0xff_ffff_ffff_ffff)
        }),
{
}

/// A number that fits in `n` bytes is spelled back by those bytes.
pub proof fn lemma_word_of_bytes(x: u64, n: nat)
    requires
        1 <= n <= 8,
        x <= max_word(n),
    ensures
        bytes(x, n).len() == n,
        word(bytes(x, n)) == x,
{
    lemma_pack_of_bytes(x);
    let b = bytes(x, n);
    assert(byte_at(b, 0) == byte_of(x, 0) as u64);
    assert(byte_at(b, 1) == byte_of(x, 1) as u64);
    assert(byte_at(b, 2) == byte_of(x, 2) as u64);
    assert(byte_at(b, 3) == byte_of(x, 3) as u64);
    assert(byte_at(b, 4) == byte_of(x, 4) as u64);
    assert(byte_at(b, 5) == byte_of(x, 5) as u64);
    assert(byte_at(b, 6) == byte_of(x, 6) as u64);
    assert(byte_at(b, 7) == byte_of(x, 7) as u64);
}

/// Up to eight bytes are spelled back by the number they spell, and that number fits in
/// as many bytes.
pub proof fn lemma_bytes_of_word(b: Seq<u8>)
    requires
        1 <= b.len() <= 8,
    ensures
        word(b) <= max_word(b.len()),
        bytes(word(b), b.len()) == b,
{
    let n = b.len();
    let c0: u8 = if 0 < n { b[0] } else { 0 };
    let c1: u8 = if 1 < n { b[1] } else { 0 };
    let c2: u8 = if 2 < n { b[2] } else { 0 };
    let c3: u8 = if 3 < n { b[3] } else { 0 };
    let c4: u8 = if 4 < n { b[4] } else { 0 };
    let c5: u8 = if 5 < n { b[5] } else { 0 };
    let c6: u8 = if 6 < n { b[6] } else { 0 };
    let c7: u8 = if 7 < n { b[7] } else { 0 };
    lemma_bytes_of_pack(c0, c1, c2, c3, c4, c5, c6, c7);
    assert(byte_at(b, 0) == c0 as u64);
    assert(byte_at(b, 1) == c1 as u64);
    assert(byte_at(b, 2) == c2 as u64);
    assert(byte_at(b, 3) == c3 as u64);
    assert(byte_at(b, 4) == c4 as u64);
    assert(byte_at(b, 5) == c5 as u64);
    assert(byte_at(b, 6) == c6 as u64);
    assert(byte_at(b, 7) == c7 as u64);
    let x = word(b);
    assert(x == pack(
        c0 as u64,
        c1 as u64,
        c2 as u64,
        c3 as u64,
        c4 as u64,
        c5 as u64,
        c6 as u64,
        c7 as u64,
    ));
    assert(byte_of(x, 0) == c0);
    assert(byte_of(x, 1) == c1);
    assert(byte_of(x, 2) == c2);
    assert(byte_of(x, 3) == c3);
    assert(byte_of(x, 4) == c4);
    assert(byte_of(x, 5) == c5);
    assert(byte_of(x, 6) == c6);
    assert(byte_of(x, 7) == c7);
    assert forall|i: int| 0 <= i < n implies #[trigger] bytes(x, n)[i] == b[i] by {
        if i == 0 {
        } else if i == 1 {
        } else if i == 2 {
        } else if i == 3 {
        } else if i == 4 {
        } else if i == 5 {
        } else if i == 6 {
        } else {
            assert(i == 7);
        }
    }
    assert(bytes(x, n) =~= b);
}

/// Reads the `n` bytes of `buf` that start at `at` as one little-endian number.
pub fn load(buf: &[u8], at: usize, n: usize) -> (x: u64)
    requires
        1 <= n <= 8,
        at + n <= buf.len(),
    ensures
        x == word(buf@.subrange(at as int, at + n)),
        x <= max_word(n as nat),
{
    let ghost b = buf@.subrange(at as int, at + n);
    let b0: u64 = if 0 < n { buf[at] as u64 } else { 0 };
    let b1: u64 = if 1 < n { buf[at + 1] as u64 } else { 0 };
    let b2: u64 = if 2 < n { buf[at + 2] as u64 } else { 0 };
    let b3: u64 = if 3 < n { buf[at + 3] as u64 } else { 0 };
    let b4: u64 = if 4 < n { buf[at + 4] as u64 } else { 0 };
    let b5: u64 = if 5 < n { buf[at + 5] as u64 } else { 0 };
    let b6: u64 = if 6 < n { buf[at + 6] as u64 } else { 0 };
    let b7: u64 = if 7 < n { buf[at + 7] as u64 } else { 0 };
    proof {
        assert(b0 == byte_at(b, 0));
        assert(b1 == byte_at(b, 1));
        assert(b2 == byte_at(b, 2));
        assert(b3 == byte_at(b, 3));
        assert(b4 == byte_at(b, 4));
        assert(b5 == byte_at(b, 5));
        assert(b6 == byte_at(b, 6));
        assert(b7 == byte_at(b, 7));
        lemma_bytes_of_word(b);
    }
    b0 | (b1 << 8) | (b2 << 16) | (b3 << 24) | (b4 << 32) | (b5 << 40) | (b6 << 48) | (b7 << 56)
}

/// Appends the `n` lowest bytes of `x` to `out`, the lowest first.
pub fn store(out: &mut Vec<u8>, x: u64, n: usize)
    requires
        n <= 8,
    ensures
        final(out)@ == old(out)@ + bytes(x, n as nat),
{
    let mut i: usize = 0;
    while i < n
        invariant
            i <= n <= 8,
            out@ == old(out)@ + bytes(x, i as nat),
        decreases n - i,
    {
        let b: u8 = ((x >> ((8 * i) as u64)) & 0xff) as u8;
        out.push(b);
        assert(b == byte_of(x, i as int));
        assert(out@ =~= old(out)@ + bytes(x, (i + 1) as nat));
        i = i + 1;
    }
}

} // verus!
