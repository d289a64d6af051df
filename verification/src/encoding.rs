//! Little-endian integer encodings and UTF-16 encoding of text.

use vstd::prelude::*;

verus! {

/// `256` raised to the power `n`.
pub open spec fn pow256(n: nat) -> nat
    decreases n,
{
    if n == 0 {
        1
    } else {
        256 * pow256((n - 1) as nat)
    }
}

/// The `n` low-order bytes of `x`, least significant first.
pub open spec fn le_bytes(x: nat, n: nat) -> Seq<u8>
    decreases n,
{
    if n == 0 {
        seq![]
    } else {
        seq![(x % 256) as u8] + le_bytes(x / 256, (n - 1) as nat)
    }
}

/// The number whose little-endian bytes are `s`.
pub open spec fn le_value(s: Seq<u8>) -> nat
    decreases s.len(),
{
    if s.len() == 0 {
        0
    } else {
        s[0] as nat + 256 * le_value(s.drop_first())
    }
}

/// Two's complement of `x` on `n` bytes, as an unsigned number.
pub open spec fn twos(x: int, n: nat) -> nat {
    if x >= 0 {
        x as nat
    } else {
        (x + pow256(n)) as nat
    }
}

/// The signed number whose two's complement on `n` bytes is `u`.
pub open spec fn signed_of(u: nat, n: nat) -> int {
    if 2 * u >= pow256(n) {
        u - pow256(n)
    } else {
        u as int
    }
}

pub proof fn lemma_pow256_values()
    ensures
        pow256(1) == 0x100,
        pow256(2) == 0x1_0000,
        pow256(4) == 0x1_0000_0000,
        pow256(8) == 0x1_0000_0000_0000_0000,
{
    reveal_with_fuel(pow256, 9);
}

pub proof fn lemma_le_bytes_len(x: nat, n: nat)
    ensures
        le_bytes(x, n).len() == n,
    decreases n,
{
    if n > 0 {
        lemma_le_bytes_len(x / 256, (n - 1) as nat);
    }
}

pub proof fn lemma_le_value_bound(s: Seq<u8>)
    ensures
        le_value(s) < pow256(s.len()),
    decreases s.len(),
{
    if s.len() > 0 {
        lemma_le_value_bound(s.drop_first());
    }
}

/// Decoding the `n` little-endian bytes of a number below `256^n` gives it back.
pub proof fn lemma_le_roundtrip(x: nat, n: nat)
    requires
        x < pow256(n),
    ensures
        le_value(le_bytes(x, n)) == x,
    decreases n,
{
    if n > 0 {
        lemma_le_bytes_len(x / 256, (n - 1) as nat);
        lemma_le_roundtrip(x / 256, (n - 1) as nat);
        let s = le_bytes(x, n);
        assert(s.drop_first() =~= le_bytes(x / 256, (n - 1) as nat));
    }
}

/// Encoding the value of `n` bytes on `n` bytes gives the bytes back.
pub proof fn lemma_le_value_bytes(s: Seq<u8>)
    ensures
        le_bytes(le_value(s), s.len()) == s,
    decreases s.len(),
{
    if s.len() > 0 {
        lemma_le_value_bytes(s.drop_first());
        let v = le_value(s);
        assert(v % 256 == s[0] as nat);
        assert(v / 256 == le_value(s.drop_first()));
        assert(le_bytes(v, s.len()) =~= s);
    }
}

/// The `n` low-order bytes of `x`, least significant first.
pub fn le_encode(x: u64, n: usize) -> (r: Vec<u8>)
    requires
        n <= 8,
    ensures
        r@ == le_bytes(x as nat, n as nat),
{
    let mut r: Vec<u8> = Vec::new();
    let mut v: u64 = x;
    let mut i: usize = 0;
    while i < n
        invariant
            i <= n,
            r@ + le_bytes(v as nat, (n - i) as nat) == le_bytes(x as nat, n as nat),
        decreases n - i,
    {
        let ghost old_r = r@;
        let ghost rest = le_bytes(v as nat, (n - i) as nat);
        r.push((v % 256) as u8);
        assert(rest == seq![(v % 256) as u8] + le_bytes((v / 256) as nat, (n - i - 1) as nat));
        assert(r@ + le_bytes((v / 256) as nat, (n - i - 1) as nat) =~= old_r + rest);
        v = v / 256;
        i = i + 1;
    }
    r
}

/// The number whose little-endian bytes are `buf[start..start + n]`.
pub fn le_decode(buf: &[u8], start: usize, n: usize) -> (r: u64)
    requires
        n <= 8,
        start + n <= buf@.len(),
    ensures
        r as nat == le_value(buf@.subrange(start as int, start + n)),
{
    proof {
        lemma_pow256_values();
    }
    let len = buf.len();
    let mut acc: u64 = 0;
    let mut i: usize = n;
    while i > 0
        invariant
            i <= n <= 8,
            start + n <= buf@.len(),
            len == buf@.len(),
            acc as nat == le_value(buf@.subrange(start + i, start + n)),
            pow256(8) == 0x1_0000_0000_0000_0000,
        decreases i,
    {
        let ghost tail = buf@.subrange(start + i, start + n);
        proof {
            lemma_le_value_bound(tail);
            lemma_pow256_le((n - i) as nat, 7);
        }
        let b = buf[start + (i - 1)];
        assert(acc < pow256(7)) by {
            assert(n - i <= 7);
        }
        acc = acc * 256 + b as u64;
        i = i - 1;
        let ghost s = buf@.subrange(start + i, start + n);
        assert(s.drop_first() =~= tail);
    }
    acc
}

/// The two's complement of `x` on `n` bytes, as computed in `u64`.
pub fn twos_u64(x: i64, n: usize) -> (r: u64)
    requires
        n == 1 || n == 2 || n == 4 || n == 8,
        n == 1 ==> -0x80 <= x < 0x80,
        n == 2 ==> -0x8000 <= x < 0x8000,
        n == 4 ==> -0x8000_0000 <= x < 0x8000_0000,
    ensures
        r as nat == twos(x as int, n as nat),
        r < pow256(n as nat),
{
    proof {
        lemma_pow256_values();
    }
    if x >= 0 {
        x as u64
    } else if n == 1 {
        (x + 0x100) as u64
    } else if n == 2 {
        (x + 0x1_0000) as u64
    } else if n == 4 {
        (x + 0x1_0000_0000) as u64
    } else {
        ((x as i128) + 0x1_0000_0000_0000_0000i128) as u64
    }
}

/// The signed number whose two's complement on `n` bytes is `u`.
pub fn signed_from(u: u64, n: usize) -> (r: i64)
    requires
        n == 1 || n == 2 || n == 4 || n == 8,
        u < pow256(n as nat),
    ensures
        r as int == signed_of(u as nat, n as nat),
{
    proof {
        lemma_pow256_values();
    }
    if n == 1 {
        if u >= 0x80 { (u as i64) - 0x100 } else { u as i64 }
    } else if n == 2 {
        if u >= 0x8000 { (u as i64) - 0x1_0000 } else { u as i64 }
    } else if n == 4 {
        if u >= 0x8000_0000 { (u as i64) - 0x1_0000_0000 } else { u as i64 }
    } else {
        if u >= 0x8000_0000_0000_0000 {
            ((u as i128) - 0x1_0000_0000_0000_0000i128) as i64
        } else {
            u as i64
        }
    }
}

proof fn lemma_pow256_le(a: nat, b: nat)
    requires
        a <= b,
    ensures
        pow256(a) <= pow256(b),
    decreases b,
{
    if a < b {
        lemma_pow256_le(a, (b - 1) as nat);
    }
}

} // verus!

verus! {

/// The UTF-16 code units of one character.
pub open spec fn utf16_char(c: char) -> Seq<u16> {
    let v = c as u32;
    if v < 0x10000 {
        seq![v as u16]
    } else {
        let w = (v - 0x10000) as u32;
        seq![(0xD800 + w / 0x400) as u16, (0xDC00 + w % 0x400) as u16]
    }
}

/// The UTF-16 encoding of a sequence of characters.
pub open spec fn encode_utf16(s: Seq<char>) -> Seq<u16>
    decreases s.len(),
{
    if s.len() == 0 {
        seq![]
    } else {
        utf16_char(s[0]) + encode_utf16(s.drop_first())
    }
}

/// The characters of a string slice, in order.
pub fn chars_of(s: &str) -> (r: Vec<char>)
    ensures
        r@ == s@,
{
    broadcast use vstd::string::group_string_axioms;

    let mut r: Vec<char> = Vec::new();
    for c in it: s.chars()
        invariant
            it.seq() == s@,
            r@ == s@.take(it.index()),
    {
        r.push(c);
    }
    r
}

} // verus!

verus! {

/// Each code unit as two little-endian bytes, in order.
pub open spec fn units_le_bytes(units: Seq<u16>) -> Seq<u8>
    decreases units.len(),
{
    if units.len() == 0 {
        seq![]
    } else {
        le_bytes(units[0] as nat, 2) + units_le_bytes(units.drop_first())
    }
}

pub proof fn lemma_units_le_bytes_len(units: Seq<u16>)
    ensures
        units_le_bytes(units).len() == 2 * units.len(),
    decreases units.len(),
{
    if units.len() > 0 {
        lemma_le_bytes_len(units[0] as nat, 2);
        lemma_units_le_bytes_len(units.drop_first());
    }
}

/// The code units read from consecutive little-endian byte pairs; a trailing
/// odd byte is ignored.
pub open spec fn le_units(bytes: Seq<u8>) -> Seq<u16>
    decreases bytes.len(),
{
    if bytes.len() < 2 {
        seq![]
    } else {
        seq![le_value(bytes.subrange(0, 2)) as u16] + le_units(bytes.subrange(2, bytes.len() as int))
    }
}

/// Little-endian byte pairs give half as many code units as there are bytes.
pub proof fn lemma_le_units_len(bytes: Seq<u8>)
    ensures
        le_units(bytes).len() == bytes.len() / 2,
    decreases bytes.len(),
{
    if bytes.len() >= 2 {
        lemma_le_units_len(bytes.subrange(2, bytes.len() as int));
    }
}

/// The UTF-16 code units of a string, in order.
pub fn utf16_units(s: &str) -> (r: Vec<u16>)
    ensures
        r@ == encode_utf16(s@),
{
    let cs = chars_of(s);
    let mut r: Vec<u16> = Vec::new();
    let mut i: usize = 0;
    assert(cs@.subrange(0, cs@.len() as int) =~= cs@);
    while i < cs.len()
        invariant
            i <= cs@.len(),
            cs@ == s@,
            r@ + encode_utf16(cs@.subrange(i as int, cs@.len() as int)) == encode_utf16(s@),
        decreases cs@.len() - i,
    {
        let ghost rest = cs@.subrange(i as int, cs@.len() as int);
        let ghost old_r = r@;
        let v = cs[i] as u32;
        if v < 0x10000 {
            r.push(v as u16);
        } else {
            let w = v - 0x10000;
            assert(w < 0x100000) by {
                assert(v <= 0x10FFFF) by {
                    vstd::utf8::char_is_scalar(cs@[i as int]);
                }
            }
            r.push((0xD800 + w / 0x400) as u16);
            r.push((0xDC00 + w % 0x400) as u16);
        }
        assert(rest.drop_first() =~= cs@.subrange(i + 1, cs@.len() as int));
        assert(r@ =~= old_r + utf16_char(cs@[i as int]));
        i = i + 1;
    }
    assert(cs@.subrange(i as int, cs@.len() as int) =~= Seq::<char>::empty());
    r
}

/// The little-endian bytes of a sequence of code units.
pub fn units_to_le_bytes(units: &Vec<u16>) -> (r: Vec<u8>)
    ensures
        r@ == units_le_bytes(units@),
{
    let mut r: Vec<u8> = Vec::new();
    let mut i: usize = 0;
    assert(units@.subrange(0, units@.len() as int) =~= units@);
    while i < units.len()
        invariant
            i <= units@.len(),
            r@ + units_le_bytes(units@.subrange(i as int, units@.len() as int)) == units_le_bytes(units@),
        decreases units@.len() - i,
    {
        let ghost rest = units@.subrange(i as int, units@.len() as int);
        let ghost old_r = r@;
        let u = units[i];
        r.push((u % 256) as u8);
        r.push((u / 256) as u8);
        assert(rest.drop_first() =~= units@.subrange(i + 1, units@.len() as int));
        assert(le_bytes(u as nat, 2) =~= seq![(u % 256) as u8, (u / 256) as u8]) by {
            reveal_with_fuel(le_bytes, 3);
        }
        assert(r@ =~= old_r + le_bytes(u as nat, 2));
        i = i + 1;
    }
    assert(units@.subrange(i as int, units@.len() as int) =~= Seq::<u16>::empty());
    r
}

/// The code units read from consecutive little-endian byte pairs of `bytes`.
pub fn le_bytes_to_units(bytes: &[u8]) -> (r: Vec<u16>)
    ensures
        r@ == le_units(bytes@),
{
    let len = bytes.len();
    let mut r: Vec<u16> = Vec::new();
    let mut i: usize = 0;
    assert(bytes@.subrange(0, len as int) =~= bytes@);
    while len - i >= 2
        invariant
            i <= len,
            len == bytes@.len(),
            r@ + le_units(bytes@.subrange(i as int, len as int)) == le_units(bytes@),
        decreases len - i,
    {
        let ghost rest = bytes@.subrange(i as int, len as int);
        let ghost old_r = r@;
        let u = (bytes[i] as u16) + 256 * (bytes[i + 1] as u16);
        r.push(u);
        assert(rest.subrange(0, 2) =~= seq![bytes@[i as int], bytes@[i + 1]]);
        assert(le_value(seq![bytes@[i as int], bytes@[i + 1]]) == u) by {
            reveal_with_fuel(le_value, 3);
            assert(seq![bytes@[i as int], bytes@[i + 1]].drop_first() =~= seq![bytes@[i + 1]]);
            assert(seq![bytes@[i + 1]].drop_first() =~= Seq::<u8>::empty());
        }
        assert(rest.subrange(2, rest.len() as int) =~= bytes@.subrange(i + 2, len as int));
        assert(r@ =~= old_r + seq![u]);
        i = i + 2;
    }
    assert(le_units(bytes@.subrange(i as int, len as int)) =~= Seq::<u16>::empty());
    r
}

} // verus!
