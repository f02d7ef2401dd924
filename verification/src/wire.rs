//! Little-endian integers and plain runs of bytes on byte sequences.

use vstd::prelude::*;

verus! {

/// The two little-endian bytes of `v`.
pub open spec fn u16_le(v: u16) -> Seq<u8> {
    seq![(v % 256) as u8, (v / 256) as u8]
}

/// The four little-endian bytes of `v`.
pub open spec fn u32_le(v: u32) -> Seq<u8> {
    seq![
        (v % 256) as u8,
        ((v / 256) % 256) as u8,
        ((v / 65536) % 256) as u8,
        (v / 16777216) as u8,
    ]
}

/// The number whose little-endian bytes are `s[at]` and `s[at + 1]`.
pub open spec fn u16_at(s: Seq<u8>, at: int) -> u16
    recommends
        0 <= at,
        at + 2 <= s.len(),
{
    (s[at] + 256 * s[at + 1]) as u16
}

/// The number whose little-endian bytes are `s[at]` to `s[at + 3]`.
pub open spec fn u32_at(s: Seq<u8>, at: int) -> u32
    recommends
        0 <= at,
        at + 4 <= s.len(),
{
    (s[at] + 256 * s[at + 1] + 65536 * s[at + 2] + 16777216 * s[at + 3]) as u32
}

/// Reading back what `u16_le` wrote gives the number again, wherever the two
/// bytes stand in a longer sequence.
pub proof fn lemma_u16_round_trip(before: Seq<u8>, v: u16, after: Seq<u8>)
    ensures
        u16_at(before + u16_le(v) + after, before.len() as int) == v,
{
    let s = before + u16_le(v) + after;
    let at = before.len() as int;
    assert(s[at] == u16_le(v)[0]);
    assert(s[at + 1] == u16_le(v)[1]);
}

/// Reading back what `u32_le` wrote gives the number again, wherever the four
/// bytes stand in a longer sequence.
pub proof fn lemma_u32_round_trip(before: Seq<u8>, v: u32, after: Seq<u8>)
    ensures
        u32_at(before + u32_le(v) + after, before.len() as int) == v,
{
    let s = before + u32_le(v) + after;
    let at = before.len() as int;
    assert(s[at] == u32_le(v)[0]);
    assert(s[at + 1] == u32_le(v)[1]);
    assert(s[at + 2] == u32_le(v)[2]);
    assert(s[at + 3] == u32_le(v)[3]);
}

/// Appends the two little-endian bytes of `v` to `out`.
pub fn put_u16(out: &mut Vec<u8>, v: u16)
    ensures
        final(out)@ == old(out)@ + u16_le(v),
{
    out.push((v % 256) as u8);
    out.push((v / 256) as u8);
}

/// Appends the four little-endian bytes of `v` to `out`.
pub fn put_u32(out: &mut Vec<u8>, v: u32)
    ensures
        final(out)@ == old(out)@ + u32_le(v),
{
    out.push((v % 256) as u8);
    out.push(((v / 256) % 256) as u8);
    out.push(((v / 65536) % 256) as u8);
    out.push((v / 16777216) as u8);
}

/// Reads the little-endian `u16` that starts at byte `at`, if two bytes are there.
pub fn get_u16(data: &Vec<u8>, at: usize) -> (r: Option<u16>)
    ensures
        r.is_some() <==> at + 2 <= data@.len(),
        r.is_some() ==> r.unwrap() == u16_at(data@, at as int),
{
    if data.len() < 2 || at > data.len() - 2 {
        return None;
    }
    let b0: u16 = data[at] as u16;
    let b1: u16 = data[at + 1] as u16;
    Some(b0 + 256 * b1)
}

/// Reads the little-endian `u32` that starts at byte `at`, if four bytes are there.
pub fn get_u32(data: &Vec<u8>, at: usize) -> (r: Option<u32>)
    ensures
        r.is_some() <==> at + 4 <= data@.len(),
        r.is_some() ==> r.unwrap() == u32_at(data@, at as int),
{
    if data.len() < 4 || at > data.len() - 4 {
        return None;
    }
    let b0: u32 = data[at] as u32;
    let b1: u32 = data[at + 1] as u32;
    let b2: u32 = data[at + 2] as u32;
    let b3: u32 = data[at + 3] as u32;
    Some(b0 + 256 * b1 + 65536 * b2 + 16777216 * b3)
}

/// Appends `bytes` to `out`.
pub fn put_bytes(out: &mut Vec<u8>, bytes: &Vec<u8>)
    ensures
        final(out)@ == old(out)@ + bytes@,
{
    let mut i: usize = 0;
    while i < bytes.len()
        invariant
            i <= bytes.len(),
            out@ == old(out)@ + bytes@.subrange(0, i as int),
        decreases bytes.len() - i,
    {
        out.push(bytes[i]);
        i += 1;
        assert(bytes@.subrange(0, i as int) =~= bytes@.subrange(0, i - 1).push(bytes@[i - 1]));
    }
    assert(bytes@.subrange(0, bytes.len() as int) =~= bytes@);
}

/// The bytes of `data` from position `from` on; none where `from` is past the end.
pub fn bytes_from(data: &Vec<u8>, from: usize) -> (r: Vec<u8>)
    ensures
        from <= data@.len() ==> r@ == data@.subrange(from as int, data@.len() as int),
        from > data@.len() ==> r@ == Seq::<u8>::empty(),
{
    let mut out: Vec<u8> = Vec::new();
    let mut i: usize = from;
    while i < data.len()
        invariant
            from <= i,
            i <= data.len() || from > data.len(),
            from <= data.len() ==> out@ == data@.subrange(from as int, i as int),
            from > data.len() ==> out@ == Seq::<u8>::empty(),
        decreases data.len() - i,
    {
        out.push(data[i]);
        i += 1;
        assert(data@.subrange(from as int, i as int) =~= data@.subrange(from as int, i - 1).push(
            data@[i - 1],
        ));
    }
    out
}

/// A copy of the bytes.
pub fn copy_bytes(bytes: &Vec<u8>) -> (r: Vec<u8>)
    ensures
        r@ == bytes@,
{
    let mut out: Vec<u8> = Vec::new();
    let mut i: usize = 0;
    while i < bytes.len()
        invariant
            i <= bytes.len(),
            out@ == bytes@.subrange(0, i as int),
        decreases bytes.len() - i,
    {
        out.push(bytes[i]);
        i += 1;
        assert(bytes@.subrange(0, i as int) =~= bytes@.subrange(0, i - 1).push(bytes@[i - 1]));
    }
    assert(bytes@.subrange(0, bytes.len() as int) =~= bytes@);
    out
}

/// What a list of byte vectors stands for.
pub open spec fn bytes_views(list: Seq<Vec<u8>>) -> Seq<Seq<u8>> {
    Seq::new(list.len(), |i: int| list[i]@)
}

/// Whether two runs of bytes are the same.
pub fn bytes_equal(a: &Vec<u8>, b: &Vec<u8>) -> (r: bool)
    ensures
        r == (a@ == b@),
{
    if a.len() != b.len() {
        return false;
    }
    let mut i: usize = 0;
    while i < a.len()
        invariant
            i <= a.len(),
            a.len() == b.len(),
            forall|k: int| 0 <= k < i ==> a@[k] == b@[k],
        decreases a.len() - i,
    {
        if a[i] != b[i] {
            return false;
        }
        i += 1;
    }
    assert(a@ =~= b@);
    true
}

} // verus!
