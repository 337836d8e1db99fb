//! The mathematical vocabulary of the wire format: big-endian integers and
//! byte strings laid over a buffer.

use vstd::prelude::*;

verus! {

/// The 16-bit value whose big-endian form is `hi lo`.
pub open spec fn be16(hi: u8, lo: u8) -> u16 {
    (hi as int * 256 + lo as int) as u16
}

/// The 32-bit value whose big-endian form is `b0 b1 b2 b3`.
pub open spec fn be32(b0: u8, b1: u8, b2: u8, b3: u8) -> u32 {
    (b0 as int * 0x100_0000 + b1 as int * 0x1_0000 + b2 as int * 0x100 + b3 as int) as u32
}

/// The two bytes of `v`, most significant first.
pub open spec fn be16_bytes(v: u16) -> Seq<u8> {
    seq![(v / 256) as u8, (v % 256) as u8]
}

/// The four bytes of `v`, most significant first.
pub open spec fn be32_bytes(v: u32) -> Seq<u8> {
    seq![
        (v / 0x100_0000) as u8,
        ((v / 0x1_0000) % 256) as u8,
        ((v / 0x100) % 256) as u8,
        (v % 256) as u8,
    ]
}

/// `base` with `data` laid over it from index `at` on. Whatever part of
/// `data` would fall outside `base` is dropped.
pub open spec fn overlay(base: Seq<u8>, at: int, data: Seq<u8>) -> Seq<u8> {
    Seq::new(
        base.len(),
        |i: int|
            if at <= i < at + data.len() {
                data[i - at]
            } else {
                base[i]
            },
    )
}

/// `bytes` holds `data` from index `at` on.
pub open spec fn holds(bytes: Seq<u8>, at: int, data: Seq<u8>) -> bool {
    &&& 0 <= at
    &&& at + data.len() <= bytes.len()
    &&& forall|i: int| 0 <= i < data.len() ==> bytes[at + i] == #[trigger] data[i]
}

/// Laying two strings down one after the other is laying down their
/// concatenation.
pub proof fn lemma_overlay_twice(base: Seq<u8>, at: int, first: Seq<u8>, second: Seq<u8>)
    ensures
        overlay(overlay(base, at, first), at + first.len(), second) == overlay(
            base,
            at,
            first + second,
        ),
{
    assert(overlay(overlay(base, at, first), at + first.len(), second) =~= overlay(
        base,
        at,
        first + second,
    ));
}

/// A string that fits can be read back from where it was laid.
pub proof fn lemma_overlay_holds(base: Seq<u8>, at: int, data: Seq<u8>)
    requires
        0 <= at,
        at + data.len() <= base.len(),
    ensures
        holds(overlay(base, at, data), at, data),
{
}

/// A 16-bit number is put together again from its two bytes.
pub proof fn lemma_be16_round_trip(v: u16)
    ensures
        be16_bytes(v).len() == 2,
        be16(be16_bytes(v)[0], be16_bytes(v)[1]) == v,
{
}

} // verus!
