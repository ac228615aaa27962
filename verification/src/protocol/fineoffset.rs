//! Fineoffset/Ecowitt framing shared by all their FSK sensors: 0xAA… preamble,
//! 0x2D 0xD4 sync word, then a family byte and payload, with CRC-8 (0x31) and
//! a byte sum. Bit rate 17.24 kbps.

use crate::bits::{extract_bytes, find_pattern, matches_at, spec_extract_bytes};
use vstd::prelude::*;

verus! {

/// 17 240 baud, in millibaud.
pub const SYMBOL_RATE_MILLIHZ: u64 = 17_240_000;

/// Last preamble byte plus the sync word; searched at any bit alignment.
pub open spec fn spec_preamble_sync() -> Seq<u8> {
    seq![0xaau8, 0x2du8, 0xd4u8]
}

/// Last preamble byte plus the sync word (`spec_preamble_sync`).
pub fn preamble_sync() -> (r: Vec<u8>)
    ensures
        r@ == spec_preamble_sync(),
{
    let mut v: Vec<u8> = Vec::new();
    v.push(0xaa);
    v.push(0x2d);
    v.push(0xd4);
    assert(v@ =~= spec_preamble_sync());
    v
}

/// Bit offsets just past every sync word that starts at or after `from`,
/// in increasing order.
pub open spec fn sync_ends_from(bits: Seq<bool>, from: int) -> Seq<int>
    decreases bits.len() - from,
{
    if from < 0 || from + 24 > bits.len() {
        Seq::<int>::empty()
    } else if matches_at(bits, spec_preamble_sync(), 24, from) {
        seq![from + 24] + sync_ends_from(bits, from + 1)
    } else {
        sync_ends_from(bits, from + 1)
    }
}

/// Bit offsets just past each sync word found in `bits`.
pub open spec fn spec_frame_starts(bits: Seq<bool>) -> Seq<int> {
    sync_ends_from(bits, 0)
}

/// Skipping offsets where no sync word starts changes nothing.
proof fn lemma_sync_ends_skip(bits: Seq<bool>, from: int, to: int)
    requires
        0 <= from <= to,
        forall|o: int| from <= o < to ==> !matches_at(bits, spec_preamble_sync(), 24, o),
    ensures
        sync_ends_from(bits, from) == sync_ends_from(bits, to),
    decreases to - from,
{
    if from < to {
        lemma_sync_ends_skip(bits, from + 1, to);
    }
}

/// Bit offsets just past each sync word found in `bits`. Later sync words
/// may belong to repeats of the same frame or to a second sensor's frame.
pub fn frame_starts(bits: &[bool]) -> (r: Vec<usize>)
    ensures
        r@.map_values(|x: usize| x as int) == spec_frame_starts(bits@),
{
    let pattern = preamble_sync();
    let mut out: Vec<usize> = Vec::new();
    let mut from: usize = 0;
    loop
        invariant
            pattern@ == spec_preamble_sync(),
            from <= bits.len() + 1,
            out@.map_values(|x: usize| x as int) + sync_ends_from(bits@, from as int) == spec_frame_starts(bits@),
        decreases bits.len() + 1 - from,
    {
        match find_pattern(bits, &pattern, 24, from) {
            Some(off) => {
                proof {
                    lemma_sync_ends_skip(bits@, from as int, off as int);
                    assert(sync_ends_from(bits@, off as int) == seq![off + 24] + sync_ends_from(bits@, off + 1));
                }
                let ghost before = out@.map_values(|x: usize| x as int);
                out.push(off + 24);
                proof {
                    assert(out@.map_values(|x: usize| x as int) =~= before.push(off + 24));
                    assert(before + sync_ends_from(bits@, off as int) =~= before.push(off + 24) + sync_ends_from(bits@, off + 1));
                }
                from = off + 1;
            },
            None => {
                proof {
                    let n = bits@.len() as int;
                    let end = if from as int > n { from as int } else { n };
                    lemma_sync_ends_skip(bits@, from as int, end);
                    assert(sync_ends_from(bits@, end) =~= Seq::<int>::empty());
                    assert(out@.map_values(|x: usize| x as int) =~= spec_frame_starts(bits@));
                }
                return out;
            },
        }
    }
}

/// The `n` bytes starting at a frame start, if the burst holds that many.
pub fn frame_bytes(bits: &[bool], start: usize, n: usize) -> (r: Option<Vec<u8>>)
    ensures
        match r {
            Some(v) => spec_extract_bytes(bits@, start as int, n as int) == Some(v@),
            None => spec_extract_bytes(bits@, start as int, n as int) is None,
        },
{
    extract_bytes(bits, start, n)
}

} // verus!
