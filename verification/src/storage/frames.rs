//! Byte strings one after the other, each behind its length, and how they are read.

use crate::storage::fixed::{le_bytes, le_value, lemma_le_bytes_len, lemma_le_roundtrip, pow256};
use vstd::prelude::*;

verus! {

/// The byte strings that a reader finds who reads a length of so many bytes, then as many bytes as
/// it says, and so on to the end, or to where the bytes do not suffice.
pub open spec fn read_frames(s: Seq<u8>, width: nat) -> Seq<Seq<u8>>
    decreases s.len(),
{
    if width == 0 || s.len() < width {
        Seq::empty()
    } else {
        let n = le_value(s.take(width as int));
        if s.len() < width + n {
            Seq::empty()
        } else {
            seq![s.subrange(width as int, (width + n) as int)] + read_frames(
                s.skip((width + n) as int),
                width,
            )
        }
    }
}

/// A byte string behind its length is the first that is read.
pub proof fn lemma_read_frame(x: Seq<u8>, rest: Seq<u8>, width: nat)
    requires
        width > 0,
        x.len() < pow256(width),
    ensures
        read_frames(le_bytes(x.len(), width) + x + rest, width) == seq![x] + read_frames(
            rest,
            width,
        ),
{
    let s = le_bytes(x.len(), width) + x + rest;
    lemma_le_bytes_len(x.len(), width);
    lemma_le_roundtrip(x.len(), width);
    assert(s.take(width as int) =~= le_bytes(x.len(), width));
    assert(s.subrange(width as int, (width + x.len()) as int) =~= x);
    assert(s.skip((width + x.len()) as int) =~= rest);
}

} // verus!
