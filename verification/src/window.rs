//! Selection of a bounded byte window out of a larger byte sequence.
//!
//! A window is described by a starting offset and an optional length. The
//! window is clipped to the bytes that actually exist: an offset at or past
//! the end yields an empty window, and a length that reaches past the end is
//! shortened to what remains.

use vstd::prelude::*;

verus! {

/// A contiguous run of bytes together with the absolute offset it was taken
/// from within its source.
pub struct ByteWindow {
    /// Absolute offset of the first byte of `bytes` within the source.
    pub start: usize,
    /// The bytes of the window.
    pub bytes: Vec<u8>,
}

/// Offset of the first byte of the window: the requested offset, clipped to
/// the source length.
pub open spec fn window_start(source_len: nat, skip: nat) -> nat {
    if skip <= source_len {
        skip
    } else {
        source_len
    }
}

/// Number of bytes in the window: what remains past the start, further
/// clipped to the requested length when one is given.
pub open spec fn window_count(source_len: nat, skip: nat, length: Option<nat>) -> nat {
    let avail = (source_len - window_start(source_len, skip)) as nat;
    match length {
        None => avail,
        Some(l) => if l <= avail {
            l
        } else {
            avail
        },
    }
}

/// The bytes a window selects out of `source`.
pub open spec fn window_spec(source: Seq<u8>, skip: nat, length: Option<nat>) -> Seq<u8> {
    let start = window_start(source.len(), skip);
    let count = window_count(source.len(), skip, length);
    source.subrange(start as int, (start + count) as int)
}

/// View of an optional byte count as an optional mathematical count.
pub open spec fn length_view(length: Option<usize>) -> Option<nat> {
    match length {
        None => None,
        Some(l) => Some(l as nat),
    }
}

/// Where a window starts within a source of `source_len` bytes and how many
/// bytes it holds, for a read of at most `length` bytes (`None` meaning all
/// that remain) beginning `skip` bytes in.
pub fn window_bounds(source_len: usize, skip: usize, length: Option<usize>) -> (r: (usize, usize))
    ensures
        r.0 == window_start(source_len as nat, skip as nat),
        r.1 == window_count(source_len as nat, skip as nat, length_view(length)),
{
    let start: usize = if skip <= source_len {
        skip
    } else {
        source_len
    };
    let avail: usize = source_len - start;
    let count: usize = match length {
        None => avail,
        Some(l) => if l <= avail {
            l
        } else {
            avail
        },
    };
    (start, count)
}

/// Builds the window that a read of at most `length` bytes (`None` meaning
/// all that remain) beginning `skip` bytes into `source` selects. The window
/// is anchored at the requested offset even when that offset lies past the
/// end and the window is therefore empty.
pub fn extract_window(source: &[u8], skip: usize, length: Option<usize>) -> (w: ByteWindow)
    ensures
        w.start == skip,
        w.bytes@ == window_spec(source@, skip as nat, length_view(length)),
        w.start + w.bytes@.len() <= usize::MAX,
{
    let (start, count) = window_bounds(source.len(), skip, length);
    let mut bytes: Vec<u8> = Vec::new();
    let mut i: usize = 0;
    while i < count
        invariant
            start + count <= source@.len(),
            start + count <= usize::MAX,
            i <= count,
            bytes@ == source@.subrange(start as int, start + i),
        decreases count - i,
    {
        bytes.push(source[start + i]);
        i += 1;
        proof {
            assert(source@.subrange(start as int, start + i) =~= source@.subrange(
                start as int,
                start + i - 1,
            ).push(source@[start + i - 1]));
        }
    }
    ByteWindow { start: skip, bytes }
}

/// An offset at or past the end of the source always selects the empty
/// window, whatever length is requested.
pub proof fn lemma_window_past_end_is_empty(source: Seq<u8>, skip: nat, length: Option<nat>)
    requires
        skip >= source.len(),
    ensures
        window_spec(source, skip, length) == Seq::<u8>::empty(),
{
    assert(window_spec(source, skip, length) =~= Seq::<u8>::empty());
}

} // verus!
