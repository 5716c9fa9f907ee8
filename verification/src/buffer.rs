//! The ring buffer of the `circular` crate that holds the bytes read but not yet parsed.

use circular::Buffer;
use std::io::Write;
use vstd::prelude::*;

verus! {

#[verifier::external_type_specification]
#[verifier::external_body]
pub struct ExBuffer(Buffer);

/// The bytes that a buffer holds for reading (what `Buffer::data` returns).
pub uninterp spec fn buffer_data(b: Buffer) -> Seq<u8>;

/// The size a buffer was made with or grown to (what `Buffer::capacity` returns).
pub uninterp spec fn buffer_capacity(b: Buffer) -> nat;

/// The room left behind the data for writing (what `Buffer::available_space` returns).
pub uninterp spec fn buffer_space(b: Buffer) -> nat;

/// `Buffer::with_capacity`: an empty buffer of the given size, all of it free.
#[verifier::external_body]
pub(crate) fn buffer_with_capacity(capacity: usize) -> (res: Buffer)
    ensures
        buffer_data(res) == Seq::<u8>::empty(),
        buffer_capacity(res) == capacity,
        buffer_space(res) == capacity,
{
    Buffer::with_capacity(capacity)
}

/// `Buffer::data`: the readable bytes.
#[verifier::external_body]
pub(crate) fn buffer_data_slice(b: &Buffer) -> (res: &[u8])
    ensures
        res@ == buffer_data(*b),
{
    b.data()
}

/// `Buffer::available_data`: how many bytes can be read.
#[verifier::external_body]
pub(crate) fn buffer_available_data(b: &Buffer) -> (res: usize)
    ensures
        res == buffer_data(*b).len(),
{
    b.available_data()
}

/// `Buffer::available_space`: how many bytes can be written.
#[verifier::external_body]
pub(crate) fn buffer_available_space(b: &Buffer) -> (res: usize)
    ensures
        res == buffer_space(*b),
{
    b.available_space()
}

/// `Buffer::capacity`: the size of the buffer.
#[verifier::external_body]
pub(crate) fn buffer_capacity_of(b: &Buffer) -> (res: usize)
    ensures
        res == buffer_capacity(*b),
{
    b.capacity()
}

/// `Buffer::consume`: drops the first `count` readable bytes, or all of them
/// if there are fewer, and returns how many it dropped; it does not panic.
/// When the read position (the size less the free space and the data left)
/// then lies past half the size, the data left moves to the front of the
/// memory and the free space becomes the size less that data; otherwise the
/// free space stays.
#[verifier::external_body]
pub(crate) fn buffer_consume(b: &mut Buffer, count: usize) -> (res: usize)
    ensures
        res == if count <= buffer_data(*old(b)).len() {
            count as int
        } else {
            buffer_data(*old(b)).len() as int
        },
        buffer_data(*final(b)) == buffer_data(*old(b)).skip(res as int),
        buffer_capacity(*final(b)) == buffer_capacity(*old(b)),
        buffer_space(*final(b)) == if buffer_capacity(*old(b)) - buffer_space(*old(b))
            - buffer_data(*final(b)).len() > buffer_capacity(*old(b)) / 2 {
            buffer_capacity(*old(b)) - buffer_data(*final(b)).len()
        } else {
            buffer_space(*old(b)) as int
        },
        buffer_data(*final(b)).len() + buffer_space(*final(b)) <= buffer_capacity(*final(b)),
    no_unwind
{
    b.consume(count)
}

/// `Buffer::grow`: enlarges the buffer to `new_size` when that is more than
/// its size, and says whether it did; the data and its place stay. The
/// memory is resized with `Vec::resize`, which panics past `isize::MAX`
/// bytes; up to that size it does not panic (a failed allocation aborts).
#[verifier::external_body]
pub(crate) fn buffer_grow(b: &mut Buffer, new_size: usize) -> (res: bool)
    requires
        new_size <= isize::MAX,
    ensures
        res == (buffer_capacity(*old(b)) < new_size),
        buffer_data(*final(b)) == buffer_data(*old(b)),
        res ==> buffer_capacity(*final(b)) == new_size,
        res ==> buffer_space(*final(b)) == buffer_space(*old(b)) + (new_size - buffer_capacity(
            *old(b),
        )),
        !res ==> buffer_capacity(*final(b)) == buffer_capacity(*old(b)),
        !res ==> buffer_space(*final(b)) == buffer_space(*old(b)),
    no_unwind
{
    b.grow(new_size)
}

/// `Buffer`'s `Write::write`: copies as many leading bytes of `bytes` as the
/// free space takes behind the data and returns how many; it neither fails
/// nor panics.
/// When the free space left is then less than the data plus the bytes
/// written, the data moves to the front of the memory and the free space
/// becomes the size less the data; otherwise it is what was left.
#[verifier::external_body]
pub(crate) fn buffer_write(b: &mut Buffer, bytes: &[u8]) -> (res: usize)
    ensures
        res == if bytes@.len() <= buffer_space(*old(b)) {
            bytes@.len() as int
        } else {
            buffer_space(*old(b)) as int
        },
        buffer_data(*final(b)) == buffer_data(*old(b)) + bytes@.take(res as int),
        buffer_capacity(*final(b)) == buffer_capacity(*old(b)),
        buffer_space(*final(b)) == if buffer_space(*old(b)) - res < buffer_data(*final(b)).len()
            + res {
            buffer_capacity(*old(b)) - buffer_data(*final(b)).len()
        } else {
            buffer_space(*old(b)) - res
        },
        buffer_data(*final(b)).len() + buffer_space(*final(b)) <= buffer_capacity(*final(b)),
    no_unwind
{
    match b.write(bytes) {
        Ok(n) => n,
        Err(_) => 0,
    }
}

} // verus!
