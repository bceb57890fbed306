//! Transfer buffers, and the completions that bring them back from the bus.
//!
//! A [`Buffer`] belongs to the USB stack. What it holds is spoken of through three names:
//! its bytes, the number of bytes it has room for, and the number of bytes it requests when it
//! is submitted to an IN endpoint.
use nusb::transfer::{Buffer, TransferError};
use vstd::prelude::*;

verus! {

/// The USB stack's transfer buffer, a byte collection of fixed capacity.
#[verifier::external_type_specification]
#[verifier::external_body]
pub struct ExBuffer(Buffer);

/// The USB stack's reason for a failed transfer, carried through as it came.
#[verifier::external_type_specification]
#[verifier::external_body]
pub struct ExTransferError(TransferError);

/// The bytes that a buffer holds, in order.
pub uninterp spec fn buffer_bytes(buffer: Buffer) -> Seq<u8>;

/// The number of bytes that a buffer has room for. A buffer keeps the limit it was made with.
pub uninterp spec fn buffer_limit(buffer: Buffer) -> nat;

/// The number of bytes that a buffer asks for when an IN transfer is made with it.
pub uninterp spec fn buffer_requested(buffer: Buffer) -> nat;

/// `Buffer::new`: an empty buffer that requests `requested_len` bytes, with room for at least
/// as many.
#[verifier::external_body]
pub(crate) fn buffer_new(requested_len: usize) -> (buffer: Buffer)
    requires
        requested_len <= u32::MAX,
        requested_len <= isize::MAX,
    ensures
        buffer_bytes(buffer) == Seq::<u8>::empty(),
        buffer_requested(buffer) == requested_len,
        buffer_limit(buffer) >= requested_len,
{
    Buffer::new(requested_len)
}

/// `<Buffer as From<&[u8]>>::from`: a buffer that holds a copy of `data`, and requests as many
/// bytes.
#[verifier::external_body]
pub(crate) fn buffer_from_slice(data: &[u8]) -> (buffer: Buffer)
    requires
        data@.len() <= u32::MAX,
    ensures
        buffer_bytes(buffer) == data@,
        buffer_requested(buffer) == data@.len(),
        buffer_limit(buffer) >= data@.len(),
{
    Buffer::from(data)
}

/// `Buffer::len`: how many bytes the buffer holds.
#[verifier::external_body]
pub(crate) fn buffer_len(buffer: &Buffer) -> (len: usize)
    ensures
        len == buffer_bytes(*buffer).len(),
{
    buffer.len()
}

/// `Buffer::capacity`: how many bytes the buffer has room for, which is never less than it
/// holds.
#[verifier::external_body]
pub(crate) fn buffer_capacity(buffer: &Buffer) -> (capacity: usize)
    ensures
        capacity == buffer_limit(*buffer),
        capacity <= u32::MAX,
        buffer_bytes(*buffer).len() <= capacity,
{
    buffer.capacity()
}

/// `<Buffer as Deref>::deref`: the bytes that the buffer holds, as a slice.
#[verifier::external_body]
pub(crate) fn buffer_as_slice(buffer: &Buffer) -> (bytes: &[u8])
    ensures
        bytes@ == buffer_bytes(*buffer),
{
    buffer
}

/// `Buffer::clear`: leaves the buffer without bytes, with the room and the request it had.
#[verifier::external_body]
pub(crate) fn buffer_clear(buffer: &mut Buffer)
    ensures
        buffer_bytes(*final(buffer)) == Seq::<u8>::empty(),
        buffer_limit(*final(buffer)) == buffer_limit(*old(buffer)),
        buffer_requested(*final(buffer)) == buffer_requested(*old(buffer)),
{
    buffer.clear()
}

/// `Buffer::extend_from_slice`: appends `data`, for which there must be room.
#[verifier::external_body]
pub(crate) fn buffer_extend_from_slice(buffer: &mut Buffer, data: &[u8])
    requires
        buffer_bytes(*old(buffer)).len() + data@.len() <= buffer_limit(*old(buffer)),
    ensures
        buffer_bytes(*final(buffer)) == buffer_bytes(*old(buffer)) + data@,
        buffer_limit(*final(buffer)) == buffer_limit(*old(buffer)),
        buffer_requested(*final(buffer)) == buffer_requested(*old(buffer)),
{
    buffer.extend_from_slice(data)
}

/// `Buffer::extend_fill`: appends `len` times `value`, for which there must be room, and lends
/// out exactly the bytes it appended. What is written there is what the buffer then holds.
#[verifier::external_body]
pub(crate) fn buffer_extend_fill(buffer: &mut Buffer, len: usize, value: u8) -> (added: &mut [u8])
    requires
        buffer_bytes(*old(buffer)).len() + len <= buffer_limit(*old(buffer)),
    ensures
        added@ == Seq::new(len as nat, |i: int| value),
        final(added)@.len() == len,
        buffer_bytes(*final(buffer)) == buffer_bytes(*old(buffer)) + final(added)@,
        buffer_limit(*final(buffer)) == buffer_limit(*old(buffer)),
        buffer_requested(*final(buffer)) == buffer_requested(*old(buffer)),
{
    buffer.extend_fill(len, value)
}

/// A finished transfer: the buffer it was made with, how many bytes crossed the bus, and
/// whether it succeeded.
pub struct Completion {
    /// The transfer buffer; after an IN transfer it holds what was received.
    pub buffer: Buffer,
    /// The number of bytes transferred.
    pub actual_len: usize,
    /// Status of the transfer.
    pub status: Result<(), TransferError>,
}

/// What there is to say of a [`Completion`].
pub struct CompletionView {
    /// The bytes in the buffer.
    pub bytes: Seq<u8>,
    /// The number of bytes transferred.
    pub actual_len: usize,
    /// Status of the transfer.
    pub status: Result<(), TransferError>,
}

impl View for Completion {
    type V = CompletionView;

    open spec fn view(&self) -> CompletionView {
        CompletionView {
            bytes: buffer_bytes(self.buffer),
            actual_len: self.actual_len,
            status: self.status,
        }
    }
}

/// A completion is spoken of by the bytes in its buffer, and by the length and the status that it
/// came with.
pub proof fn law_completions_are_seen_as_they_are(completion: Completion)
    ensures
        completion@.bytes == buffer_bytes(completion.buffer),
        completion@.actual_len == completion.actual_len,
        completion@.status == completion.status,
{
}

} // verus!
