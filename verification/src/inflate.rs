//! The zlib inflater of the `flate2` crate, as far as the decoders rely on
//! it. Nothing in this file is proved: each contract states what the crate's
//! source shows. What the inflater makes of given bytes is not stated at all:
//! it has a name, [`inflate_step`], and the decoders' contracts speak of that
//! name.

use vstd::prelude::*;

verus! {

/// `flate2::Decompress`: an inflater that keeps its state from one call to
/// the next. Nothing inside it is visible here.
#[verifier::external_type_specification]
#[verifier::external_body]
pub struct ExDecompress(flate2::Decompress);

/// What `Decompress::total_in` reports: the number of input bytes that the
/// inflater has taken since it was made.
pub uninterp spec fn consumed_total(stream: flate2::Decompress) -> u64;

/// What `Decompress::total_out` reports: the number of output bytes that
/// the inflater has written since it was made.
pub uninterp spec fn produced_total(stream: flate2::Decompress) -> u64;

/// `Decompress::new` makes an inflater whose two counters stand at zero.
pub assume_specification[ flate2::Decompress::new ](zlib_header: bool) -> (stream:
    flate2::Decompress)
    ensures
        consumed_total(stream) == 0,
        produced_total(stream) == 0,
;

/// `Decompress::total_in` reads the input counter.
pub assume_specification[ flate2::Decompress::total_in ](stream: &flate2::Decompress) -> (total:
    u64)
    ensures
        total == consumed_total(*stream),
;

/// `Decompress::total_out` reads the output counter.
pub assume_specification[ flate2::Decompress::total_out ](stream: &flate2::Decompress) -> (total:
    u64)
    ensures
        total == produced_total(*stream),
;

/// How one call of the inflater ended.
#[derive(Clone, Copy, Debug, PartialEq, Eq, Structural)]
pub enum InflateStatus {
    /// The call went through; more input or more room may be needed.
    Progress,
    /// No progress was possible with this input and this room.
    Stalled,
    /// The stream came to its end.
    StreamEnd,
    /// The input is not a zlib stream.
    Corrupt,
}

/// What one call of the inflater does: how it ends, the bytes that it
/// writes, and the inflater after it.
pub struct InflateStep {
    pub status: InflateStatus,
    pub written: Seq<u8>,
    pub next: flate2::Decompress,
}

/// What `Decompress::decompress` without a flush does when an inflater in
/// the state `stream` is given `input` and `room` bytes of room. The inflater
/// looks at nothing else.
pub uninterp spec fn inflate_step(stream: flate2::Decompress, input: Seq<u8>, room: nat) -> InflateStep;

/// `Decompress::decompress` without a flush: the inflater takes bytes from
/// the front of `input` and writes bytes to the front of `output`.
///
/// The contract claims that the call does what [`inflate_step`] names for
/// the inflater, the input and the length of `output`: that is its status,
/// the inflater afterwards, and the bytes at the front of `output`, which
/// keeps its length. It claims further that the input counter grows by no
/// more than the bytes offered, and the output counter by the number of
/// bytes written, which is no more than the room offered. The counters must
/// have room to grow: the crate adds to them unchecked.
#[verifier::external_body]
pub(crate) fn inflate_into(
    stream: &mut flate2::Decompress,
    input: &[u8],
    output: &mut Vec<u8>,
) -> (status: InflateStatus)
    requires
        consumed_total(*old(stream)) + input@.len() <= u64::MAX,
        produced_total(*old(stream)) + old(output)@.len() <= u64::MAX,
    ensures
        status == inflate_step(*old(stream), input@, old(output)@.len()).status,
        *final(stream) == inflate_step(*old(stream), input@, old(output)@.len()).next,
        consumed_total(*old(stream)) <= consumed_total(*final(stream)) <= consumed_total(
            *old(stream),
        ) + input@.len(),
        produced_total(*final(stream)) == produced_total(*old(stream)) + inflate_step(
            *old(stream),
            input@,
            old(output)@.len(),
        ).written.len(),
        final(output)@.len() == old(output)@.len(),
        inflate_step(*old(stream), input@, old(output)@.len()).written.len() <= final(output)@.len(),
        final(output)@.subrange(
            0,
            inflate_step(*old(stream), input@, old(output)@.len()).written.len() as int,
        ) == inflate_step(*old(stream), input@, old(output)@.len()).written,
{
    match stream.decompress(input, output.as_mut_slice(), flate2::FlushDecompress::None) {
        Ok(flate2::Status::Ok) => InflateStatus::Progress,
        Ok(flate2::Status::BufError) => InflateStatus::Stalled,
        Ok(flate2::Status::StreamEnd) => InflateStatus::StreamEnd,
        Err(_) => InflateStatus::Corrupt,
    }
}

} // verus!
