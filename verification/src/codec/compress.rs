//! Entropy coding of byte streams.
use crate::codec::BufferList;
use crate::result::{Error, Result};
use vstd::prelude::*;

verus! {

/// The entropy coder and its level.
#[derive(PartialEq, Eq, Structural, Copy, Clone, Debug)]
pub enum Compress {
    Zstd(i32),
}

/// The Zstandard frame that `zstd::stream::copy_encode` writes for `data` at `level`.
pub uninterp spec fn zstd_frame(data: Seq<u8>, level: i32) -> Seq<u8>;

/// The bytes that `zstd::stream::copy_decode` writes for the Zstandard frames `frames`.
pub uninterp spec fn zstd_content(frames: Seq<u8>) -> Seq<u8>;

/// Whether `zstd::stream::copy_encode` succeeds on `data` at `level`.
pub uninterp spec fn zstd_encodes(data: Seq<u8>, level: i32) -> bool;

/// Whether `zstd::stream::copy_decode` succeeds on `frames`: whether they are Zstandard
/// frames that can be decoded.
pub uninterp spec fn zstd_decodes(frames: Seq<u8>) -> bool;

/// `zstd::stream::copy_encode`: whether it succeeds is a matter of `data` and `level`
/// alone. Where it does, it has appended to `out` the frame for `data`, and that frame is
/// one that can be decoded, and decodes to `data` again (Zstandard is lossless).
#[verifier::external_body]
fn zstd_encode(data: &[u8], level: i32, out: &mut Vec<u8>) -> (r: core::result::Result<
    (),
    std::io::Error,
>)
    ensures
        r is Ok <==> zstd_encodes(data@, level),
        r is Ok ==> final(out)@ == old(out)@ + zstd_frame(data@, level),
        r is Ok ==> zstd_decodes(zstd_frame(data@, level)),
        r is Ok ==> zstd_content(zstd_frame(data@, level)) == data@,
{
    zstd::stream::copy_encode(data, out, level)
}

/// `zstd::stream::copy_decode`: whether it succeeds is a matter of `data` alone. Where it
/// does, it has appended to `out` what the frames in `data` hold.
#[verifier::external_body]
fn zstd_decode(data: &[u8], out: &mut Vec<u8>) -> (r: core::result::Result<(), std::io::Error>)
    ensures
        r is Ok <==> zstd_decodes(data@),
        r is Ok ==> final(out)@ == old(out)@ + zstd_content(data@),
{
    zstd::stream::copy_decode(data, out)
}

impl Compress {
    /// The level that the coder works at.
    pub open spec fn level(self) -> i32 {
        match self {
            Compress::Zstd(level) => level,
        }
    }

    /// The frames for the buffers of `data`, one for each.
    pub open spec fn encoded(self, data: Seq<Seq<u8>>) -> Seq<Seq<u8>> {
        Seq::new(data.len(), |i: int| zstd_frame(data[i], self.level()))
    }

    /// What the frames of `data` hold, buffer by buffer.
    pub open spec fn decoded(data: Seq<Seq<u8>>) -> Seq<Seq<u8>> {
        Seq::new(data.len(), |i: int| zstd_content(data[i]))
    }

    /// Whether the coder codes every buffer of `data`.
    pub open spec fn encodes(self, data: Seq<Seq<u8>>) -> bool {
        forall|i: int| 0 <= i < data.len() ==> zstd_encodes(#[trigger] data[i], self.level())
    }

    /// Whether every buffer of `data` is frames that the coder decodes.
    pub open spec fn decodes(data: Seq<Seq<u8>>) -> bool {
        forall|i: int| 0 <= i < data.len() ==> zstd_decodes(#[trigger] data[i])
    }

    /// Codes every buffer of `data` into the buffer of `out` at the same place.
    ///
    /// It succeeds exactly where the coder codes every buffer. Then `out` holds the frames,
    /// and they are frames that the coder decodes, to `data`. Where it does not succeed,
    /// the error is [`Error::Io`].
    pub fn encode(&self, data: &BufferList, out: &mut BufferList) -> (r: Result<()>)
        requires
            data.wf(),
            old(out).wf(),
        ensures
            final(out).wf(),
            r is Ok ==> final(out)@ == self.encoded(data@),
            r is Ok ==> Self::decoded(final(out)@) == data@,
            r is Err ==> r == Err::<(), Error>(Error::Io),
            r is Ok <==> self.encodes(data@),
            r is Ok ==> Self::decodes(final(out)@),
    {
        let n = data.len();
        let level = match self {
            Compress::Zstd(level) => *level,
        };
        out.reset(n);
        let mut i: usize = 0;
        while i < n
            invariant
                data.wf(),
                out.wf(),
                n == data@.len(),
                out@.len() == n,
                level == self.level(),
                i <= n,
                forall|j: int| i <= j < n ==> (#[trigger] out@[j]).len() == 0,
                forall|j: int| 0 <= j < i ==> #[trigger] out@[j] == zstd_frame(data@[j], level),
                forall|j: int| 0 <= j < i ==> zstd_content(#[trigger] out@[j]) == data@[j],
                forall|j: int| 0 <= j < i ==> zstd_decodes(#[trigger] out@[j]),
                forall|j: int| 0 <= j < i ==> zstd_encodes(#[trigger] data@[j], level),
            decreases n - i,
        {
            let input = data.get(i);
            let slot = out.slot(i);
            let done = zstd_encode(input.as_slice(), level, slot);
            if done.is_err() {
                assert(!zstd_encodes(data@[i as int], level));
                return Err(Error::Io);
            }
            assert(out@[i as int] =~= zstd_frame(data@[i as int], level));
            i = i + 1;
        }
        assert(out@ =~= self.encoded(data@));
        assert(Self::decoded(out@) =~= data@);
        Ok(())
    }

    /// Decodes every buffer of `data` into the buffer of `out` at the same place.
    ///
    /// It succeeds exactly where every buffer is frames that the coder decodes. Then `out`
    /// holds what the frames hold. Where it does not succeed, the error is [`Error::Io`].
    pub fn decode(&self, data: &BufferList, out: &mut BufferList) -> (r: Result<()>)
        requires
            data.wf(),
            old(out).wf(),
        ensures
            final(out).wf(),
            r is Ok ==> final(out)@ == Self::decoded(data@),
            r is Err ==> r == Err::<(), Error>(Error::Io),
            r is Ok <==> Self::decodes(data@),
    {
        let n = data.len();
        out.reset(n);
        let mut i: usize = 0;
        while i < n
            invariant
                data.wf(),
                out.wf(),
                n == data@.len(),
                out@.len() == n,
                i <= n,
                forall|j: int| i <= j < n ==> (#[trigger] out@[j]).len() == 0,
                forall|j: int| 0 <= j < i ==> #[trigger] out@[j] == zstd_content(data@[j]),
                forall|j: int| 0 <= j < i ==> zstd_decodes(#[trigger] data@[j]),
            decreases n - i,
        {
            let input = data.get(i);
            let slot = out.slot(i);
            let done = zstd_decode(input.as_slice(), slot);
            if done.is_err() {
                assert(!zstd_decodes(data@[i as int]));
                return Err(Error::Io);
            }
            assert(out@[i as int] =~= zstd_content(data@[i as int]));
            i = i + 1;
        }
        assert(out@ =~= Self::decoded(data@));
        Ok(())
    }
}

} // verus!
