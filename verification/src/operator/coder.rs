//! Streaming coders, and what passes through them.
use crate::executor::lemma_prefix_of_prefix;
use crate::result::{Error, Result};
use std::io::Write;
use vstd::prelude::*;

verus! {

/// A streaming Zstandard encoder that writes to a buffer of its own.
#[verifier::external_body]
pub struct ZstdEncoder {
    inner: zstd::stream::write::Encoder<'static, Vec<u8>>,
}

/// A streaming Zstandard decoder that writes to a buffer of its own.
#[verifier::external_body]
pub struct ZstdDecoder {
    inner: zstd::stream::write::Decoder<'static, Vec<u8>>,
}

/// What the buffer of an encoder holds.
pub uninterp spec fn encoder_holds(e: ZstdEncoder) -> Seq<u8>;

/// What the buffer of a decoder holds.
pub uninterp spec fn decoder_holds(d: ZstdDecoder) -> Seq<u8>;

/// `zstd::stream::write::Encoder::new`, over an empty buffer.
#[verifier::external_body]
fn encoder_new(level: i32) -> (r: core::result::Result<ZstdEncoder, std::io::Error>)
    ensures
        r matches Ok(e) ==> encoder_holds(e).len() == 0,
{
    zstd::stream::write::Encoder::new(Vec::new(), level).map(|inner| ZstdEncoder { inner })
}

/// `Write::write_all` of the encoder: takes `data` in. The encoder only ever writes behind
/// what its buffer holds; what it writes is its business.
#[verifier::external_body]
fn encoder_write(e: &mut ZstdEncoder, data: &[u8]) -> (r: core::result::Result<(), std::io::Error>)
    ensures
        encoder_holds(*old(e)).is_prefix_of(encoder_holds(*final(e))),
{
    e.inner.write_all(data)
}

/// `Write::flush` of the encoder: it writes behind what its buffer holds.
#[verifier::external_body]
fn encoder_flush(e: &mut ZstdEncoder) -> (r: core::result::Result<(), std::io::Error>)
    ensures
        encoder_holds(*old(e)).is_prefix_of(encoder_holds(*final(e))),
{
    e.inner.flush()
}

/// `Encoder::do_finish`: ends the frame, writing behind what the buffer holds.
#[verifier::external_body]
fn encoder_finish(e: &mut ZstdEncoder) -> (r: core::result::Result<(), std::io::Error>)
    ensures
        encoder_holds(*old(e)).is_prefix_of(encoder_holds(*final(e))),
{
    e.inner.do_finish()
}

/// `Encoder::get_ref`, for the length of the buffer.
#[verifier::external_body]
fn encoder_held(e: &ZstdEncoder) -> (n: usize)
    ensures
        n == encoder_holds(*e).len(),
{
    e.inner.get_ref().len()
}

/// `Encoder::get_mut`, to swap the buffer with `out`.
#[verifier::external_body]
fn encoder_swap(e: &mut ZstdEncoder, out: &mut Vec<u8>)
    ensures
        final(out)@ == encoder_holds(*old(e)),
        encoder_holds(*final(e)) == old(out)@,
{
    core::mem::swap(e.inner.get_mut(), out)
}

/// `zstd::stream::write::Decoder::new`, over an empty buffer.
#[verifier::external_body]
fn decoder_new() -> (r: core::result::Result<ZstdDecoder, std::io::Error>)
    ensures
        r matches Ok(d) ==> decoder_holds(d).len() == 0,
{
    zstd::stream::write::Decoder::new(Vec::new()).map(|inner| ZstdDecoder { inner })
}

/// `Write::write_all` of the decoder: takes `data` in. The decoder only ever writes behind
/// what its buffer holds; what it writes is its business.
#[verifier::external_body]
fn decoder_write(d: &mut ZstdDecoder, data: &[u8]) -> (r: core::result::Result<(), std::io::Error>)
    ensures
        decoder_holds(*old(d)).is_prefix_of(decoder_holds(*final(d))),
{
    d.inner.write_all(data)
}

/// `Write::flush` of the decoder: it writes behind what its buffer holds.
#[verifier::external_body]
fn decoder_flush(d: &mut ZstdDecoder) -> (r: core::result::Result<(), std::io::Error>)
    ensures
        decoder_holds(*old(d)).is_prefix_of(decoder_holds(*final(d))),
{
    d.inner.flush()
}

/// `Decoder::get_ref`, for the length of the buffer.
#[verifier::external_body]
fn decoder_held(d: &ZstdDecoder) -> (n: usize)
    ensures
        n == decoder_holds(*d).len(),
{
    d.inner.get_ref().len()
}

/// `Decoder::get_mut`, to swap the buffer with `out`.
#[verifier::external_body]
fn decoder_swap(d: &mut ZstdDecoder, out: &mut Vec<u8>)
    ensures
        final(out)@ == decoder_holds(*old(d)),
        decoder_holds(*final(d)) == old(out)@,
{
    core::mem::swap(d.inner.get_mut(), out)
}

/// The coder behind a [`Coder`].
enum Works {
    Encode(ZstdEncoder),
    Decode(ZstdDecoder),
}

/// A streaming coder, with a record of what has passed through it: the bytes that it was
/// fed with success, the bytes that it has given, and whether its stream was ended.
///
/// The record is kept by the functions of this type and by nothing else, so that what
/// uses a coder can only show that it was fed by feeding it.
pub struct Coder {
    works: Works,
    fed: Ghost<Seq<u8>>,
    given: Ghost<Seq<u8>>,
    done: Ghost<bool>,
}

impl Coder {
    /// What the coder has written and not given yet.
    pub closed spec fn holds(self) -> Seq<u8> {
        match self.works {
            Works::Encode(e) => encoder_holds(e),
            Works::Decode(d) => decoder_holds(d),
        }
    }

    /// Whether the coder encodes.
    pub closed spec fn encodes(self) -> bool {
        self.works is Encode
    }

    /// The bytes that the coder was fed, one call after the other.
    pub closed spec fn fed(self) -> Seq<u8> {
        self.fed@
    }

    /// The bytes that the coder has given, one call after the other.
    pub closed spec fn given(self) -> Seq<u8> {
        self.given@
    }

    /// Whether the stream of the coder was ended.
    pub closed spec fn finished(self) -> bool {
        self.done@
    }

    /// Whether nothing has passed through the coder yet.
    pub open spec fn fresh(self) -> bool {
        self.holds().len() == 0 && self.fed().len() == 0 && self.given().len() == 0
            && !self.finished()
    }

    /// A coder that encodes at `level`, through which nothing has passed.
    pub fn encoder(level: i32) -> (r: Result<Self>)
        ensures
            r matches Ok(c) ==> c.fresh() && c.encodes(),
            r is Err ==> r matches Err(Error::Io),
    {
        match encoder_new(level) {
            Ok(e) => Ok(
                Coder {
                    works: Works::Encode(e),
                    fed: Ghost(Seq::empty()),
                    given: Ghost(Seq::empty()),
                    done: Ghost(false),
                },
            ),
            Err(_) => Err(Error::Io),
        }
    }

    /// A coder that decodes, through which nothing has passed.
    pub fn decoder() -> (r: Result<Self>)
        ensures
            r matches Ok(c) ==> c.fresh() && !c.encodes(),
            r is Err ==> r matches Err(Error::Io),
    {
        match decoder_new() {
            Ok(d) => Ok(
                Coder {
                    works: Works::Decode(d),
                    fed: Ghost(Seq::empty()),
                    given: Ghost(Seq::empty()),
                    done: Ghost(false),
                },
            ),
            Err(_) => Err(Error::Io),
        }
    }

    /// Feeds `data` to the coder, and takes note of it where the coder takes it. With no
    /// data there is nothing to feed: the coder is left as it is, and the call succeeds.
    /// Whether it takes other data is the coder's to say. What the coder held stays, and
    /// what it writes comes behind it.
    pub fn write_all(&mut self, data: &[u8]) -> (r: Result<()>)
        ensures
            r is Err ==> r matches Err(Error::Io),
            data@.len() == 0 ==> r is Ok && *final(self) == *old(self),
            old(self).holds().is_prefix_of(final(self).holds()),
            final(self).encodes() == old(self).encodes(),
            r is Ok ==> final(self).fed() == old(self).fed() + data@,
            r is Err ==> final(self).fed() == old(self).fed(),
            final(self).given() == old(self).given(),
            final(self).finished() == old(self).finished(),
    {
        if data.len() == 0 {
            assert(self.fed@ + data@ =~= self.fed@);
            return Ok(());
        }
        let done = match &mut self.works {
            Works::Encode(e) => encoder_write(e, data),
            Works::Decode(d) => decoder_write(d, data),
        };
        match done {
            Ok(()) => {
                self.fed = Ghost(self.fed@ + data@);
                Ok(())
            },
            Err(_) => Err(Error::Io),
        }
    }

    /// Ends the stream: an encoder ends its frame, a decoder writes what it has left. The
    /// end is taken note of where the coder makes it. What the coder held stays, and what
    /// it writes comes behind it.
    pub fn finish(&mut self) -> (r: Result<()>)
        ensures
            r is Err ==> r matches Err(Error::Io),
            old(self).holds().is_prefix_of(final(self).holds()),
            final(self).encodes() == old(self).encodes(),
            final(self).fed() == old(self).fed(),
            final(self).given() == old(self).given(),
            r is Ok ==> final(self).finished(),
            r is Err ==> final(self).finished() == old(self).finished(),
    {
        let ghost held = self.holds();
        let done = match &mut self.works {
            Works::Encode(e) => {
                match encoder_flush(e) {
                    Ok(()) => {
                        let ghost mid = encoder_holds(*e);
                        let r = encoder_finish(e);
                        proof {
                            lemma_prefix_of_prefix(held, mid, encoder_holds(*e));
                        }
                        r
                    },
                    Err(e) => Err(e),
                }
            },
            Works::Decode(d) => decoder_flush(d),
        };
        match done {
            Ok(()) => {
                self.done = Ghost(true);
                Ok(())
            },
            Err(_) => Err(Error::Io),
        }
    }

    /// The number of bytes that the coder has written and not given yet.
    pub fn len(&self) -> (n: usize)
        ensures
            n == self.holds().len(),
    {
        match &self.works {
            Works::Encode(e) => encoder_held(e),
            Works::Decode(d) => decoder_held(d),
        }
    }

    /// Gives what the coder has written in exchange for the empty `out`, and takes note of
    /// what was given.
    pub fn give(&mut self, out: &mut Vec<u8>)
        requires
            old(out)@.len() == 0,
        ensures
            final(out)@ == old(self).holds(),
            final(self).holds().len() == 0,
            final(self).given() == old(self).given() + old(self).holds(),
            final(self).fed() == old(self).fed(),
            final(self).finished() == old(self).finished(),
            final(self).encodes() == old(self).encodes(),
    {
        let ghost held = self.holds();
        match &mut self.works {
            Works::Encode(e) => encoder_swap(e, out),
            Works::Decode(d) => decoder_swap(d, out),
        }
        self.given = Ghost(self.given@ + held);
    }
}

/// Whether none of the coders holds anything.
pub open spec fn none_holds(coders: Seq<Coder>) -> bool {
    forall|i: int| 0 <= i < coders.len() ==> (#[trigger] coders[i]).holds().len() == 0
}

/// Whether nothing has passed through any of the coders yet.
pub open spec fn all_fresh(coders: Seq<Coder>) -> bool {
    forall|i: int| 0 <= i < coders.len() ==> (#[trigger] coders[i]).fresh()
}

} // verus!
