//! Chunks: byte strings that an archive keeps under a name made from what they hold.
use base64::Engine;
use sha1::Digest;
use vstd::prelude::*;

verus! {

/// The SHA-1 digest of `data`, as `sha1::Sha1::digest` computes it.
pub uninterp spec fn sha1_of(data: Seq<u8>) -> Seq<u8>;

/// `sha1::Sha1::digest`: the digest of `data`, which is twenty bytes long.
#[verifier::external_body]
fn sha1_digest(data: &[u8]) -> (d: Vec<u8>)
    ensures
        d@ == sha1_of(data@),
        d@.len() == 20,
{
    sha1::Sha1::digest(data).to_vec()
}

/// The text that the URL-safe, padded base64 engine of the `base64` crate makes of `bytes`.
pub uninterp spec fn base64_url_of(bytes: Seq<u8>) -> Seq<char>;

/// `Engine::encode` of `base64::prelude::BASE64_URL_SAFE`. Input so long that the length of
/// the text would not fit in a `usize` is left out.
#[verifier::external_body]
fn base64_url(bytes: &[u8]) -> (text: String)
    requires
        bytes@.len() <= 0x3000_0000,
    ensures
        text@ == base64_url_of(bytes@),
{
    base64::prelude::BASE64_URL_SAFE.encode(bytes)
}

/// The identifier of the chunk that holds `payload`: its digest, as text.
pub open spec fn chunk_id_of(payload: Seq<u8>) -> Seq<char> {
    base64_url_of(sha1_of(payload))
}

/// The identifier of the chunk that holds `payload`.
pub fn chunk_id(payload: &[u8]) -> (id: String)
    ensures
        id@ == chunk_id_of(payload@),
{
    let digest = sha1_digest(payload);
    base64_url(digest.as_slice())
}

/// A chunk that is to be written to the archive.
#[derive(Clone, Debug, PartialEq, Eq)]
pub struct ChunkWrite {
    /// The identifier of the chunk.
    pub id: String,
    /// What the chunk holds.
    pub data: Vec<u8>,
    /// Whether the container is to deflate the chunk, which it does for chunks that no
    /// stage has worked on, or to store it as it is.
    pub deflate: bool,
}

/// Whether no two of the identifiers are the same.
pub open spec fn distinct(ids: Seq<String>) -> bool {
    forall|i: int, j: int| 0 <= i < j < ids.len() ==> (#[trigger] ids[i])@ != (#[trigger] ids[j])@
}

/// Whether `id` is among the identifiers.
pub open spec fn known(ids: Seq<String>, id: Seq<char>) -> bool {
    exists|i: int| 0 <= i < ids.len() && (#[trigger] ids[i])@ == id
}

/// Whether `id` is among the identifiers.
pub fn is_known(ids: &Vec<String>, id: &String) -> (b: bool)
    ensures
        b == known(ids@, id@),
{
    let mut i: usize = 0;
    while i < ids.len()
        invariant
            i <= ids@.len(),
            forall|j: int| 0 <= j < i ==> (#[trigger] ids@[j])@ != id@,
        decreases ids@.len() - i,
    {
        if ids[i] == *id {
            return true;
        }
        i = i + 1;
    }
    false
}

} // verus!
