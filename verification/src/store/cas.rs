//! Content-addressed blobs. Write-once, keyed by their blake3 hash.

use crate::identity::blake3_of;
use crate::identity::hex_of;
use crate::identity::law_hex_round_trip;
use crate::identity::lemma_digest_is_its_bytes;
use crate::identity::lemma_digest_len;
use crate::identity::lemma_hex_chars;
use crate::identity::lemma_hex_len;
use crate::identity::Digest;
use crate::store::law_places_differ;
use crate::store::place;
use crate::store::placed;
use crate::store::StoreError;
use vstd::prelude::*;

verus! {

/// Where blobs are kept.
pub struct ContentStore {
    pub root: String,
}

/// Bytes on their way into the store: their digest, and the file that holds them. Where that file
/// is there already, it holds these bytes, and nothing is written.
pub struct Blob {
    pub digest: Digest,
    pub path: String,
}

/// The file of a blob.
pub open spec fn blob_path(root: Seq<char>, d: Seq<u8>) -> Seq<char> {
    placed(root, hex_of(d), Seq::empty())
}

impl ContentStore {
    pub fn open(root: &str) -> (r: Self)
        ensures
            r.root@ == root@,
    {
        ContentStore { root: root.to_owned() }
    }

    /// The file of a blob.
    pub fn path_of(&self, d: &Digest) -> (r: String)
        ensures
            r@ == blob_path(self.root@, d@),
    {
        proof {
            lemma_digest_len(*d);
            lemma_hex_len(d@);
            reveal_strlit("");
            assert(""@ =~= Seq::<char>::empty());
        }
        place(self.root.as_str(), d.hex().as_str(), "")
    }

    /// Bytes on their way into the store.
    pub fn put(&self, bytes: &[u8]) -> (r: Blob)
        ensures
            r.digest@ == blake3_of(bytes@),
            r.path@ == blob_path(self.root@, r.digest@),
    {
        let digest = Digest::of(bytes);
        let path = self.path_of(&digest);
        Blob { digest, path }
    }

    /// A blob that is not there.
    pub fn missing(&self, d: &Digest) -> (r: StoreError)
        ensures
            r matches StoreError::Missing(s) && s@ == hex_of(d@).take(12),
    {
        StoreError::Missing(d.short())
    }
}

/// The file of a blob belongs to that blob alone: what was put is not overwritten by anything else
/// that is put, so a read by digest gives back what was written under it.
pub proof fn law_a_blob_has_its_file_to_itself(root: Seq<char>, a: Digest, b: Digest)
    requires
        blob_path(root, a@) == blob_path(root, b@),
    ensures
        a == b,
{
    lemma_digest_len(a);
    lemma_digest_len(b);
    lemma_hex_len(a@);
    lemma_hex_len(b@);
    lemma_no_slash(a@);
    lemma_no_slash(b@);
    law_places_differ(root, hex_of(a@), hex_of(b@), Seq::empty());
    law_hex_round_trip(a@);
    law_hex_round_trip(b@);
    lemma_digest_is_its_bytes(a, b);
}

proof fn lemma_no_slash(b: Seq<u8>)
    requires
        b.len() == 32,
    ensures
        hex_of(b)[1] != '/',
{
    lemma_hex_chars(b, 0);
}

} // verus!
