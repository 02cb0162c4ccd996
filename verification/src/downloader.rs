//! The downloader: fetch every chunk of a file from a list of seeders,
//! verify each against the digest its response claims, and put the file
//! back together under the whole-file digest.
//!
//! The transport promises nothing, so the contracts here are conditional
//! on what actually arrived: whenever a response decodes to a current
//! chunk answer, it is accepted exactly when its own digest agrees with
//! its bytes — a disagreeing response is rejected — and the assembled
//! file is returned only under the expected whole-file digest.

use vstd::prelude::*;
use crate::error::Error;
use crate::hashing::{ContentHash, digest_of, hash_bytes, hash_eq, hash_from_slice, hash_to_hex};
use crate::chunk::concat_of;
use crate::proto;
use crate::proto::{Envelope, EnvelopeV, Payload, PayloadV};
use crate::seeder::{ChunkSlot, ChunkSlotV, find_chunk_in, enc_env};
use crate::transport::{NymAddress, Transport};
use crate::types::FileMetadata;

verus! {

/// Progress of one download: what is expected and what has arrived.
pub struct DownloadState {
    pub content_hash: ContentHash,
    pub total_chunks: u32,
    pub received_chunks: Vec<ChunkSlot>,
    pub seeders: Vec<NymAddress>,
}

/// Whether a chunk index has arrived.
pub open spec fn has_received(chunks: Seq<ChunkSlotV>, i: u32) -> bool {
    find_chunk_in(chunks, i) is Some
}

impl DownloadState {
    /// A fresh download expecting the given digest and chunk count.
    pub fn new(content_hash: ContentHash, total_chunks: u32) -> (r: DownloadState)
        ensures
            r.content_hash@ == content_hash@,
            r.total_chunks == total_chunks,
            r.received_chunks.deep_view() == Seq::<ChunkSlotV>::empty(),
            r.seeders@.len() == 0,
    {
        let r = DownloadState {
            content_hash,
            total_chunks,
            received_chunks: Vec::new(),
            seeders: Vec::new(),
        };
        proof {
            assert(r.received_chunks.deep_view() =~= Seq::<ChunkSlotV>::empty());
        }
        r
    }

    /// Whether as many chunks have arrived as are expected.
    pub fn is_complete(&self) -> (r: bool)
        ensures
            r == (self.received_chunks@.len() == self.total_chunks as int),
    {
        self.received_chunks.len() == self.total_chunks as usize
    }

    /// The expected indices that have not arrived, in ascending order.
    pub fn missing_chunks(&self) -> (r: Vec<u32>)
        ensures
            r@ == Seq::new(self.total_chunks as nat, |k: int| k as u32).filter(
                |i: u32| !has_received(self.received_chunks.deep_view(), i),
            ),
    {
        let ghost rng = Seq::new(self.total_chunks as nat, |k: int| k as u32);
        let ghost f = |i: u32| !has_received(self.received_chunks.deep_view(), i);
        let mut out: Vec<u32> = Vec::new();
        let mut i: u32 = 0;
        proof {
            assert(rng.take(0) =~= Seq::<u32>::empty());
            assert(rng.take(0).filter(f) =~= Seq::<u32>::empty()) by {
                reveal(Seq::filter);
            }
        }
        while i < self.total_chunks
            invariant
                i <= self.total_chunks,
                rng == Seq::new(self.total_chunks as nat, |k: int| k as u32),
                f == (|j: u32| !has_received(self.received_chunks.deep_view(), j)),
                out@ == rng.take(i as int).filter(f),
            decreases self.total_chunks - i,
        {
            let ghost pre = rng.take(i as int);
            proof {
                assert(rng.take(i + 1) =~= pre.push(rng[i as int]));
                pre.lemma_filter_push(rng[i as int], f);
                assert(rng[i as int] == i);
            }
            if !slot_present(&self.received_chunks, i) {
                out.push(i);
            }
            i = i + 1;
        }
        proof {
            assert(rng.take(self.total_chunks as int) =~= rng);
        }
        out
    }
}

/// Whether a slot with the given index is present.
fn slot_present(chunks: &Vec<ChunkSlot>, index: u32) -> (r: bool)
    ensures
        r == has_received(chunks.deep_view(), index),
{
    let mut j: usize = 0;
    proof {
        assert(chunks.deep_view().skip(0) =~= chunks.deep_view());
    }
    while j < chunks.len()
        invariant
            j <= chunks@.len(),
            chunks.deep_view().len() == chunks@.len(),
            find_chunk_in(chunks.deep_view(), index) == find_chunk_in(
                chunks.deep_view().skip(j as int),
                index,
            ),
        decreases chunks@.len() - j,
    {
        proof {
            assert(chunks.deep_view().skip(j as int)[0] == chunks.deep_view()[j as int]);
            assert(chunks.deep_view()[j as int] == chunks@[j as int]@);
            assert(chunks.deep_view().skip(j as int).drop_first() =~= chunks.deep_view().skip(
                j + 1,
            ));
        }
        if chunks[j].index == index {
            return true;
        }
        j = j + 1;
    }
    proof {
        assert(chunks.deep_view().skip(chunks@.len() as int).len() == 0);
    }
    false
}

/// Examine the bytes of one received message as a chunk answer.
///
/// On every decodable current-version envelope the outcome is pinned: a
/// chunk answer is accepted exactly when both digests are 32 bytes long
/// and the answer's own digest matches its data — an answer whose
/// claimed digest disagrees with its bytes is rejected — and anything
/// else is an error.
pub fn process_chunk_message(data: &[u8]) -> (r: Result<(u32, Vec<u8>, ContentHash), Error>)
    ensures
        (forall|e: EnvelopeV| data@ != #[trigger] enc_env(e)) ==> r is Err,
        forall|e: EnvelopeV| data@ == #[trigger] enc_env(e) && e.version
            != crate::PROTOCOL_VERSION as u32 ==> r == Err::<(u32, Vec<u8>, ContentHash), Error>(
            Error::VersionMismatch { expected: crate::PROTOCOL_VERSION, actual: e.version },
        ),
        forall|e: EnvelopeV| data@ == #[trigger] enc_env(e) && e.version
            == crate::PROTOCOL_VERSION as u32 ==> (match e.payload {
            Option::Some(PayloadV::ChunkResponse(cr)) => {
                if cr.chunk_hash.len() == 32 && digest_of(cr.data) == cr.chunk_hash
                    && cr.content_hash.len() == 32 {
                    match r {
                        Ok(t) => t.0 == cr.chunk_index && t.1@ == cr.data && t.2@
                            == cr.content_hash,
                        Err(_) => false,
                    }
                } else {
                    r is Err
                }
            },
            _ => r is Err,
        }),
{
    let envelope = match Envelope::from_bytes(data) {
        Ok(env) => env,
        Err(e) => {
            return Err(e);
        },
    };
    proof {
        // a decoded envelope names the encoding the bytes are
        assert(data@ == enc_env(envelope@));
    }
    match envelope.payload {
        Option::Some(Payload::ChunkResponse(resp)) => {
            if resp.chunk_hash.len() != 32 {
                return Err(Error::InvalidData("invalid chunk hash length".to_owned()));
            }
            let expected = hash_from_slice(resp.chunk_hash.as_slice());
            let computed = hash_bytes(resp.data.as_slice());
            if !hash_eq(&computed, &expected) {
                return Err(Error::HashMismatch {
                    expected: hash_to_hex(&expected),
                    actual: hash_to_hex(&computed),
                });
            }
            if resp.content_hash.len() != 32 {
                return Err(Error::InvalidData("invalid content hash length".to_owned()));
            }
            let content_hash = hash_from_slice(resp.content_hash.as_slice());
            Ok((resp.chunk_index, resp.data, content_hash))
        },
        Option::Some(Payload::ErrorResponse(err)) => Err(Error::Protocol(err.message)),
        _ => Err(Error::Protocol("unexpected response type".to_owned())),
    }
}

/// The downloader: owns a transport session and a request counter.
pub struct Downloader<T: Transport> {
    transport: T,
    request_counter: u64,
}

impl<T: Transport> Downloader<T> {
    /// The value the next request identifier will take.
    pub closed spec fn counter(&self) -> u64 {
        self.request_counter
    }

    /// Drive downloads over a transport, with the counter seeded so
    /// request identifiers do not collide across sessions.
    pub fn new(transport: T, counter_seed: u64) -> (r: Downloader<T>)
        ensures
            r.counter() == counter_seed,
    {
        Downloader { transport, request_counter: counter_seed }
    }

    /// The transport, for the surrounding program to connect and
    /// disconnect.
    pub fn transport(&mut self) -> &mut T {
        &mut self.transport
    }

    /// Mint a fresh request identifier.
    pub fn next_request_id(&mut self) -> (r: u64)
        ensures
            r == old(self).counter(),
            final(self).counter() == (if old(self).counter() == u64::MAX {
                0u64
            } else {
                (old(self).counter() + 1) as u64
            }),
    {
        let id = self.request_counter;
        if self.request_counter == u64::MAX {
            self.request_counter = 0;
        } else {
            self.request_counter = self.request_counter + 1;
        }
        id
    }

    /// Ask one seeder for one chunk: a chunk request under a fresh
    /// request identifier, with an empty reply token.
    pub fn request_chunk(
        &mut self,
        seeder: &NymAddress,
        content_hash: &ContentHash,
        chunk_index: u32,
    ) -> (r: Result<(), Error>)
        ensures
            final(self).counter() == (if old(self).counter() == u64::MAX {
                0u64
            } else {
                (old(self).counter() + 1) as u64
            }),
    {
        let request_id = self.next_request_id();
        let mut hash_vec: Vec<u8> = Vec::new();
        hash_vec.extend_from_slice(content_hash);
        let envelope = proto::chunk_request(request_id, hash_vec, chunk_index, Vec::new());
        let bytes = envelope.to_bytes();
        self.transport.send(seeder, bytes)
    }

    /// Wait for one chunk answer and examine it.
    pub fn receive_chunk(&mut self, timeout_ms: u64) -> (r: Result<
        Option<(u32, Vec<u8>, ContentHash)>,
        Error,
    >) {
        match self.transport.receive_timeout(timeout_ms) {
            Ok(Option::Some(msg)) => match process_chunk_message(msg.data.as_slice()) {
                Ok(t) => Ok(Option::Some(t)),
                Err(e) => Err(e),
            },
            Ok(Option::None) => Ok(Option::None),
            Err(e) => Err(e),
        }
    }

    /// Fetch every chunk of a file in index order, trying each seeder in
    /// turn for a chunk until one delivers it; a chunk no listed seeder
    /// delivered fails the whole download. A delivered chunk is accepted
    /// only when its index and file digest answer the request and its
    /// bytes carry the digest the answer claims.
    pub fn download_sequential(
        &mut self,
        metadata: &FileMetadata,
        seeders: &Vec<NymAddress>,
        timeout_ms: u64,
    ) -> (r: Result<Vec<ChunkSlot>, Error>)
        ensures
            seeders@.len() == 0 ==> r is Err,
            metadata@.chunks.len() > 0xFFFF_FFFF ==> r is Err,
            seeders@.len() > 0 && metadata@.chunks.len() == 0 ==> r is Ok,
            r matches Ok(chunks) ==> {
                &&& chunks@.len() == metadata@.chunks.len()
                &&& forall|i: int| 0 <= i < chunks@.len()
                    ==> (#[trigger] chunks.deep_view()[i]).index == i
            },
    {
        if seeders.len() == 0 {
            return Err(Error::Transport("no seeders available".to_owned()));
        }
        let total: usize = metadata.chunks.len();
        if total > 0xFFFF_FFFF as usize {
            return Err(Error::InvalidData("too many chunks".to_owned()));
        }
        let mut out: Vec<ChunkSlot> = Vec::new();
        let mut idx: usize = 0;
        while idx < total
            invariant
                idx <= total,
                total == metadata@.chunks.len(),
                total <= 0xFFFF_FFFF,
                out@.len() == idx,
                forall|i: int| 0 <= i < idx ==> (#[trigger] out.deep_view()[i]).index == i,
            decreases total - idx,
        {
            let mut received: Option<Vec<u8>> = Option::None;
            let mut s: usize = 0;
            while s < seeders.len() && received.is_none()
                invariant
                    s <= seeders@.len(),
                decreases seeders@.len() - s + (if received is Some { 0int } else { 1int }),
            {
                let sent = self.request_chunk(
                    &seeders[s],
                    &metadata.content_hash,
                    idx as u32,
                );
                if sent.is_ok() {
                    match self.receive_chunk(timeout_ms) {
                        Ok(Option::Some((got_idx, data, got_hash))) => {
                            if got_idx == idx as u32 && hash_eq(
                                &got_hash,
                                &metadata.content_hash,
                            ) {
                                received = Option::Some(data);
                            } else {
                                s = s + 1;
                            }
                        },
                        Ok(Option::None) => {
                            s = s + 1;
                        },
                        Err(_) => {
                            s = s + 1;
                        },
                    }
                } else {
                    s = s + 1;
                }
            }
            match received {
                Option::Some(data) => {
                    let ghost before = out.deep_view();
                    out.push(ChunkSlot { index: idx as u32, data });
                    proof {
                        assert forall|i: int| 0 <= i < idx + 1
                            implies (#[trigger] out.deep_view()[i]).index == i by {
                            if i < idx {
                                assert(out.deep_view()[i] == before[i]);
                            } else {
                                assert(out.deep_view()[i] == out@[i]@);
                            }
                        }
                    }
                },
                Option::None => {
                    return Err(Error::Transport(
                        "a chunk could not be fetched from any seeder".to_owned(),
                    ));
                },
            }
            idx = idx + 1;
        }
        Ok(out)
    }

    /// Join fetched chunks into the finished file, in index order, and
    /// hold the result to the metadata: the byte count must agree where
    /// the metadata names one, and the whole-file digest must always
    /// agree. Missing or duplicated indices are refused. Success is owed
    /// exactly when every index is present, the count fits the wire's
    /// 32-bit indices, and the joined bytes satisfy both checks.
    pub fn reassemble_to_file(&self, chunks: Vec<ChunkSlot>, metadata: &FileMetadata) -> (r:
        Result<Vec<u8>, Error>)
        ensures
            r is Ok <==> {
                &&& chunks@.len() <= 0xFFFF_FFFF
                &&& all_indices_present(chunks.deep_view())
                &&& (metadata@.size != 0 ==> joined_bytes(chunks.deep_view()).len()
                    == metadata@.size)
                &&& digest_of(joined_bytes(chunks.deep_view())) == metadata@.content_hash
            },
            r matches Ok(data) ==> data@ == joined_bytes(chunks.deep_view()),
    {
        let total = chunks.len();
        proof {
            assert(chunks.deep_view().len() == chunks@.len());
        }
        if total > 0xFFFF_FFFF as usize {
            return Err(Error::InvalidData("too many chunks".to_owned()));
        }
        let ghost ordered = Seq::new(
            chunks.deep_view().len(),
            |i: int| find_chunk_in(chunks.deep_view(), i as u32)->0,
        );
        proof {
            assert(joined_bytes(chunks.deep_view()) == concat_of(ordered));
        }
        let mut data: Vec<u8> = Vec::new();
        let mut i: usize = 0;
        proof {
            assert(data@ =~= concat_of(ordered.take(0)));
            assert(ordered.take(0) =~= Seq::<Seq<u8>>::empty());
        }
        while i < total
            invariant
                i <= total,
                total == chunks@.len(),
                total <= 0xFFFF_FFFF,
                chunks.deep_view().len() == chunks@.len(),
                ordered == Seq::new(
                    chunks.deep_view().len(),
                    |k: int| find_chunk_in(chunks.deep_view(), k as u32)->0,
                ),
                data@ == concat_of(ordered.take(i as int)),
                forall|j: int| 0 <= j < i ==> #[trigger] find_chunk_in(
                    chunks.deep_view(),
                    j as u32,
                ) is Some,
            decreases total - i,
        {
            let piece = match lookup_slot(&chunks, i as u32) {
                Option::Some(p) => p,
                Option::None => {
                    proof {
                        assert(!all_indices_present(chunks.deep_view())) by {
                            assert(find_chunk_in(chunks.deep_view(), i as u32) is None);
                        }
                    }
                    return Err(Error::InvalidData(
                        "a chunk index is missing from the download".to_owned(),
                    ));
                },
            };
            data.extend_from_slice(piece.as_slice());
            proof {
                crate::chunk::lemma_concat_of_push(ordered.take(i as int), ordered[i as int]);
                assert(ordered.take(i as int).push(ordered[i as int]) =~= ordered.take(i + 1));
            }
            i = i + 1;
        }
        proof {
            assert(ordered.take(total as int) =~= ordered);
            assert(all_indices_present(chunks.deep_view()));
            assert(data@ == joined_bytes(chunks.deep_view()));
        }
        if metadata.size != 0 {
            if data.len() as u64 != metadata.size {
                return Err(Error::InvalidData(
                    "assembled size differs from the metadata".to_owned(),
                ));
            }
        }
        let final_hash = hash_bytes(data.as_slice());
        if !hash_eq(&final_hash, &metadata.content_hash) {
            return Err(Error::HashMismatch {
                expected: hash_to_hex(&metadata.content_hash),
                actual: hash_to_hex(&final_hash),
            });
        }
        Ok(data)
    }
}

/// The byte count the i-th chunk of a file is expected to carry, given
/// only the file's total byte count: a full window for every chunk
/// before the last, the remainder for the last, and zero where the
/// total is unknown or exhausted.
pub open spec fn hint_chunk_size(size_hint: u64, i: int) -> u32 {
    if size_hint <= i * 262144 {
        0u32
    } else if size_hint - i * 262144 < 262144 {
        (size_hint - i * 262144) as u32
    } else {
        262144u32
    }
}

/// The stand-in metadata built when only a file's digest, an expected
/// chunk count and perhaps a byte count are known: per-chunk digests are
/// zeroed — each fetched chunk is verified against its answer's own
/// digest, and the finished file against `content_hash` — and per-chunk
/// sizes are derived from the byte count where one is given.
pub fn placeholder_metadata(
    content_hash: ContentHash,
    filename: String,
    size_hint: u64,
    chunk_count: u32,
) -> (r: FileMetadata)
    ensures
        r@.content_hash == content_hash@,
        r@.filename == filename@,
        r@.size == size_hint,
        r@.mime_type is None,
        r@.keywords.len() == 0,
        r@.created_at == 0,
        r@.chunks.len() == chunk_count,
        forall|i: int| 0 <= i < chunk_count ==> {
            &&& (#[trigger] r@.chunks[i]).index == i
            &&& r@.chunks[i].size == hint_chunk_size(size_hint, i)
            &&& forall|k: int| 0 <= k < 32 ==> r@.chunks[i].hash[k] == 0
        },
{
    let mut chunks: Vec<crate::types::ChunkInfo> = Vec::new();
    let mut i: u32 = 0;
    while i < chunk_count
        invariant
            i <= chunk_count,
            chunks@.len() == i,
            forall|t: int| 0 <= t < i ==> {
                &&& (#[trigger] chunks.deep_view()[t]).index == t
                &&& chunks.deep_view()[t].size == hint_chunk_size(size_hint, t)
                &&& forall|k: int| 0 <= k < 32 ==> chunks.deep_view()[t].hash[k] == 0
            },
        decreases chunk_count - i,
    {
        let offset = (i as u64) * 262144;
        let size = if size_hint <= offset {
            0u32
        } else if size_hint - offset < 262144 {
            (size_hint - offset) as u32
        } else {
            262144u32
        };
        let ghost before = chunks.deep_view();
        chunks.push(crate::types::ChunkInfo { index: i, hash: [0u8; 32], size });
        proof {
            assert forall|t: int| 0 <= t < i + 1 implies {
                &&& (#[trigger] chunks.deep_view()[t]).index == t
                &&& chunks.deep_view()[t].size == hint_chunk_size(size_hint, t)
                &&& forall|k: int| 0 <= k < 32 ==> chunks.deep_view()[t].hash[k] == 0
            } by {
                if t < i {
                    assert(chunks.deep_view()[t] == before[t]);
                } else {
                    assert(chunks.deep_view()[t] == chunks@[t]@);
                }
            }
        }
        i = i + 1;
    }
    FileMetadata {
        content_hash,
        filename,
        size: size_hint,
        mime_type: Option::None,
        chunks,
        keywords: Vec::new(),
        created_at: 0,
    }
}

/// Whether every index below the chunk count has a stored chunk.
pub open spec fn all_indices_present(chunks: Seq<ChunkSlotV>) -> bool {
    forall|i: int| 0 <= i < chunks.len() ==> #[trigger] find_chunk_in(chunks, i as u32) is Some
}

/// The file a chunk list assembles to: the stored bytes of every index,
/// joined in ascending order.
pub open spec fn joined_bytes(chunks: Seq<ChunkSlotV>) -> Seq<u8> {
    concat_of(Seq::new(chunks.len(), |i: int| find_chunk_in(chunks, i as u32)->0))
}

/// The bytes stored under an index, if any.
fn lookup_slot(chunks: &Vec<ChunkSlot>, index: u32) -> (r: Option<&Vec<u8>>)
    ensures
        match r {
            Some(p) => find_chunk_in(chunks.deep_view(), index) == Option::Some(p@),
            None => find_chunk_in(chunks.deep_view(), index) is None,
        },
{
    let mut j: usize = 0;
    proof {
        assert(chunks.deep_view().skip(0) =~= chunks.deep_view());
    }
    while j < chunks.len()
        invariant
            j <= chunks@.len(),
            chunks.deep_view().len() == chunks@.len(),
            find_chunk_in(chunks.deep_view(), index) == find_chunk_in(
                chunks.deep_view().skip(j as int),
                index,
            ),
        decreases chunks@.len() - j,
    {
        proof {
            assert(chunks.deep_view().skip(j as int)[0] == chunks.deep_view()[j as int]);
            assert(chunks.deep_view()[j as int] == chunks@[j as int]@);
            assert(chunks.deep_view().skip(j as int).drop_first() =~= chunks.deep_view().skip(
                j + 1,
            ));
        }
        if chunks[j].index == index {
            return Some(&chunks[j].data);
        }
        j = j + 1;
    }
    proof {
        assert(chunks.deep_view().skip(chunks@.len() as int).len() == 0);
    }
    None
}

} // verus!
