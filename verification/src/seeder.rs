//! The seeder: a chunk store and the request dispatch that serves it.
//!
//! The store mirrors the on-disk layout in memory: one record per file,
//! holding its metadata and its chunks by index. The dispatch decodes an
//! incoming envelope, answers chunk requests from the store and liveness
//! probes directly, and wraps everything else in an error report. The
//! reply to every well-formed request is pinned exactly by the contract.

use vstd::prelude::*;
use crate::error::Error;
use crate::error_codes;
use crate::hashing::{ContentHash, digest_of, hash_bytes, hash_from_slice};
use crate::chunk::{chunk_file, window_of};
use crate::keywords::keywords_of;
use crate::proto;
use crate::proto::{Envelope, EnvelopeV, Payload, PayloadV};
use crate::transport::{ReceivedMessage, SenderTag};
use crate::types::{FileMetadata, FileMetadataV};

verus! {

pub ghost struct ChunkSlotV {
    pub index: u32,
    pub data: Seq<u8>,
}

/// One stored chunk: its index within the file and its bytes.
pub struct ChunkSlot {
    pub index: u32,
    pub data: Vec<u8>,
}

impl View for ChunkSlot {
    type V = ChunkSlotV;

    open spec fn view(&self) -> ChunkSlotV {
        ChunkSlotV { index: self.index, data: self.data@ }
    }
}

impl DeepView for ChunkSlot {
    type V = ChunkSlotV;

    open spec fn deep_view(&self) -> ChunkSlotV {
        self.view()
    }
}

pub ghost struct StoredFileV {
    pub metadata: FileMetadataV,
    pub chunks: Seq<ChunkSlotV>,
}

/// The metadata of the first stored file carrying the given digest.
pub open spec fn find_meta(files: Seq<StoredFileV>, h: Seq<u8>) -> Option<FileMetadataV>
    decreases files.len(),
{
    if files.len() == 0 {
        Option::None
    } else if files[0].metadata.content_hash == h {
        Option::Some(files[0].metadata)
    } else {
        find_meta(files.drop_first(), h)
    }
}

/// The bytes of the stored chunk with the given index, under the first
/// file carrying the given digest.
pub open spec fn find_chunk(files: Seq<StoredFileV>, h: Seq<u8>, index: u32) -> Option<Seq<u8>>
    decreases files.len(),
{
    if files.len() == 0 {
        Option::None
    } else if files[0].metadata.content_hash == h {
        find_chunk_in(files[0].chunks, index)
    } else {
        find_chunk(files.drop_first(), h, index)
    }
}

pub open spec fn find_chunk_in(chunks: Seq<ChunkSlotV>, index: u32) -> Option<Seq<u8>>
    decreases chunks.len(),
{
    if chunks.len() == 0 {
        Option::None
    } else if chunks[0].index == index {
        Option::Some(chunks[0].data)
    } else {
        find_chunk_in(chunks.drop_first(), index)
    }
}

struct StoredFile {
    metadata: FileMetadata,
    chunks: Vec<ChunkSlot>,
}

impl View for StoredFile {
    type V = StoredFileV;

    closed spec fn view(&self) -> StoredFileV {
        StoredFileV { metadata: self.metadata@, chunks: self.chunks.deep_view() }
    }
}

impl DeepView for StoredFile {
    type V = StoredFileV;

    closed spec fn deep_view(&self) -> StoredFileV {
        self.view()
    }
}

/// The in-memory chunk store: one record per distinct content digest.
/// Persisting the records to disk, and reading them back, is the
/// surrounding program's work; it hands the plain values in and out.
pub struct ChunkStore {
    storage_dir: String,
    files: Vec<StoredFile>,
}

impl View for ChunkStore {
    type V = Seq<StoredFileV>;

    closed spec fn view(&self) -> Seq<StoredFileV> {
        self.files.deep_view()
    }
}

impl ChunkStore {
    /// No two records carry the same digest.
    pub closed spec fn wf(&self) -> bool {
        forall|i: int, j: int| 0 <= i < j < self@.len()
            ==> (#[trigger] self@[i]).metadata.content_hash
                != (#[trigger] self@[j]).metadata.content_hash
    }

    /// The directory this store mirrors.
    pub fn storage_dir(&self) -> (r: &str) {
        self.storage_dir.as_str()
    }

    /// An empty store over a storage directory.
    pub fn new(storage_dir: String) -> (r: ChunkStore)
        ensures
            r.wf(),
            r@ == Seq::<StoredFileV>::empty(),
    {
        let r = ChunkStore { storage_dir, files: Vec::new() };
        proof {
            assert(r@ =~= Seq::<StoredFileV>::empty());
        }
        r
    }

    /// Find the position of a digest's record.
    fn find_index(&self, content_hash: &ContentHash) -> (r: Option<usize>)
        ensures
            match r {
                Some(i) => i < self@.len() && self@[i as int].metadata.content_hash
                    == content_hash@ && forall|j: int| 0 <= j < i
                    ==> (#[trigger] self@[j]).metadata.content_hash != content_hash@,
                None => forall|j: int| 0 <= j < self@.len()
                    ==> (#[trigger] self@[j]).metadata.content_hash != content_hash@,
            },
    {
        let mut i: usize = 0;
        while i < self.files.len()
            invariant
                i <= self.files@.len(),
                self@.len() == self.files@.len(),
                forall|j: int| 0 <= j < i ==> (#[trigger] self@[j]).metadata.content_hash
                    != content_hash@,
            decreases self.files@.len() - i,
        {
            if crate::hashing::hash_eq(&self.files[i].metadata.content_hash, content_hash) {
                proof {
                    assert(self@[i as int].metadata.content_hash == content_hash@);
                }
                return Some(i);
            }
            proof {
                assert(self@[i as int].metadata.content_hash != content_hash@);
            }
            i = i + 1;
        }
        None
    }

    /// Insert a file's metadata and chunks, replacing any record already
    /// under the same digest: adding is idempotent by content digest.
    /// Chunk indices are the wire's 32-bit kind, which bounds the list.
    pub fn insert_file(&mut self, metadata: FileMetadata, chunks: Vec<Vec<u8>>)
        requires
            old(self).wf(),
            chunks@.len() <= 0xFFFF_FFFF,
        ensures
            final(self).wf(),
            forall|h: Seq<u8>| h != metadata@.content_hash ==> #[trigger] find_meta(
                final(self)@,
                h,
            ) == find_meta(old(self)@, h),
            forall|h: Seq<u8>, ix: u32| h != metadata@.content_hash ==> #[trigger] find_chunk(
                final(self)@,
                h,
                ix,
            ) == find_chunk(old(self)@, h, ix),
            find_meta(final(self)@, metadata@.content_hash) == Option::Some(metadata@),
            forall|ix: u32| #[trigger] find_chunk(final(self)@, metadata@.content_hash, ix)
                == (if ix < chunks@.len() {
                Option::Some(chunks.deep_view()[ix as int])
            } else {
                Option::<Seq<u8>>::None
            }),
    {
        let ghost mh = metadata@.content_hash;
        let mut indexed: Vec<ChunkSlot> = Vec::new();
        let mut chunks = chunks;
        let ghost all = chunks.deep_view();
        let total = chunks.len();
        let mut k: usize = 0;
        proof {
            assert(all.len() == chunks@.len());
        }
        while k < total
            invariant
                k <= total,
                total == all.len(),
                total <= 0xFFFF_FFFF,
                chunks.deep_view() == all,
                chunks@.len() == total,
                indexed@.len() == k,
                forall|j: int| 0 <= j < k ==> (#[trigger] indexed.deep_view()[j]).index == j
                    && indexed.deep_view()[j].data == all[j],
            decreases total - k,
        {
            let mut piece: Vec<u8> = Vec::new();
            piece.extend_from_slice(chunks[k].as_slice());
            proof {
                assert(piece@ =~= all[k as int]);
            }
            let ghost before = indexed.deep_view();
            let slot = ChunkSlot { index: k as u32, data: piece };
            indexed.push(slot);
            proof {
                assert forall|j: int| 0 <= j < k + 1
                    implies (#[trigger] indexed.deep_view()[j]).index == j
                        && indexed.deep_view()[j].data == all[j] by {
                    if j < k {
                        assert(indexed.deep_view()[j] == before[j]);
                    } else {
                        assert(indexed.deep_view()[j] == indexed@[j].deep_view());
                    }
                }
            }
            k = k + 1;
        }
        let entry = StoredFile { metadata, chunks: indexed };
        let ghost ev = entry@;
        proof {
            lemma_find_chunk_indexed(ev.chunks, all);
        }
        match self.find_index(&entry.metadata.content_hash) {
            Some(i) => {
                let ghost prior = self@;
                self.files.set(i, entry);
                proof {
                    assert(self@ =~= prior.update(i as int, ev)) by {
                        assert forall|j: int| 0 <= j < self@.len()
                            implies #[trigger] self@[j] == prior.update(i as int, ev)[j] by {
                            assert(self@[j] == self.files@[j].deep_view());
                        }
                    }
                    lemma_find_updated(prior, i as int, ev, mh);
                }
            },
            None => {
                let ghost prior = self@;
                self.files.push(entry);
                proof {
                    assert(self@ =~= prior.push(ev)) by {
                        assert forall|j: int| 0 <= j < self@.len()
                            implies #[trigger] self@[j] == prior.push(ev)[j] by {
                            assert(self@[j] == self.files@[j].deep_view());
                        }
                    }
                    lemma_find_appended(prior, ev, mh);
                }
            },
        }
    }

    /// Chunk a file's bytes and add the result to the store. The
    /// returned metadata carries the whole-file digest over the bytes,
    /// the chunk list, and the keywords of the filename.
    pub fn add_file(&mut self, data: &[u8], filename: String, created_at: u64) -> (r:
        FileMetadata)
        requires
            old(self).wf(),
            data@.len() <= 0xFFFF_FFFF * 262144,
        ensures
            final(self).wf(),
            r@.content_hash == digest_of(data@),
            r@.size == data@.len(),
            r@.filename == filename@,
            r@.keywords == keywords_of(filename@),
            r@.chunks.len() == (if data@.len() == 0 {
                1int
            } else {
                (data@.len() as int + 262143) / 262144
            }),
            find_meta(final(self)@, digest_of(data@)) == Option::Some(r@),
            forall|h: Seq<u8>| h != digest_of(data@) ==> #[trigger] find_meta(final(self)@, h)
                == find_meta(old(self)@, h),
            forall|ix: u32| ix < r@.chunks.len() ==> {
                &&& #[trigger] find_chunk(final(self)@, digest_of(data@), ix)
                    == Option::Some(window_of(data@, ix as int))
                &&& digest_of(find_chunk(final(self)@, digest_of(data@), ix)->0)
                    == r@.chunks[ix as int].hash
            },
    {
        let (metadata, chunks) = chunk_file(data, filename, created_at);
        let ghost cd = chunks.deep_view();
        let ghost mv = metadata@;
        let m = clone_metadata(&metadata);
        self.insert_file(metadata, chunks);
        proof {
            assert forall|ix: u32| ix < m@.chunks.len() implies #[trigger] find_chunk(
                self@,
                digest_of(data@),
                ix,
            ) == Option::Some(window_of(data@, ix as int)) by {
                assert(mv.chunks[ix as int].index == ix);
                assert(cd[ix as int] == window_of(data@, ix as int));
                assert(find_chunk(self@, mv.content_hash, ix) == Option::Some(cd[ix as int]));
            }
        }
        m
    }

    /// The stored chunk under a digest and index, if any.
    pub fn get_chunk(&self, content_hash: &ContentHash, chunk_index: u32) -> (r: Option<
        &Vec<u8>,
    >)
        ensures
            match r {
                Some(c) => find_chunk(self@, content_hash@, chunk_index)
                    == Option::Some(c@),
                None => find_chunk(self@, content_hash@, chunk_index) is None,
            },
    {
        match self.find_index(content_hash) {
            None => {
                proof {
                    lemma_find_skips(self@, content_hash@, chunk_index, self@.len() as int);
                }
                None
            },
            Some(i) => {
                proof {
                    lemma_find_skips(self@, content_hash@, chunk_index, i as int);
                }
                let entry = &self.files[i];
                proof {
                    assert(self@[i as int] == self.files@[i as int]@);
                    assert(entry@ == self@[i as int]);
                    assert(entry@.chunks.skip(0) =~= entry@.chunks);
                }
                let mut j: usize = 0;
                while j < entry.chunks.len()
                    invariant
                        j <= entry.chunks@.len(),
                        i < self@.len(),
                        entry@ == self@[i as int],
                        entry@.chunks.len() == entry.chunks@.len(),
                        find_chunk(self@, content_hash@, chunk_index) == find_chunk_in(
                            entry@.chunks,
                            chunk_index,
                        ),
                        find_chunk_in(entry@.chunks, chunk_index) == find_chunk_in(
                            entry@.chunks.skip(j as int),
                            chunk_index,
                        ),
                    decreases entry.chunks@.len() - j,
                {
                    proof {
                        assert(entry@.chunks.skip(j as int)[0] == entry@.chunks[j as int]);
                        assert(entry@.chunks[j as int] == entry.chunks@[j as int]@);
                        assert(entry@.chunks.skip(j as int).drop_first() =~= entry@.chunks.skip(
                            j + 1,
                        ));
                    }
                    if entry.chunks[j].index == chunk_index {
                        proof {
                            assert(entry@.chunks.skip(j as int)[0].index == chunk_index);
                            assert(find_chunk_in(entry@.chunks.skip(j as int), chunk_index)
                                == Option::Some(entry@.chunks[j as int].data));
                            assert(entry.chunks@[j as int].data@
                                == entry@.chunks[j as int].data);
                            assert(find_chunk(self@, content_hash@, chunk_index)
                                == find_chunk_in(self@[i as int].chunks, chunk_index));
                            assert(find_chunk_in(self@[i as int].chunks, chunk_index)
                                == find_chunk_in(entry@.chunks, chunk_index));
                            assert(find_chunk(self@, content_hash@, chunk_index)
                                == Option::Some(entry.chunks@[j as int].data@));
                        }
                        return Some(&entry.chunks[j].data);
                    }
                    j = j + 1;
                }
                proof {
                    assert(entry@.chunks.skip(entry.chunks@.len() as int).len() == 0);
                }
                None
            },
        }
    }

    /// The stored metadata under a digest, if any.
    pub fn get_metadata(&self, content_hash: &ContentHash) -> (r: Option<&FileMetadata>)
        ensures
            match r {
                Some(m) => find_meta(self@, content_hash@) == Option::Some(m@),
                None => find_meta(self@, content_hash@) is None,
            },
    {
        match self.find_index(content_hash) {
            None => {
                proof {
                    lemma_meta_skips(self@, content_hash@, self@.len() as int);
                }
                None
            },
            Some(i) => {
                proof {
                    lemma_meta_skips(self@, content_hash@, i as int);
                }
                Some(&self.files[i].metadata)
            },
        }
    }

    /// The metadata of every stored file, in insertion order.
    pub fn list_files(&self) -> (r: Vec<&FileMetadata>)
        ensures
            r@.len() == self@.len(),
            forall|i: int| 0 <= i < r@.len() ==> (#[trigger] r@[i])@ == self@[i].metadata,
    {
        let mut out: Vec<&FileMetadata> = Vec::new();
        let mut i: usize = 0;
        while i < self.files.len()
            invariant
                i <= self.files@.len(),
                self@.len() == self.files@.len(),
                out@.len() == i,
                forall|j: int| 0 <= j < i ==> (#[trigger] out@[j])@ == self@[j].metadata,
            decreases self.files@.len() - i,
        {
            out.push(&self.files[i].metadata);
            i = i + 1;
        }
        out
    }
}

/// Copy a metadata value field for field.
fn clone_metadata(m: &FileMetadata) -> (r: FileMetadata)
    ensures
        r@ == m@,
{
    let mut chunks: Vec<crate::types::ChunkInfo> = Vec::new();
    let mut i: usize = 0;
    while i < m.chunks.len()
        invariant
            i <= m.chunks@.len(),
            chunks.deep_view() == m.chunks.deep_view().take(i as int),
        decreases m.chunks@.len() - i,
    {
        let ghost before = chunks.deep_view();
        chunks.push(crate::types::ChunkInfo {
            index: m.chunks[i].index,
            hash: m.chunks[i].hash,
            size: m.chunks[i].size,
        });
        proof {
            assert(m.chunks.deep_view().len() == m.chunks@.len());
            assert(before.len() == i as int);
            assert(chunks.deep_view().len() == i + 1);
            assert forall|t: int| 0 <= t < chunks.deep_view().len()
                implies #[trigger] chunks.deep_view()[t]
                    == m.chunks.deep_view().take(i + 1)[t] by {
                if t < i {
                    assert(chunks.deep_view()[t] == before[t]);
                } else {
                    assert(chunks.deep_view()[t] == chunks@[t]@);
                    assert(m.chunks.deep_view()[t] == m.chunks@[t]@);
                }
            }
            assert(chunks.deep_view() =~= m.chunks.deep_view().take(i + 1));
        }
        i = i + 1;
    }
    proof {
        assert(m.chunks.deep_view().take(m.chunks@.len() as int) =~= m.chunks.deep_view());
    }
    let mut keywords: Vec<String> = Vec::new();
    let mut j: usize = 0;
    while j < m.keywords.len()
        invariant
            j <= m.keywords@.len(),
            keywords.deep_view() == m.keywords.deep_view().take(j as int),
        decreases m.keywords@.len() - j,
    {
        let ghost kbefore = keywords.deep_view();
        keywords.push(m.keywords[j].clone());
        proof {
            assert(m.keywords.deep_view().len() == m.keywords@.len());
            assert(kbefore.len() == j as int);
            assert(keywords.deep_view().len() == j + 1);
            assert forall|t: int| 0 <= t < keywords.deep_view().len()
                implies #[trigger] keywords.deep_view()[t]
                    == m.keywords.deep_view().take(j + 1)[t] by {
                if t < j {
                    assert(keywords.deep_view()[t] == kbefore[t]);
                } else {
                    assert(keywords.deep_view()[t] == keywords@[t]@);
                    assert(m.keywords.deep_view()[t] == m.keywords@[t]@);
                }
            }
            assert(keywords.deep_view() =~= m.keywords.deep_view().take(j + 1));
        }
        j = j + 1;
    }
    proof {
        assert(m.keywords.deep_view().take(m.keywords@.len() as int) =~= m.keywords.deep_view());
    }
    let mime_type = match &m.mime_type {
        Option::None => Option::None,
        Option::Some(s) => Option::Some(s.clone()),
    };
    let r = FileMetadata {
        content_hash: m.content_hash,
        filename: m.filename.clone(),
        size: m.size,
        mime_type,
        chunks,
        keywords,
        created_at: m.created_at,
    };
    proof {
        assert(r@.mime_type == m@.mime_type);
    }
    r
}

proof fn lemma_meta_skips(files: Seq<StoredFileV>, h: Seq<u8>, upto: int)
    requires
        0 <= upto <= files.len(),
        forall|j: int| 0 <= j < upto ==> (#[trigger] files[j]).metadata.content_hash != h,
    ensures
        upto == files.len() ==> find_meta(files, h) is None,
        upto < files.len() && files[upto].metadata.content_hash == h ==> find_meta(files, h)
            == Option::Some(files[upto].metadata),
    decreases upto,
{
    if upto > 0 {
        assert forall|j: int| 0 <= j < upto - 1
            implies (#[trigger] files.drop_first()[j]).metadata.content_hash != h by {
            assert(files.drop_first()[j] == files[j + 1]);
        }
        lemma_meta_skips(files.drop_first(), h, upto - 1);
        if upto < files.len() {
            assert(files.drop_first()[upto - 1] == files[upto]);
        }
    }
}

proof fn lemma_find_skips(files: Seq<StoredFileV>, h: Seq<u8>, ix: u32, upto: int)
    requires
        0 <= upto <= files.len(),
        forall|j: int| 0 <= j < upto ==> (#[trigger] files[j]).metadata.content_hash != h,
    ensures
        upto == files.len() ==> find_chunk(files, h, ix) is None,
        upto < files.len() && files[upto].metadata.content_hash == h ==> find_chunk(files, h, ix)
            == find_chunk_in(files[upto].chunks, ix),
    decreases upto,
{
    if upto > 0 {
        assert forall|j: int| 0 <= j < upto - 1
            implies (#[trigger] files.drop_first()[j]).metadata.content_hash != h by {
            assert(files.drop_first()[j] == files[j + 1]);
        }
        lemma_find_skips(files.drop_first(), h, ix, upto - 1);
        if upto < files.len() {
            assert(files.drop_first()[upto - 1] == files[upto]);
        }
    }
}

/// Replacing the record at a digest's position rewrites lookups at that
/// digest and leaves every other digest alone.
proof fn lemma_find_updated(files: Seq<StoredFileV>, i: int, e: StoredFileV, h: Seq<u8>)
    requires
        0 <= i < files.len(),
        files[i].metadata.content_hash == h,
        e.metadata.content_hash == h,
        forall|j: int| 0 <= j < i ==> (#[trigger] files[j]).metadata.content_hash != h,
    ensures
        find_meta(files.update(i, e), h) == Option::Some(e.metadata),
        forall|g: Seq<u8>| g != h ==> #[trigger] find_meta(files.update(i, e), g) == find_meta(
            files,
            g,
        ),
        forall|g: Seq<u8>, ix: u32| g != h ==> #[trigger] find_chunk(files.update(i, e), g, ix)
            == find_chunk(files, g, ix),
        forall|ix: u32| #[trigger] find_chunk(files.update(i, e), h, ix) == find_chunk_in(
            e.chunks,
            ix,
        ),
    decreases i,
{
    let u = files.update(i, e);
    if i == 0 {
        assert(u[0] == e);
        assert(u.drop_first() =~= files.drop_first());
        assert(find_meta(u, h) == Option::Some(e.metadata));
        assert forall|g: Seq<u8>| g != h implies #[trigger] find_meta(u, g) == find_meta(
            files,
            g,
        ) by {
            assert(find_meta(u, g) == find_meta(u.drop_first(), g));
            assert(find_meta(files, g) == find_meta(files.drop_first(), g));
        }
        assert forall|g: Seq<u8>, ix: u32| g != h implies #[trigger] find_chunk(u, g, ix)
            == find_chunk(files, g, ix) by {
            assert(find_chunk(u, g, ix) == find_chunk(u.drop_first(), g, ix));
            assert(find_chunk(files, g, ix) == find_chunk(files.drop_first(), g, ix));
        }
        assert forall|ix: u32| #[trigger] find_chunk(u, h, ix) == find_chunk_in(e.chunks, ix)
            by {
            assert(u[0] == e);
        }
    } else {
        assert(u[0] == files[0]);
        assert(u.drop_first() =~= files.drop_first().update(i - 1, e));
        assert forall|j: int| 0 <= j < i - 1
            implies (#[trigger] files.drop_first()[j]).metadata.content_hash != h by {
            assert(files.drop_first()[j] == files[j + 1]);
        }
        assert(files.drop_first()[i - 1] == files[i]);
        lemma_find_updated(files.drop_first(), i - 1, e, h);
        assert(files[0].metadata.content_hash != h);
        assert(find_meta(u, h) == find_meta(u.drop_first(), h));
        assert(find_meta(u, h) == Option::Some(e.metadata));
        assert forall|g: Seq<u8>| g != h implies #[trigger] find_meta(u, g) == find_meta(
            files,
            g,
        ) by {
            if files[0].metadata.content_hash == g {
            } else {
                assert(find_meta(u, g) == find_meta(u.drop_first(), g));
                assert(find_meta(files, g) == find_meta(files.drop_first(), g));
            }
        }
        assert forall|g: Seq<u8>, ix: u32| g != h implies #[trigger] find_chunk(u, g, ix)
            == find_chunk(files, g, ix) by {
            if files[0].metadata.content_hash == g {
            } else {
                assert(find_chunk(u, g, ix) == find_chunk(u.drop_first(), g, ix));
                assert(find_chunk(files, g, ix) == find_chunk(files.drop_first(), g, ix));
            }
        }
        assert forall|ix: u32| #[trigger] find_chunk(u, h, ix) == find_chunk_in(e.chunks, ix)
            by {
            assert(find_chunk(u, h, ix) == find_chunk(u.drop_first(), h, ix));
        }
    }
}

/// Appending a record for a fresh digest adds its lookups and leaves
/// every other digest alone.
proof fn lemma_find_appended(files: Seq<StoredFileV>, e: StoredFileV, h: Seq<u8>)
    requires
        e.metadata.content_hash == h,
        forall|j: int| 0 <= j < files.len() ==> (#[trigger] files[j]).metadata.content_hash != h,
    ensures
        find_meta(files.push(e), h) == Option::Some(e.metadata),
        forall|g: Seq<u8>| g != h ==> #[trigger] find_meta(files.push(e), g) == find_meta(
            files,
            g,
        ),
        forall|g: Seq<u8>, ix: u32| g != h ==> #[trigger] find_chunk(files.push(e), g, ix)
            == find_chunk(files, g, ix),
        forall|ix: u32| #[trigger] find_chunk(files.push(e), h, ix) == find_chunk_in(
            e.chunks,
            ix,
        ),
    decreases files.len(),
{
    let u = files.push(e);
    if files.len() == 0 {
        assert(u[0] == e);
        assert(u.drop_first() =~= Seq::<StoredFileV>::empty());
        assert(find_meta(u, h) == Option::Some(e.metadata));
        assert forall|g: Seq<u8>| g != h implies #[trigger] find_meta(u, g) == find_meta(
            files,
            g,
        ) by {
            assert(find_meta(u, g) == find_meta(Seq::<StoredFileV>::empty(), g));
            assert(find_meta(Seq::<StoredFileV>::empty(), g) is None);
            assert(find_meta(files, g) is None);
        }
        assert forall|g: Seq<u8>, ix: u32| g != h implies #[trigger] find_chunk(u, g, ix)
            == find_chunk(files, g, ix) by {
            assert(find_chunk(u, g, ix) == find_chunk(Seq::<StoredFileV>::empty(), g, ix));
            assert(find_chunk(Seq::<StoredFileV>::empty(), g, ix) is None);
            assert(find_chunk(files, g, ix) is None);
        }
        assert forall|ix: u32| #[trigger] find_chunk(u, h, ix) == find_chunk_in(e.chunks, ix)
            by {
            assert(u[0] == e);
        }
    } else {
        assert(u[0] == files[0]);
        assert(u.drop_first() =~= files.drop_first().push(e));
        assert forall|j: int| 0 <= j < files.drop_first().len()
            implies (#[trigger] files.drop_first()[j]).metadata.content_hash != h by {
            assert(files.drop_first()[j] == files[j + 1]);
        }
        lemma_find_appended(files.drop_first(), e, h);
        assert(files[0].metadata.content_hash != h);
        assert(find_meta(u, h) == find_meta(u.drop_first(), h));
        assert(find_meta(u, h) == Option::Some(e.metadata));
        assert forall|g: Seq<u8>| g != h implies #[trigger] find_meta(u, g) == find_meta(
            files,
            g,
        ) by {
            if files[0].metadata.content_hash == g {
            } else {
                assert(find_meta(u, g) == find_meta(u.drop_first(), g));
                assert(find_meta(files, g) == find_meta(files.drop_first(), g));
            }
        }
        assert forall|g: Seq<u8>, ix: u32| g != h implies #[trigger] find_chunk(u, g, ix)
            == find_chunk(files, g, ix) by {
            if files[0].metadata.content_hash == g {
            } else {
                assert(find_chunk(u, g, ix) == find_chunk(u.drop_first(), g, ix));
                assert(find_chunk(files, g, ix) == find_chunk(files.drop_first(), g, ix));
            }
        }
        assert forall|ix: u32| #[trigger] find_chunk(u, h, ix) == find_chunk_in(e.chunks, ix)
            by {
            assert(find_chunk(u, h, ix) == find_chunk(u.drop_first(), h, ix));
        }
    }
}

/// In a chunk list built as consecutive indices over a chunk sequence,
/// lookup by index is exactly sequence indexing.
proof fn lemma_find_chunk_indexed(chunks: Seq<ChunkSlotV>, all: Seq<Seq<u8>>)
    requires
        chunks.len() == all.len(),
        forall|j: int| 0 <= j < chunks.len() ==> (#[trigger] chunks[j]).index == j
            && chunks[j].data == all[j],
    ensures
        forall|ix: u32| #[trigger] find_chunk_in(chunks, ix) == (if ix < all.len() {
            Option::Some(all[ix as int])
        } else {
            Option::<Seq<u8>>::None
        }),
{
    assert forall|ix: u32| #[trigger] find_chunk_in(chunks, ix) == (if ix < all.len() {
        Option::Some(all[ix as int])
    } else {
        Option::<Seq<u8>>::None
    }) by {
        lemma_find_chunk_shifted(chunks, all, ix, 0);
    }
}

proof fn lemma_find_chunk_shifted(
    chunks: Seq<ChunkSlotV>,
    all: Seq<Seq<u8>>,
    ix: u32,
    base: int,
)
    requires
        0 <= base,
        chunks.len() + base == all.len(),
        forall|j: int| 0 <= j < chunks.len() ==> (#[trigger] chunks[j]).index == j + base
            && chunks[j].data == all[j + base],
    ensures
        find_chunk_in(chunks, ix) == (if base <= ix < all.len() {
            Option::Some(all[ix as int])
        } else {
            Option::<Seq<u8>>::None
        }),
    decreases chunks.len(),
{
    if chunks.len() > 0 {
        assert forall|j: int| 0 <= j < chunks.drop_first().len()
            implies (#[trigger] chunks.drop_first()[j]).index == j + (base + 1)
                && chunks.drop_first()[j].data == all[j + (base + 1)] by {
            assert(chunks.drop_first()[j] == chunks[j + 1]);
        }
        lemma_find_chunk_shifted(chunks.drop_first(), all, ix, base + 1);
    }
}

// ---------------------------------------------------------------------
// Request dispatch
// ---------------------------------------------------------------------

/// The reply a seeder owes a chunk request: the chunk with its own
/// digest on a hit, a not-found report on a miss, and a validation
/// report where the digest has the wrong length.
pub open spec fn chunk_request_reply(
    files: Seq<StoredFileV>,
    request_id: u64,
    req: proto::ChunkRequestV,
) -> EnvelopeV {
    if req.content_hash.len() != 32 {
        error_env(request_id, error_codes::INVALID_DATA, "invalid content hash length"@)
    } else {
        match find_chunk(files, req.content_hash, req.chunk_index) {
            Option::Some(data) => EnvelopeV {
                version: crate::PROTOCOL_VERSION as u32,
                request_id,
                payload: Option::Some(PayloadV::ChunkResponse(proto::ChunkResponseV {
                    content_hash: req.content_hash,
                    chunk_index: req.chunk_index,
                    data,
                    chunk_hash: digest_of(data),
                })),
            },
            Option::None => error_env(request_id, error_codes::NOT_FOUND, "chunk not found"@),
        }
    }
}

/// An error-report envelope, as a specification value.
pub open spec fn error_env(request_id: u64, code: u32, message: Seq<char>) -> EnvelopeV {
    EnvelopeV {
        version: crate::PROTOCOL_VERSION as u32,
        request_id,
        payload: Option::Some(PayloadV::ErrorResponse(proto::ErrorResponseV { code, message })),
    }
}

/// The reply a seeder owes any decoded envelope.
pub open spec fn seeder_reply(files: Seq<StoredFileV>, e: EnvelopeV) -> EnvelopeV {
    match e.payload {
        Option::Some(PayloadV::ChunkRequest(req)) => chunk_request_reply(
            files,
            e.request_id,
            req,
        ),
        Option::Some(PayloadV::PingRequest(_)) => EnvelopeV {
            version: crate::PROTOCOL_VERSION as u32,
            request_id: e.request_id,
            payload: Option::Some(PayloadV::PingResponse(proto::PingResponseV {
                responder_id: Seq::<u8>::empty(),
            })),
        },
        Option::Some(_) => error_env(
            e.request_id,
            error_codes::INVALID_MESSAGE,
            "unexpected message type"@,
        ),
        Option::None => error_env(e.request_id, error_codes::INVALID_MESSAGE, "empty payload"@),
    }
}

/// The seeder service: answers chunk requests from its store.
pub struct Seeder {
    store: ChunkStore,
}

impl View for Seeder {
    type V = Seq<StoredFileV>;

    closed spec fn view(&self) -> Seq<StoredFileV> {
        self.store@
    }
}

impl Seeder {
    /// Serve a store.
    pub fn new(store: ChunkStore) -> (r: Seeder)
        ensures
            r@ == store@,
    {
        Seeder { store }
    }

    /// The store being served.
    pub fn store(&self) -> (r: &ChunkStore)
        ensures
            r@ == self@,
    {
        &self.store
    }

    /// Answer a chunk request from the store.
    fn handle_chunk_request(&self, request_id: u64, req: proto::ChunkRequest) -> (r: Envelope)
        ensures
            r@ == chunk_request_reply(self@, request_id, req@),
    {
        if req.content_hash.len() != 32 {
            return proto::error_response(
                request_id,
                error_codes::INVALID_DATA,
                "invalid content hash length".to_owned(),
            );
        }
        let content_hash = hash_from_slice(req.content_hash.as_slice());
        match self.store.get_chunk(&content_hash, req.chunk_index) {
            Some(data) => {
                let chunk_hash = hash_bytes(data.as_slice());
                let mut data_copy: Vec<u8> = Vec::new();
                data_copy.extend_from_slice(data.as_slice());
                let mut hash_vec: Vec<u8> = Vec::new();
                hash_vec.extend_from_slice(&chunk_hash);
                proof {
                    assert(data_copy@ =~= find_chunk(
                        self@,
                        req@.content_hash,
                        req.chunk_index,
                    )->0);
                    assert(hash_vec@ =~= digest_of(data_copy@));
                }
                proto::chunk_response(
                    request_id,
                    req.content_hash,
                    req.chunk_index,
                    data_copy,
                    hash_vec,
                )
            },
            None => proto::error_response(
                request_id,
                error_codes::NOT_FOUND,
                "chunk not found".to_owned(),
            ),
        }
    }

    /// Decode one incoming message and build the reply owed to it, paired
    /// with the sender's reply token. A message without a token gets no
    /// reply; undecodable bytes get an invalid-message report under
    /// request zero; an envelope of another version gets that same
    /// report; and on every decodable current-version request the reply
    /// is exactly `seeder_reply`.
    pub fn handle_message(&self, msg: &ReceivedMessage) -> (r: Option<(SenderTag, Vec<u8>)>)
        ensures
            r is Some <==> msg@.sender_tag is Some,
            r matches Some(p) ==> p.0@ == msg@.sender_tag->0,
            forall|e: EnvelopeV| msg@.data == #[trigger] enc_env(e) && e.version
                == crate::PROTOCOL_VERSION as u32 && msg@.sender_tag is Some
                ==> r->Some_0.1@ == enc_env(seeder_reply(self@, e)),
            forall|e: EnvelopeV| msg@.data == #[trigger] enc_env(e) && e.version
                != crate::PROTOCOL_VERSION as u32 && msg@.sender_tag is Some
                ==> r->Some_0.1@ == enc_env(
                error_env(0, error_codes::INVALID_MESSAGE, "undecodable message"@),
            ),
            (forall|e: EnvelopeV| msg@.data != #[trigger] enc_env(e)) && msg@.sender_tag is Some
                ==> r->Some_0.1@ == enc_env(
                error_env(0, error_codes::INVALID_MESSAGE, "undecodable message"@),
            ),
    {
        let sender_tag = match &msg.sender_tag {
            Option::None => {
                return Option::None;
            },
            Option::Some(t) => {
                let mut b: Vec<u8> = Vec::new();
                b.extend_from_slice(t.as_bytes());
                SenderTag::new(b)
            },
        };
        proof {
            assert(sender_tag@ =~= msg@.sender_tag->0);
        }
        let reply = match Envelope::from_bytes(msg.data.as_slice()) {
            Ok(envelope) => {
                proof {
                    // a decoded envelope names the encoding the bytes are
                    assert(msg@.data == enc_env(envelope@));
                }
                let request_id = envelope.request_id;
                match envelope.payload {
                    Option::Some(Payload::ChunkRequest(req)) => self.handle_chunk_request(
                        request_id,
                        req,
                    ),
                    Option::Some(Payload::PingRequest(_)) => Envelope::new(
                        request_id,
                        Payload::PingResponse(proto::PingResponse { responder_id: Vec::new() }),
                    ),
                    Option::Some(_) => proto::error_response(
                        request_id,
                        error_codes::INVALID_MESSAGE,
                        "unexpected message type".to_owned(),
                    ),
                    Option::None => proto::error_response(
                        request_id,
                        error_codes::INVALID_MESSAGE,
                        "empty payload".to_owned(),
                    ),
                }
            },
            Err(_) => proto::error_response(
                0,
                error_codes::INVALID_MESSAGE,
                "undecodable message".to_owned(),
            ),
        };
        let bytes = reply.to_bytes();
        Option::Some((sender_tag, bytes))
    }
}

/// Shorthand for the envelope encoding in contracts.
pub open spec fn enc_env(e: EnvelopeV) -> Seq<u8> {
    proto::enc_envelope(e)
}

} // verus!
