//! Splitting a file into content-addressed chunks and putting it back
//! together.
//!
//! A file is cut into `CHUNK_SIZE` windows, in order; each window gets
//! its own digest, and the whole file gets one over all its bytes. The
//! contracts here carry the chunking laws: concatenating the chunks in
//! index order gives back exactly the input, every chunk respects the
//! size bound and its recorded digest, and reassembly accepts a chunk
//! list exactly when every chunk agrees with its metadata.

use vstd::prelude::*;
use crate::CHUNK_SIZE;
use crate::error::Error;
use crate::hashing::{ContentHash, digest_of, hash_bytes, hash_eq, hash_to_hex};
use crate::keywords::{keywords_of, lower_of, lowercase};
use crate::types::{ChunkInfo, FileMetadata};

verus! {

/// The bytes of a chunk list, joined in order.
pub open spec fn concat_of(chunks: Seq<Seq<u8>>) -> Seq<u8>
    decreases chunks.len(),
{
    if chunks.len() == 0 {
        Seq::<u8>::empty()
    } else {
        chunks[0] + concat_of(chunks.drop_first())
    }
}

pub proof fn lemma_concat_of_push(chunks: Seq<Seq<u8>>, c: Seq<u8>)
    ensures
        concat_of(chunks.push(c)) == concat_of(chunks) + c,
    decreases chunks.len(),
{
    if chunks.len() == 0 {
        assert(chunks.push(c).drop_first() =~= Seq::<Seq<u8>>::empty());
        assert(concat_of(Seq::<Seq<u8>>::empty()) == Seq::<u8>::empty());
        assert(chunks.push(c)[0] == c);
        assert(concat_of(chunks.push(c)) =~= concat_of(chunks) + c);
    } else {
        lemma_concat_of_push(chunks.drop_first(), c);
        assert(chunks.push(c).drop_first() =~= chunks.drop_first().push(c));
        assert(concat_of(chunks.push(c)) =~= concat_of(chunks) + c);
    }
}

/// The i-th 256 KiB window of a byte string; the last one may be short.
pub open spec fn window_of(data: Seq<u8>, i: int) -> Seq<u8> {
    data.subrange(
        i * 262144,
        if data.len() < (i + 1) * 262144 {
            data.len() as int
        } else {
            (i + 1) * 262144
        },
    )
}

/// Whether every chunk before position `i` carries its recorded digest
/// and size: the defect at `i`, if any, is the first.
pub open spec fn first_defect_at(
    cs: Seq<Seq<u8>>,
    infos: Seq<crate::types::ChunkInfoV>,
    i: int,
) -> bool {
    forall|j: int| 0 <= j < i ==> digest_of(#[trigger] cs[j]) == infos[j].hash && cs[j].len()
        == infos[j].size
}

/// Whether a chunk list agrees with a chunk-info list: same count, and
/// every chunk carries exactly the recorded digest and size.
pub open spec fn chunks_match(cs: Seq<Seq<u8>>, infos: Seq<crate::types::ChunkInfoV>) -> bool {
    &&& cs.len() == infos.len()
    &&& forall|i: int| 0 <= i < cs.len() ==> digest_of(#[trigger] cs[i]) == infos[i].hash
    &&& forall|i: int| 0 <= i < cs.len() ==> (#[trigger] cs[i]).len() == infos[i].size
}

/// The file-name extension used for media-type detection: what follows
/// the last dot, unless the dot opens the name or there is none.
pub open spec fn ext_of(name: Seq<char>) -> Option<Seq<char>> {
    let d = last_dot(name);
    if d <= 0 {
        Option::None
    } else {
        Option::Some(name.skip(d + 1))
    }
}

/// The index of the last dot in a name, or -1 where there is none.
pub open spec fn last_dot(s: Seq<char>) -> int
    decreases s.len(),
{
    if s.len() == 0 {
        -1
    } else if s.last() == '.' {
        s.len() - 1
    } else {
        last_dot(s.drop_last())
    }
}

/// The media type assigned to a lower-case extension by the closed
/// lookup table; unknown extensions get none.
pub open spec fn mime_for(e: Seq<char>) -> Option<Seq<char>> {
    if e == "txt"@ { Option::Some("text/plain"@) }
    else if e == "html"@ || e == "htm"@ { Option::Some("text/html"@) }
    else if e == "css"@ { Option::Some("text/css"@) }
    else if e == "js"@ { Option::Some("application/javascript"@) }
    else if e == "json"@ { Option::Some("application/json"@) }
    else if e == "xml"@ { Option::Some("application/xml"@) }
    else if e == "pdf"@ { Option::Some("application/pdf"@) }
    else if e == "zip"@ { Option::Some("application/zip"@) }
    else if e == "gz"@ || e == "gzip"@ { Option::Some("application/gzip"@) }
    else if e == "tar"@ { Option::Some("application/x-tar"@) }
    else if e == "png"@ { Option::Some("image/png"@) }
    else if e == "jpg"@ || e == "jpeg"@ { Option::Some("image/jpeg"@) }
    else if e == "gif"@ { Option::Some("image/gif"@) }
    else if e == "webp"@ { Option::Some("image/webp"@) }
    else if e == "svg"@ { Option::Some("image/svg+xml"@) }
    else if e == "mp3"@ { Option::Some("audio/mpeg"@) }
    else if e == "mp4"@ { Option::Some("video/mp4"@) }
    else if e == "webm"@ { Option::Some("video/webm"@) }
    else if e == "mkv"@ { Option::Some("video/x-matroska"@) }
    else if e == "avi"@ { Option::Some("video/x-msvideo"@) }
    else { Option::None }
}

/// The media type a filename gets: its lowercased extension looked up in
/// the closed table.
pub open spec fn mime_of_name(name: Seq<char>) -> Option<Seq<char>> {
    match ext_of(name) {
        Option::None => Option::None,
        Option::Some(e) => mime_for(lower_of(e)),
    }
}

/// Compare two strings for equal contents.
fn str_eq(a: &String, b: &str) -> (r: bool)
    ensures
        r == (a@ == b@),
{
    let bo = b.to_owned();
    a.eq(&bo)
}

/// Detect a filename's media type from its extension, using a closed
/// lookup table; unknown extensions give none.
pub fn detect_mime_type(filename: &str) -> (r: Option<String>)
    ensures
        r.deep_view() == mime_of_name(filename@),
{
    let chars = crate::hashing::str_chars(filename);
    let mut dot: usize = 0;
    let mut found = false;
    let mut i: usize = 0;
    while i < chars.len()
        invariant
            i <= chars@.len(),
            chars@ == filename@,
            found ==> dot < i && chars@[dot as int] == '.',
            found ==> last_dot(chars@.take(i as int)) == dot,
            !found ==> last_dot(chars@.take(i as int)) == -1,
            dot <= i,
        decreases chars@.len() - i,
    {
        proof {
            assert(chars@.take(i + 1).drop_last() =~= chars@.take(i as int));
            assert(chars@.take(i + 1).last() == chars@[i as int]);
        }
        if chars[i] == '.' {
            dot = i;
            found = true;
        }
        i = i + 1;
    }
    proof {
        assert(chars@.take(chars@.len() as int) =~= chars@);
    }
    if !found || dot == 0 {
        return Option::None;
    }
    let mut ext_chars: Vec<char> = Vec::new();
    let mut j: usize = dot + 1;
    while j < chars.len()
        invariant
            dot + 1 <= j <= chars@.len(),
            chars@ == filename@,
            ext_chars@ == chars@.subrange(dot + 1, j as int),
        decreases chars@.len() - j,
    {
        ext_chars.push(chars[j]);
        proof {
            assert(ext_chars@ =~= chars@.subrange(dot + 1, j + 1));
        }
        j = j + 1;
    }
    proof {
        assert(ext_chars@ =~= filename@.skip(dot + 1));
    }
    let ext = crate::hashing::chars_to_string(&ext_chars);
    let low = lowercase(ext.as_str());
    if str_eq(&low, "txt") { Option::Some("text/plain".to_owned()) }
    else if str_eq(&low, "html") || str_eq(&low, "htm") { Option::Some("text/html".to_owned()) }
    else if str_eq(&low, "css") { Option::Some("text/css".to_owned()) }
    else if str_eq(&low, "js") { Option::Some("application/javascript".to_owned()) }
    else if str_eq(&low, "json") { Option::Some("application/json".to_owned()) }
    else if str_eq(&low, "xml") { Option::Some("application/xml".to_owned()) }
    else if str_eq(&low, "pdf") { Option::Some("application/pdf".to_owned()) }
    else if str_eq(&low, "zip") { Option::Some("application/zip".to_owned()) }
    else if str_eq(&low, "gz") || str_eq(&low, "gzip") {
        Option::Some("application/gzip".to_owned())
    }
    else if str_eq(&low, "tar") { Option::Some("application/x-tar".to_owned()) }
    else if str_eq(&low, "png") { Option::Some("image/png".to_owned()) }
    else if str_eq(&low, "jpg") || str_eq(&low, "jpeg") { Option::Some("image/jpeg".to_owned()) }
    else if str_eq(&low, "gif") { Option::Some("image/gif".to_owned()) }
    else if str_eq(&low, "webp") { Option::Some("image/webp".to_owned()) }
    else if str_eq(&low, "svg") { Option::Some("image/svg+xml".to_owned()) }
    else if str_eq(&low, "mp3") { Option::Some("audio/mpeg".to_owned()) }
    else if str_eq(&low, "mp4") { Option::Some("video/mp4".to_owned()) }
    else if str_eq(&low, "webm") { Option::Some("video/webm".to_owned()) }
    else if str_eq(&low, "mkv") { Option::Some("video/x-matroska".to_owned()) }
    else if str_eq(&low, "avi") { Option::Some("video/x-msvideo".to_owned()) }
    else { Option::None }
}

/// Split a file's bytes into chunks and build its metadata.
///
/// The contract is the chunking algebra: the chunks concatenate back to
/// the input in index order; every chunk is at most `CHUNK_SIZE` bytes
/// and all but the last exactly that; each chunk's recorded digest and
/// size are its own; and the whole-file digest is over all the bytes.
/// One chunk is emitted per window of content, and a zero-byte file
/// gets a single empty chunk so it can still be served and fetched.
#[verifier::rlimit(60)]
pub fn chunk_file(data: &[u8], filename: String, created_at: u64) -> (r: (
    FileMetadata,
    Vec<Vec<u8>>,
))
    requires
        data@.len() <= 0xFFFF_FFFF * 262144,
    ensures
        concat_of(r.1.deep_view()) == data@,
        r.0@.content_hash == digest_of(data@),
        r.0@.size == data@.len(),
        r.0@.filename == filename@,
        r.0@.keywords == keywords_of(filename@),
        r.0@.mime_type == mime_of_name(filename@),
        r.0@.created_at == created_at,
        r.0@.chunks.len() == r.1@.len(),
        r.1@.len() == (if data@.len() == 0 {
            1int
        } else {
            (data@.len() as int + 262143) / 262144
        }),
        r.1@.len() <= 0xFFFF_FFFF,
        forall|i: int| 0 <= i < r.1@.len() ==> {
            &&& (#[trigger] r.0@.chunks[i]).index == i
            &&& r.0@.chunks[i].size == r.1.deep_view()[i].len()
            &&& r.0@.chunks[i].hash == digest_of(r.1.deep_view()[i])
            &&& r.1.deep_view()[i].len() <= CHUNK_SIZE
            &&& (i < r.1@.len() - 1 ==> r.1.deep_view()[i].len() == CHUNK_SIZE)
            &&& r.1.deep_view()[i] == window_of(data@, i)
        },
{
    let mut chunks_data: Vec<Vec<u8>> = Vec::new();
    let mut chunks_info: Vec<ChunkInfo> = Vec::new();
    let mut pos: usize = 0;
    proof {
        assert(chunks_data.deep_view() =~= Seq::<Seq<u8>>::empty());
        assert(concat_of(chunks_data.deep_view()) =~= data@.take(0));
    }
    while pos < data.len()
        invariant
            pos <= data@.len(),
            data@.len() <= 0xFFFF_FFFF * 262144,
            chunks_data@.len() == chunks_info@.len(),
            chunks_data@.len() == 0 ==> pos == 0,
            chunks_data@.len() > 0 ==> pos > (chunks_data@.len() - 1) * 262144,
            pos <= chunks_data@.len() * 262144,
            pos == data@.len() || pos == chunks_data@.len() * 262144,
            concat_of(chunks_data.deep_view()) == data@.take(pos as int),
            forall|i: int| 0 <= i < chunks_data@.len() ==> {
                &&& (#[trigger] chunks_info.deep_view()[i]).index == i
                &&& chunks_info.deep_view()[i].size == chunks_data.deep_view()[i].len()
                &&& chunks_info.deep_view()[i].hash == digest_of(chunks_data.deep_view()[i])
                &&& chunks_data.deep_view()[i].len() <= CHUNK_SIZE
                &&& (i < chunks_data@.len() - 1 ==> chunks_data.deep_view()[i].len()
                    == CHUNK_SIZE)
                &&& chunks_data.deep_view()[i] == window_of(data@, i)
            },
            chunks_data@.len() > 0 ==> (chunks_data.deep_view().last().len() == CHUNK_SIZE
                || pos == data@.len()),
        decreases data@.len() - pos,
    {
        let take = if data.len() - pos < CHUNK_SIZE {
            data.len() - pos
        } else {
            CHUNK_SIZE
        };
        let mut buffer: Vec<u8> = Vec::new();
        buffer.extend_from_slice(&data[pos..pos + take]);
        proof {
            assert(buffer@ =~= data@.subrange(pos as int, pos + take));
        }
        let hash = hash_bytes(buffer.as_slice());
        proof {
            assert(chunks_data@.len() <= 0xFFFF_FFFF) by {
                if chunks_data@.len() > 0 {
                    assert((chunks_data@.len() - 1) * 262144 < pos);
                    assert(pos <= 0xFFFF_FFFF * 262144);
                }
            }
        }
        let index = chunks_info.len() as u32;
        let size = take as u32;
        let ghost old_data = chunks_data.deep_view();
        let ghost old_info = chunks_info.deep_view();
        let ghost piece = data@.subrange(pos as int, pos + take);
        chunks_info.push(ChunkInfo { index, hash, size });
        chunks_data.push(buffer);
        proof {
            assert(chunks_data.deep_view() =~~= old_data.push(piece));
            assert(chunks_info.deep_view() =~= old_info.push(
                crate::types::ChunkInfoV { index, hash: hash@, size },
            ));
            lemma_concat_of_push(old_data, piece);
            assert(data@.take(pos as int) + piece =~= data@.take(pos + take));
            // a short window only happens at the very end
            assert(take == CHUNK_SIZE || pos + take == data@.len());
            // the previous last chunk was full, since input remained
            assert(old_data.len() > 0 ==> old_data.last().len() == CHUNK_SIZE);
            assert forall|t: int| 0 <= t < chunks_data@.len() implies {
                &&& (#[trigger] chunks_info.deep_view()[t]).index == t
                &&& chunks_info.deep_view()[t].size == chunks_data.deep_view()[t].len()
                &&& chunks_info.deep_view()[t].hash == digest_of(chunks_data.deep_view()[t])
                &&& chunks_data.deep_view()[t].len() <= CHUNK_SIZE
                &&& (t < chunks_data@.len() - 1 ==> chunks_data.deep_view()[t].len()
                    == CHUNK_SIZE)
                &&& chunks_data.deep_view()[t] == window_of(data@, t)
            } by {
                if t < old_data.len() {
                    assert(chunks_data.deep_view()[t] == old_data[t]);
                    assert(chunks_info.deep_view()[t] == old_info[t]);
                    if t == old_data.len() - 1 {
                        assert(old_data[t] == old_data.last());
                    }
                } else {
                    assert(chunks_data.deep_view()[t] == piece);
                    assert(chunks_info.deep_view()[t]
                        == (crate::types::ChunkInfoV { index, hash: hash@, size }));
                    // this window starts at a whole number of full chunks
                    assert(pos == t * 262144);
                    assert(piece =~= window_of(data@, t));
                }
            }
        }
        pos = pos + take;
    }
    proof {
        assert(data@.take(pos as int) =~= data@);
        // one chunk per started window: the count is the ceiling
        assert(chunks_data@.len() == (data@.len() as int + 262143) / 262144) by {
            let k = chunks_data@.len() as int;
            if k == 0 {
                assert(data@.len() == 0);
            } else {
                assert((k - 1) * 262144 < data@.len() <= k * 262144);
            }
        }
    }
    if chunks_data.len() == 0 {
        // an empty file still carries one empty chunk
        let buffer: Vec<u8> = Vec::new();
        let hash = hash_bytes(buffer.as_slice());
        chunks_info.push(ChunkInfo { index: 0, hash, size: 0 });
        chunks_data.push(buffer);
        proof {
            assert(data@.len() == 0);
            assert(chunks_data.deep_view() =~~= seq![Seq::<u8>::empty()]);
            assert(chunks_info.deep_view()
                =~= seq![crate::types::ChunkInfoV { index: 0, hash: hash@, size: 0 }]);
            assert(concat_of(chunks_data.deep_view()) =~= data@) by {
                assert(chunks_data.deep_view().drop_first() =~= Seq::<Seq<u8>>::empty());
            }
            assert forall|t: int| 0 <= t < chunks_data@.len() implies {
                &&& (#[trigger] chunks_info.deep_view()[t]).index == t
                &&& chunks_info.deep_view()[t].size == chunks_data.deep_view()[t].len()
                &&& chunks_info.deep_view()[t].hash == digest_of(chunks_data.deep_view()[t])
                &&& chunks_data.deep_view()[t].len() <= CHUNK_SIZE
                &&& (t < chunks_data@.len() - 1 ==> chunks_data.deep_view()[t].len()
                    == CHUNK_SIZE)
                &&& chunks_data.deep_view()[t] == window_of(data@, t)
            } by {
                assert(chunks_data.deep_view()[t] =~= window_of(data@, t));
            }
        }
    }
    let content_hash: ContentHash = hash_bytes(data);
    let keywords = FileMetadata::extract_keywords(filename.as_str());
    let mime_type = detect_mime_type(filename.as_str());
    let size = data.len() as u64;
    let metadata = FileMetadata {
        content_hash,
        filename,
        size,
        mime_type,
        chunks: chunks_info,
        keywords,
        created_at,
    };
    (metadata, chunks_data)
}

/// Whether a chunk's bytes carry the expected digest.
pub fn verify_chunk(data: &[u8], expected_hash: &ContentHash) -> (r: bool)
    ensures
        r == (digest_of(data@) == expected_hash@),
{
    let computed = hash_bytes(data);
    hash_eq(&computed, expected_hash)
}

/// Check a chunk list against a file's metadata and join it back into
/// the file's bytes.
///
/// Succeeds exactly when the list has as many chunks as the metadata and
/// every chunk carries its recorded digest and size; the result is then
/// the chunks joined in order. The whole-file digest is not checked here:
/// that is the downloader's final step.
pub fn reassemble_file(chunks: &Vec<Vec<u8>>, metadata: &FileMetadata) -> (r: Result<
    Vec<u8>,
    Error,
>)
    ensures
        r is Ok <==> chunks_match(chunks.deep_view(), metadata@.chunks),
        r matches Ok(data) ==> data@ == concat_of(chunks.deep_view()),
        r matches Err(e) ==> match e {
            Error::InvalidData(_) => chunks@.len() != metadata@.chunks.len() || exists|i: int|
                0 <= i < chunks@.len() && first_defect_at(
                    chunks.deep_view(),
                    metadata@.chunks,
                    i,
                ) && digest_of(#[trigger] chunks.deep_view()[i]) == metadata@.chunks[i].hash
                    && chunks.deep_view()[i].len() != metadata@.chunks[i].size,
            Error::HashMismatch { .. } => chunks@.len() == metadata@.chunks.len()
                && exists|i: int| 0 <= i < chunks@.len() && first_defect_at(
                chunks.deep_view(),
                metadata@.chunks,
                i,
            ) && digest_of(#[trigger] chunks.deep_view()[i]) != metadata@.chunks[i].hash,
            _ => false,
        },
{
    if chunks.len() != metadata.chunks.len() {
        return Err(Error::InvalidData("chunk count differs from the metadata".to_owned()));
    }
    let mut i: usize = 0;
    while i < chunks.len()
        invariant
            i <= chunks@.len(),
            chunks@.len() == metadata@.chunks.len(),
            forall|j: int| 0 <= j < i ==> digest_of(#[trigger] chunks.deep_view()[j])
                == metadata@.chunks[j].hash,
            forall|j: int| 0 <= j < i ==> (#[trigger] chunks.deep_view()[j]).len()
                == metadata@.chunks[j].size,
        decreases chunks@.len() - i,
    {
        let computed = hash_bytes(chunks[i].as_slice());
        proof {
            assert(chunks.deep_view()[i as int] == chunks@[i as int]@);
            assert(metadata@.chunks[i as int] == metadata.chunks@[i as int]@);
        }
        if !hash_eq(&computed, &metadata.chunks[i].hash) {
            proof {
                assert(exists|k: int|
                    0 <= k < chunks@.len() && first_defect_at(
                        chunks.deep_view(),
                        metadata@.chunks,
                        k,
                    ) && digest_of(#[trigger] chunks.deep_view()[k])
                        != metadata@.chunks[k].hash) by {
                    assert(first_defect_at(chunks.deep_view(), metadata@.chunks, i as int));
                    assert(digest_of(chunks.deep_view()[i as int])
                        != metadata@.chunks[i as int].hash);
                }
            }
            return Err(Error::HashMismatch {
                expected: hash_to_hex(&metadata.chunks[i].hash),
                actual: hash_to_hex(&computed),
            });
        }
        if chunks[i].len() != metadata.chunks[i].size as usize {
            proof {
                assert(exists|k: int|
                    0 <= k < chunks@.len() && first_defect_at(
                        chunks.deep_view(),
                        metadata@.chunks,
                        k,
                    ) && digest_of(#[trigger] chunks.deep_view()[k])
                        == metadata@.chunks[k].hash && chunks.deep_view()[k].len()
                        != metadata@.chunks[k].size) by {
                    assert(first_defect_at(chunks.deep_view(), metadata@.chunks, i as int));
                    assert(digest_of(chunks.deep_view()[i as int])
                        == metadata@.chunks[i as int].hash);
                    assert(chunks.deep_view()[i as int].len()
                        != metadata@.chunks[i as int].size);
                }
            }
            return Err(Error::InvalidData("chunk size differs from the metadata".to_owned()));
        }
        i = i + 1;
    }
    let mut out: Vec<u8> = Vec::new();
    let mut j: usize = 0;
    proof {
        assert(out@ =~= concat_of(chunks.deep_view().take(0)));
        assert(chunks.deep_view().take(0) =~= Seq::<Seq<u8>>::empty());
    }
    while j < chunks.len()
        invariant
            j <= chunks@.len(),
            out@ == concat_of(chunks.deep_view().take(j as int)),
        decreases chunks@.len() - j,
    {
        out.extend_from_slice(chunks[j].as_slice());
        proof {
            lemma_concat_of_push(chunks.deep_view().take(j as int), chunks.deep_view()[j as int]);
            assert(chunks.deep_view().take(j as int).push(chunks.deep_view()[j as int])
                =~= chunks.deep_view().take(j + 1));
        }
        j = j + 1;
    }
    proof {
        assert(chunks.deep_view().take(chunks@.len() as int) =~= chunks.deep_view());
    }
    Ok(out)
}

} // verus!
