//! Client-side exchanges with an index provider: send one request,
//! await one reply, and pin down what every decodable reply means.

use vstd::prelude::*;
use crate::error::Error;
use crate::hashing::hash_from_slice;
use crate::proto;
use crate::proto::{Envelope, EnvelopeV, Payload, PayloadV};
use crate::seeder::enc_env;
use crate::transport::{NymAddress, Transport};
use crate::types::{FileMetadata, SearchResult};

verus! {

/// Seed a request counter from the entropy source, so counters do not
/// collide across sessions sharing a transport identity; a failed
/// source yields zero, which only costs that distinctness.
pub fn random_request_seed() -> u64 {
    match crate::dht::generate_random_node_id() {
        Option::Some(id) => {
            (id[0] as u64) * 0x0100_0000_0000_0000 + (id[1] as u64) * 0x0001_0000_0000_0000
                + (id[2] as u64) * 0x0000_0100_0000_0000 + (id[3] as u64) * 0x0000_0001_0000_0000
                + (id[4] as u64) * 0x0000_0000_0100_0000 + (id[5] as u64) * 0x0000_0000_0001_0000
                + (id[6] as u64) * 0x0000_0000_0000_0100 + (id[7] as u64)
        },
        Option::None => 0,
    }
}

/// Mint the next request identifier from a counter, advancing it.
pub fn next_request_id(counter: &mut u64) -> (r: u64)
    ensures
        r == *old(counter),
        *final(counter) == (if *old(counter) == u64::MAX {
            0u64
        } else {
            (*old(counter) + 1) as u64
        }),
{
    let id = *counter;
    if *counter == u64::MAX {
        *counter = 0;
    } else {
        *counter = *counter + 1;
    }
    id
}

/// Turn one received reply into search results.
///
/// On every decodable current-version envelope the outcome is pinned: a
/// search answer yields exactly its hits whose digests are 32 bytes
/// long, in order; an error report or anything else is refused.
pub fn process_search_reply(data: &[u8]) -> (r: Result<Vec<SearchResult>, Error>)
    ensures
        r matches Ok(out) ==> forall|i: int| 0 <= i < out@.len()
            ==> (#[trigger] out.deep_view()[i]).content_hash.len() == 32,
        (forall|e: EnvelopeV| data@ != #[trigger] enc_env(e)) ==> r is Err,
        forall|e: EnvelopeV| data@ == #[trigger] enc_env(e) && e.version
            != crate::PROTOCOL_VERSION as u32 ==> r == Err::<Vec<SearchResult>, Error>(
            Error::VersionMismatch { expected: crate::PROTOCOL_VERSION, actual: e.version },
        ),
        forall|e: EnvelopeV| data@ == #[trigger] enc_env(e) && e.version
            == crate::PROTOCOL_VERSION as u32 ==> (match e.payload {
            Option::Some(PayloadV::SearchResponse(sr)) => match r {
                Ok(out) => out.deep_view() == sr.results.filter(
                    |w: proto::SearchResultV| w.content_hash.len() == 32,
                ).map_values(|w: proto::SearchResultV| core_result_of(w)),
                Err(_) => false,
            },
            _ => r is Err,
        }),
{
    let envelope = match Envelope::from_bytes(data) {
        Ok(env) => env,
        Err(e) => {
            return Err(e);
        },
    };
    proof {
        // a decoded envelope names the encoding the bytes are
        assert(data@ == enc_env(envelope@));
    }
    match envelope.payload {
        Option::Some(Payload::SearchResponse(resp)) => {
            let ghost fw = |w: proto::SearchResultV| w.content_hash.len() == 32;
            let ghost gw = |w: proto::SearchResultV| core_result_of(w);
            let ghost wire = resp.results.deep_view();
            let mut out: Vec<SearchResult> = Vec::new();
            let mut i: usize = 0;
            proof {
                assert(wire.take(0) =~= Seq::<proto::SearchResultV>::empty());
                assert(wire.take(0).filter(fw) =~= Seq::<proto::SearchResultV>::empty()) by {
                    reveal(Seq::filter);
                }
                assert(out.deep_view() =~= wire.take(0).filter(fw).map_values(gw));
            }
            while i < resp.results.len()
                invariant
                    i <= resp.results@.len(),
                    wire == resp.results.deep_view(),
                    fw == (|w: proto::SearchResultV| w.content_hash.len() == 32),
                    gw == (|w: proto::SearchResultV| core_result_of(w)),
                    out.deep_view() == wire.take(i as int).filter(fw).map_values(gw),
                    forall|t: int| 0 <= t < out@.len()
                        ==> (#[trigger] out.deep_view()[t]).content_hash.len() == 32,
                decreases resp.results@.len() - i,
            {
                let ghost pre = wire.take(i as int);
                proof {
                    assert(wire.take(i + 1) =~= pre.push(wire[i as int]));
                    pre.lemma_filter_push(wire[i as int], fw);
                    assert(wire[i as int] == resp.results@[i as int]@);
                }
                let w = &resp.results[i];
                if w.content_hash.len() == 32 {
                    let content_hash = hash_from_slice(w.content_hash.as_slice());
                    let mut seeders: Vec<String> = Vec::new();
                    let mut k: usize = 0;
                    while k < w.seeders.len()
                        invariant
                            k <= w.seeders@.len(),
                            seeders.deep_view() == w.seeders.deep_view().take(k as int),
                        decreases w.seeders@.len() - k,
                    {
                        let ghost sb = seeders.deep_view();
                        seeders.push(w.seeders[k].clone());
                        proof {
                            assert(w.seeders.deep_view().len() == w.seeders@.len());
                            assert(sb.len() == k as int);
                            assert forall|t: int| 0 <= t < seeders.deep_view().len()
                                implies #[trigger] seeders.deep_view()[t]
                                    == w.seeders.deep_view().take(k + 1)[t] by {
                                if t < k {
                                    assert(seeders.deep_view()[t] == sb[t]);
                                } else {
                                    assert(seeders.deep_view()[t] == seeders@[t]@);
                                    assert(w.seeders.deep_view()[t] == w.seeders@[t]@);
                                }
                            }
                            assert(seeders.deep_view() =~= w.seeders.deep_view().take(k + 1));
                        }
                        k = k + 1;
                    }
                    proof {
                        assert(w.seeders.deep_view().take(w.seeders@.len() as int)
                            =~= w.seeders.deep_view());
                    }
                    let hit = SearchResult {
                        content_hash,
                        filename: w.filename.clone(),
                        size: w.size,
                        chunk_count: w.chunk_count,
                        relevance_bits: w.relevance_bits,
                        seeders,
                    };
                    let ghost ob = out.deep_view();
                    out.push(hit);
                    proof {
                        assert(out.deep_view().len() == ob.len() + 1);
                        assert forall|t: int| 0 <= t < out.deep_view().len()
                            implies #[trigger] out.deep_view()[t]
                                == pre.filter(fw).map_values(gw).push(gw(wire[i as int]))[t] by {
                            if t < ob.len() {
                                assert(out.deep_view()[t] == ob[t]);
                            } else {
                                assert(out.deep_view()[t] == out@[t]@);
                            }
                        }
                        assert(out.deep_view() =~= pre.filter(fw).map_values(gw).push(
                            gw(wire[i as int]),
                        ));
                        assert(pre.filter(fw).push(wire[i as int]).map_values(gw)
                            =~= pre.filter(fw).map_values(gw).push(gw(wire[i as int])));
                    }
                }
                i = i + 1;
            }
            proof {
                assert(wire.take(resp.results@.len() as int) =~= wire);
                assert(wire.len() == resp.results@.len());
            }
            Ok(out)
        },
        Option::Some(Payload::ErrorResponse(err)) => Err(Error::Protocol(err.message)),
        _ => Err(Error::Protocol("unexpected response type".to_owned())),
    }
}

/// The client-side form of one wire hit.
pub open spec fn core_result_of(w: proto::SearchResultV) -> crate::types::SearchResultV {
    crate::types::SearchResultV {
        content_hash: w.content_hash,
        filename: w.filename,
        size: w.size,
        chunk_count: w.chunk_count,
        relevance_bits: w.relevance_bits,
        seeders: w.seeders,
    }
}

/// Turn one received reply into the outcome of a publish.
///
/// On every decodable current-version envelope the outcome is pinned: a
/// successful publish answer yields success; a refused one, an error
/// report, or anything else is an error.
pub fn process_publish_reply(data: &[u8]) -> (r: Result<(), Error>)
    ensures
        (forall|e: EnvelopeV| data@ != #[trigger] enc_env(e)) ==> r is Err,
        forall|e: EnvelopeV| data@ == #[trigger] enc_env(e) && e.version
            != crate::PROTOCOL_VERSION as u32 ==> r == Err::<(), Error>(
            Error::VersionMismatch { expected: crate::PROTOCOL_VERSION, actual: e.version },
        ),
        forall|e: EnvelopeV| data@ == #[trigger] enc_env(e) && e.version
            == crate::PROTOCOL_VERSION as u32 ==> (match e.payload {
            Option::Some(PayloadV::PublishResponse(pr)) => (r is Ok <==> pr.success),
            _ => r is Err,
        }),
{
    let envelope = match Envelope::from_bytes(data) {
        Ok(env) => env,
        Err(e) => {
            return Err(e);
        },
    };
    proof {
        assert(data@ == enc_env(envelope@));
    }
    match envelope.payload {
        Option::Some(Payload::PublishResponse(resp)) => {
            if resp.success {
                Ok(())
            } else {
                Err(Error::Protocol(resp.error))
            }
        },
        Option::Some(Payload::ErrorResponse(err)) => Err(Error::Protocol(err.message)),
        _ => Err(Error::Protocol("unexpected response type".to_owned())),
    }
}

/// Ask an index provider for hits on a query: send a search request
/// under a fresh identifier, await one reply within the timeout, and
/// read it as `process_search_reply` pins down.
pub fn search_index_provider<T: Transport>(
    transport: &mut T,
    counter: &mut u64,
    index_provider: &NymAddress,
    query: &str,
    max_results: u32,
    timeout_ms: u64,
) -> (r: Result<Vec<SearchResult>, Error>)
    ensures
        *final(counter) == (if *old(counter) == u64::MAX {
            0u64
        } else {
            (*old(counter) + 1) as u64
        }),
        r matches Ok(out) ==> forall|i: int| 0 <= i < out@.len()
            ==> (#[trigger] out.deep_view()[i]).content_hash.len() == 32,
{
    let request_id = next_request_id(counter);
    let envelope = proto::search_request(request_id, query.to_owned(), max_results);
    let bytes = envelope.to_bytes();
    match transport.send(index_provider, bytes) {
        Ok(()) => {},
        Err(e) => {
            return Err(e);
        },
    }
    match transport.receive_timeout(timeout_ms) {
        Ok(Option::Some(msg)) => process_search_reply(msg.data.as_slice()),
        Ok(Option::None) => Err(Error::ReceiveFailed(
            "no search reply arrived in time".to_owned(),
        )),
        Err(e) => Err(e),
    }
}

/// Build the announcement of a file: a publish request carrying exactly
/// the metadata's digest, name, keywords and shape, and the announcing
/// node's address, under the given request identifier.
pub fn publish_envelope(
    request_id: u64,
    metadata: &FileMetadata,
    our_address: &NymAddress,
) -> (e: Envelope)
    requires
        metadata@.chunks.len() <= 0xFFFF_FFFF,
    ensures
        e@ == (EnvelopeV {
            version: crate::PROTOCOL_VERSION as u32,
            request_id,
            payload: Option::Some(PayloadV::PublishRequest(proto::PublishRequestV {
                content_hash: metadata@.content_hash,
                filename: metadata@.filename,
                keywords: metadata@.keywords,
                size: metadata@.size,
                chunk_count: metadata@.chunks.len() as u32,
                nym_address: our_address@,
            })),
        }),
{
    let mut content_hash: Vec<u8> = Vec::new();
    content_hash.extend_from_slice(&metadata.content_hash);
    proof {
        assert(content_hash@ =~= metadata@.content_hash);
    }
    let mut keywords: Vec<String> = Vec::new();
    let mut i: usize = 0;
    proof {
        assert(keywords.deep_view() =~= metadata.keywords.deep_view().take(0));
    }
    while i < metadata.keywords.len()
        invariant
            i <= metadata.keywords@.len(),
            keywords.deep_view() == metadata.keywords.deep_view().take(i as int),
        decreases metadata.keywords@.len() - i,
    {
        let ghost before = keywords.deep_view();
        keywords.push(metadata.keywords[i].clone());
        proof {
            assert(metadata.keywords.deep_view().len() == metadata.keywords@.len());
            assert(before.len() == i as int);
            assert forall|t: int| 0 <= t < keywords.deep_view().len()
                implies #[trigger] keywords.deep_view()[t]
                    == metadata.keywords.deep_view().take(i + 1)[t] by {
                if t < i {
                    assert(keywords.deep_view()[t] == before[t]);
                } else {
                    assert(keywords.deep_view()[t] == keywords@[t]@);
                    assert(metadata.keywords.deep_view()[t] == metadata.keywords@[t]@);
                }
            }
            assert(keywords.deep_view() =~= metadata.keywords.deep_view().take(i + 1));
        }
        i = i + 1;
    }
    proof {
        assert(metadata.keywords.deep_view().take(metadata.keywords@.len() as int)
            =~= metadata.keywords.deep_view());
    }
    Envelope::new(
        request_id,
        Payload::PublishRequest(proto::PublishRequest {
            content_hash,
            filename: metadata.filename.clone(),
            keywords,
            size: metadata.size,
            chunk_count: metadata.chunks.len() as u32,
            nym_address: our_address.as_str().to_owned(),
        }),
    )
}

/// Announce a file to an index provider: send the `publish_envelope`
/// request, await one reply within the timeout, and read it as
/// `process_publish_reply` pins down.
pub fn publish_to_index_provider<T: Transport>(
    transport: &mut T,
    counter: &mut u64,
    index_provider: &NymAddress,
    metadata: &FileMetadata,
    our_address: &NymAddress,
    timeout_ms: u64,
) -> (r: Result<(), Error>)
    requires
        metadata@.chunks.len() <= 0xFFFF_FFFF,
    ensures
        *final(counter) == (if *old(counter) == u64::MAX {
            0u64
        } else {
            (*old(counter) + 1) as u64
        }),
{
    let request_id = next_request_id(counter);
    let envelope = publish_envelope(request_id, metadata, our_address);
    let bytes = envelope.to_bytes();
    match transport.send(index_provider, bytes) {
        Ok(()) => {},
        Err(e) => {
            return Err(e);
        },
    }
    match transport.receive_timeout(timeout_ms) {
        Ok(Option::Some(msg)) => process_publish_reply(msg.data.as_slice()),
        Ok(Option::None) => Err(Error::ReceiveFailed(
            "no publish reply arrived in time".to_owned(),
        )),
        Err(e) => Err(e),
    }
}

} // verus!
