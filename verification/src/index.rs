//! The index provider: keyword search over published files, with
//! deduplicated multi-seeder aggregation and TTL-based expiry.
//!
//! The store keeps one entry per distinct content digest and one seeder
//! row per digest-and-address pair. Publishing again under the same
//! digest updates the entry in place — co-publishers are never dropped —
//! and refreshes that seeder's publication time. A query matches an
//! entry when every query token occurs among the entry's tokens; expiry
//! removes exactly the seeders whose time has run out and the entries
//! left with no seeder.

use vstd::prelude::*;
use crate::error::Error;
use crate::error_codes;
use crate::hashing::{ContentHash, hash_from_slice};
use crate::keywords::{tokens_of, tokenize};
use crate::proto;
use crate::proto::{Envelope, EnvelopeV, Payload, PayloadV};
use crate::seeder::{enc_env, error_env};
use crate::transport::{ReceivedMessage, SenderTag};
use crate::types::{IndexEntry, IndexEntryV, SearchResult, SearchResultV};

verus! {

/// One seeder row: who offers a digest, since when, and for how long.
#[derive(Debug, Clone)]
pub struct SeederRow {
    pub content_hash: ContentHash,
    pub nym_address: String,
    pub published_at: u64,
    pub ttl: u64,
}

pub ghost struct SeederRowV {
    pub content_hash: Seq<u8>,
    pub nym_address: Seq<char>,
    pub published_at: u64,
    pub ttl: u64,
}

impl View for SeederRow {
    type V = SeederRowV;

    open spec fn view(&self) -> SeederRowV {
        SeederRowV {
            content_hash: self.content_hash@,
            nym_address: self.nym_address@,
            published_at: self.published_at,
            ttl: self.ttl,
        }
    }
}

impl DeepView for SeederRow {
    type V = SeederRowV;

    open spec fn deep_view(&self) -> SeederRowV {
        self.view()
    }
}

pub ghost struct SearchIndexV {
    pub entries: Seq<IndexEntryV>,
    pub seeders: Seq<SeederRowV>,
}

/// No two entries share a digest.
pub open spec fn distinct_entries(entries: Seq<IndexEntryV>) -> bool {
    forall|i: int, j: int| 0 <= i < j < entries.len()
        ==> (#[trigger] entries[i]).content_hash != (#[trigger] entries[j]).content_hash
}

/// No two seeder rows share both digest and address.
pub open spec fn distinct_rows(seeders: Seq<SeederRowV>) -> bool {
    forall|i: int, j: int| 0 <= i < j < seeders.len() ==> !((#[trigger] seeders[
        i]).content_hash == (#[trigger] seeders[j]).content_hash && seeders[i].nym_address
        == seeders[j].nym_address)
}

/// The store's well-formedness: one entry per digest, one row per digest
/// and address. An empty index has it, and every operation keeps it.
pub open spec fn index_wf(st: SearchIndexV) -> bool {
    distinct_entries(st.entries) && distinct_rows(st.seeders)
}

// ---------------------------------------------------------------------
// The index algebra
// ---------------------------------------------------------------------

/// Insert an entry, or update the entry already under its digest in
/// place, keeping its position.
pub open spec fn upsert_entries(entries: Seq<IndexEntryV>, e: IndexEntryV) -> Seq<IndexEntryV>
    decreases entries.len(),
{
    if entries.len() == 0 {
        seq![e]
    } else if entries[0].content_hash == e.content_hash {
        seq![e] + entries.drop_first()
    } else {
        seq![entries[0]] + upsert_entries(entries.drop_first(), e)
    }
}

/// Insert a seeder row, or refresh the row already under its digest and
/// address, keeping its position.
pub open spec fn upsert_seeders(seeders: Seq<SeederRowV>, row: SeederRowV) -> Seq<SeederRowV>
    decreases seeders.len(),
{
    if seeders.len() == 0 {
        seq![row]
    } else if seeders[0].content_hash == row.content_hash && seeders[0].nym_address
        == row.nym_address {
        seq![row] + seeders.drop_first()
    } else {
        seq![seeders[0]] + upsert_seeders(seeders.drop_first(), row)
    }
}

/// The addresses offering a digest, in the order they first published.
pub open spec fn seeder_addrs(seeders: Seq<SeederRowV>, h: Seq<u8>) -> Seq<Seq<char>> {
    seeders.filter(|s: SeederRowV| s.content_hash == h).map_values(
        |s: SeederRowV| s.nym_address,
    )
}

/// The tokens a published entry can be found under: the tokens of its
/// filename and of each of its keywords.
pub open spec fn entry_tokens(e: IndexEntryV) -> Seq<Seq<char>> {
    tokens_of(e.filename) + flat_tokens(e.keywords)
}

pub open spec fn flat_tokens(ks: Seq<Seq<char>>) -> Seq<Seq<char>>
    decreases ks.len(),
{
    if ks.len() == 0 {
        Seq::<Seq<char>>::empty()
    } else {
        tokens_of(ks[0]) + flat_tokens(ks.drop_first())
    }
}

/// Whether a token list finds an entry: it has at least one token and
/// every one of them occurs among the entry's tokens.
pub open spec fn matches_tokens(e: IndexEntryV, qtoks: Seq<Seq<char>>) -> bool {
    &&& qtoks.len() > 0
    &&& forall|i: int| 0 <= i < qtoks.len() ==> entry_tokens(e).contains(#[trigger] qtoks[i])
}

/// Whether a query matches an entry: the query has at least one token
/// and every query token occurs among the entry's tokens.
pub open spec fn matches_query(e: IndexEntryV, q: Seq<char>) -> bool {
    matches_tokens(e, tokens_of(q))
}

/// The result bound: zero asks for the maximum, and nothing exceeds 100.
pub open spec fn clamp_results(max_results: u32) -> int {
    if max_results == 0 || max_results > 100 {
        100
    } else {
        max_results as int
    }
}

/// A hit for an entry: its row, with every known seeder aggregated. The
/// relevance score of a hit is fixed at the bits of one: ranking is not
/// computed here.
pub open spec fn result_of(e: IndexEntryV, seeders: Seq<SeederRowV>) -> SearchResultV {
    SearchResultV {
        content_hash: e.content_hash,
        filename: e.filename,
        size: e.size,
        chunk_count: e.chunk_count,
        relevance_bits: 0x3F80_0000,
        seeders: seeder_addrs(seeders, e.content_hash),
    }
}

/// What a search returns: the matching entries in store order, up to the
/// clamped bound, each with its aggregated seeders.
pub open spec fn search_spec(st: SearchIndexV, q: Seq<char>, max_results: u32) -> Seq<
    SearchResultV,
> {
    let matching = st.entries.filter(|e: IndexEntryV| matches_query(e, q));
    let n = if clamp_results(max_results) <= matching.len() {
        clamp_results(max_results)
    } else {
        matching.len() as int
    };
    matching.take(n).map_values(|e: IndexEntryV| result_of(e, st.seeders))
}

/// Whether a seeder row is expired at the given time.
pub open spec fn expired(s: SeederRowV, now: u64) -> bool {
    s.published_at + s.ttl < now
}

/// Whether any seeder row offers a digest.
pub open spec fn has_any_seeder(seeders: Seq<SeederRowV>, h: Seq<u8>) -> bool {
    exists|i: int| 0 <= i < seeders.len() && (#[trigger] seeders[i]).content_hash == h
}

// ---------------------------------------------------------------------
// The store
// ---------------------------------------------------------------------

/// The search index: entries by digest, seeder rows by digest and
/// address. The surrounding program owns persistence; this store is the
/// semantics.
pub struct SearchIndex {
    path: String,
    entries: Vec<IndexEntry>,
    seeders: Vec<SeederRow>,
}

impl View for SearchIndex {
    type V = SearchIndexV;

    closed spec fn view(&self) -> SearchIndexV {
        SearchIndexV { entries: self.entries.deep_view(), seeders: self.seeders.deep_view() }
    }
}

/// Statistics over the index: how many entries, and their total size.
#[derive(Debug, Clone)]
pub struct IndexStats {
    pub entry_count: u64,
    pub total_size_bytes: u64,
}

/// The sum of the entries' sizes.
pub open spec fn sum_sizes(entries: Seq<IndexEntryV>) -> int
    decreases entries.len(),
{
    if entries.len() == 0 {
        0
    } else {
        entries[0].size + sum_sizes(entries.drop_first())
    }
}

impl SearchIndex {
    /// An empty index over a storage location.
    pub fn open(path: &str) -> (r: SearchIndex)
        ensures
            r@.entries == Seq::<IndexEntryV>::empty(),
            r@.seeders == Seq::<SeederRowV>::empty(),
            index_wf(r@),
    {
        let r = SearchIndex { path: path.to_owned(), entries: Vec::new(), seeders: Vec::new() };
        proof {
            assert(r@.entries =~= Seq::<IndexEntryV>::empty());
            assert(r@.seeders =~= Seq::<SeederRowV>::empty());
        }
        r
    }

    /// Add or refresh a publication: the entry row is inserted or
    /// updated in place under its digest — never dropped and re-added,
    /// so co-publishers survive — and the seeder row under the digest
    /// and address is inserted or refreshed.
    pub fn upsert(&mut self, entry: &IndexEntry, nym_address: &str) -> (r: Result<(), Error>)
        ensures
            r is Ok,
            final(self)@.entries == upsert_entries(old(self)@.entries, entry@),
            final(self)@.seeders == upsert_seeders(
                old(self)@.seeders,
                SeederRowV {
                    content_hash: entry@.content_hash,
                    nym_address: nym_address@,
                    published_at: entry@.published_at,
                    ttl: entry@.ttl,
                },
            ),
            index_wf(old(self)@) ==> index_wf(final(self)@),
    {
        let e = clone_entry(entry);
        let ghost ev = entry@;
        let mut i: usize = 0;
        let mut found = false;
        while i < self.entries.len() && !found
            invariant
                i <= self.entries@.len(),
                e@ == ev,
                !found ==> forall|j: int| 0 <= j < i
                    ==> (#[trigger] self@.entries[j]).content_hash != ev.content_hash,
                found ==> i < self.entries@.len() && self@.entries[i as int].content_hash
                    == ev.content_hash && forall|j: int| 0 <= j < i
                    ==> (#[trigger] self@.entries[j]).content_hash != ev.content_hash,
            decreases self.entries@.len() - i + (if found { 0int } else { 1int }),
        {
            proof {
                assert(self@.entries[i as int] == self.entries@[i as int]@);
            }
            if crate::hashing::hash_eq(&self.entries[i].content_hash, &e.content_hash) {
                found = true;
            } else {
                i = i + 1;
            }
        }
        let ghost prior = self@.entries;
        if found {
            self.entries.set(i, e);
            proof {
                assert(self@.entries =~= prior.update(i as int, ev)) by {
                    assert forall|j: int| 0 <= j < self@.entries.len()
                        implies #[trigger] self@.entries[j] == prior.update(i as int, ev)[j] by {
                        assert(self@.entries[j] == self.entries@[j]@);
                    }
                }
                lemma_upsert_entries_update(prior, i as int, ev);
            }
        } else {
            self.entries.push(e);
            proof {
                assert(self@.entries =~= prior.push(ev)) by {
                    assert forall|j: int| 0 <= j < self@.entries.len()
                        implies #[trigger] self@.entries[j] == prior.push(ev)[j] by {
                        assert(self@.entries[j] == self.entries@[j]@);
                    }
                }
                lemma_upsert_entries_append(prior, ev);
            }
        }
        let row = SeederRow {
            content_hash: entry.content_hash,
            nym_address: nym_address.to_owned(),
            published_at: entry.published_at,
            ttl: entry.ttl,
        };
        let ghost rv = row@;
        let mut k: usize = 0;
        let mut rfound = false;
        while k < self.seeders.len() && !rfound
            invariant
                k <= self.seeders@.len(),
                row@ == rv,
                !rfound ==> forall|j: int| 0 <= j < k ==> !((#[trigger] self@.seeders[
                    j]).content_hash == rv.content_hash && self@.seeders[j].nym_address
                    == rv.nym_address),
                rfound ==> k < self.seeders@.len() && self@.seeders[k as int].content_hash
                    == rv.content_hash && self@.seeders[k as int].nym_address == rv.nym_address
                    && forall|j: int| 0 <= j < k ==> !((#[trigger] self@.seeders[
                    j]).content_hash == rv.content_hash && self@.seeders[j].nym_address
                    == rv.nym_address),
            decreases self.seeders@.len() - k + (if rfound { 0int } else { 1int }),
        {
            proof {
                assert(self@.seeders[k as int] == self.seeders@[k as int]@);
            }
            let same_hash = crate::hashing::hash_eq(
                &self.seeders[k].content_hash,
                &row.content_hash,
            );
            let same_addr = self.seeders[k].nym_address.eq(&row.nym_address);
            if same_hash && same_addr {
                rfound = true;
            } else {
                k = k + 1;
            }
        }
        let ghost sprior = self@.seeders;
        if rfound {
            self.seeders.set(k, row);
            proof {
                assert(self@.seeders =~= sprior.update(k as int, rv)) by {
                    assert forall|j: int| 0 <= j < self@.seeders.len()
                        implies #[trigger] self@.seeders[j] == sprior.update(k as int, rv)[j] by {
                        assert(self@.seeders[j] == self.seeders@[j]@);
                    }
                }
                lemma_upsert_seeders_update(sprior, k as int, rv);
            }
        } else {
            self.seeders.push(row);
            proof {
                assert(self@.seeders =~= sprior.push(rv)) by {
                    assert forall|j: int| 0 <= j < self@.seeders.len()
                        implies #[trigger] self@.seeders[j] == sprior.push(rv)[j] by {
                        assert(self@.seeders[j] == self.seeders@[j]@);
                    }
                }
                lemma_upsert_seeders_append(sprior, rv);
            }
        }
        proof {
            if index_wf(old(self)@) {
                lemma_upsert_entries_members(old(self)@.entries, ev);
                lemma_upsert_seeders_members(old(self)@.seeders, rv);
            }
        }
        Ok(())
    }

    /// Search the index: the entries every one of the query's tokens
    /// occurs in, up to the clamped bound, each hit carrying all its
    /// seeders. Hits come in store order with a fixed relevance score:
    /// no ranking is computed here.
    pub fn search(&self, query: &str, max_results: u32) -> (r: Result<Vec<SearchResult>, Error>)
        ensures
            r matches Ok(out) ==> out.deep_view() == search_spec(self@, query@, max_results),
            r matches Ok(out) ==> (distinct_entries(self@.entries) ==> forall|i: int, j: int|
                0 <= i < j < out@.len() ==> (#[trigger] out.deep_view()[i]).content_hash
                    != (#[trigger] out.deep_view()[j]).content_hash),
            r is Ok,
    {
        let qtokens = tokenize(query);
        let limit: usize = if max_results == 0 || max_results > 100 {
            100
        } else {
            max_results as usize
        };
        let ghost f = |e: IndexEntryV| matches_query(e, query@);
        let ghost g = |e: IndexEntryV| result_of(e, self@.seeders);
        let mut out: Vec<SearchResult> = Vec::new();
        let mut i: usize = 0;
        proof {
            assert(self@.entries.take(0) =~= Seq::<IndexEntryV>::empty());
            assert(self@.entries.take(0).filter(f) =~= Seq::<IndexEntryV>::empty()) by {
                reveal(Seq::filter);
            }
            assert(out.deep_view() =~= self@.entries.take(0).filter(f).map_values(g));
        }
        while i < self.entries.len()
            invariant
                i <= self.entries@.len(),
                f == (|e: IndexEntryV| matches_query(e, query@)),
                g == (|e: IndexEntryV| result_of(e, self@.seeders)),
                qtokens.deep_view() == tokens_of(query@),
                out.deep_view() == self@.entries.take(i as int).filter(f).map_values(g),
            decreases self.entries@.len() - i,
        {
            let ghost pre = self@.entries.take(i as int);
            proof {
                assert(self@.entries.take(i + 1) =~= pre.push(self@.entries[i as int]));
                pre.lemma_filter_push(self@.entries[i as int], f);
                assert(self@.entries[i as int] == self.entries@[i as int]@);
            }
            if entry_matches(&self.entries[i], &qtokens) {
                let hit = self.result_for(&self.entries[i]);
                let ghost old_deep = out.deep_view();
                out.push(hit);
                proof {
                    assert(out.deep_view() =~= pre.filter(f).map_values(g).push(
                        g(self@.entries[i as int]),
                    ));
                    assert(pre.filter(f).push(self@.entries[i as int]).map_values(g)
                        =~= pre.filter(f).map_values(g).push(g(self@.entries[i as int])));
                }
            }
            i = i + 1;
        }
        proof {
            assert(self@.entries.take(self.entries@.len() as int) =~= self@.entries);
        }
        if out.len() > limit {
            out.truncate(limit);
        }
        proof {
            let matching = self@.entries.filter(f);
            let n = if clamp_results(max_results) <= matching.len() {
                clamp_results(max_results)
            } else {
                matching.len() as int
            };
            assert(out.deep_view() =~= matching.take(n).map_values(g)) by {
                assert(matching.map_values(g).take(n) =~= matching.take(n).map_values(g));
            }
            if distinct_entries(self@.entries) {
                lemma_filter_keeps_pairwise(
                    self@.entries,
                    f,
                    |a: IndexEntryV, b: IndexEntryV| a.content_hash == b.content_hash,
                );
                assert forall|a: int, b: int| 0 <= a < b < out.deep_view().len()
                    implies (#[trigger] out.deep_view()[a]).content_hash
                        != (#[trigger] out.deep_view()[b]).content_hash by {
                    assert(out.deep_view()[a] == g(matching.take(n)[a]));
                    assert(out.deep_view()[b] == g(matching.take(n)[b]));
                    assert(matching.take(n)[a] == matching[a]);
                    assert(matching.take(n)[b] == matching[b]);
                }
            }
        }
        Ok(out)
    }

    /// Build the hit for one entry.
    fn result_for(&self, entry: &IndexEntry) -> (r: SearchResult)
        ensures
            r@ == result_of(entry@, self@.seeders),
    {
        let mut addrs: Vec<String> = Vec::new();
        let ghost fs = |s: SeederRowV| s.content_hash == entry@.content_hash;
        let ghost gs = |s: SeederRowV| s.nym_address;
        let mut k: usize = 0;
        proof {
            assert(self@.seeders.take(0) =~= Seq::<SeederRowV>::empty());
            assert(self@.seeders.take(0).filter(fs) =~= Seq::<SeederRowV>::empty()) by {
                reveal(Seq::filter);
            }
            assert(addrs.deep_view() =~= self@.seeders.take(0).filter(fs).map_values(gs));
        }
        while k < self.seeders.len()
            invariant
                k <= self.seeders@.len(),
                fs == (|s: SeederRowV| s.content_hash == entry@.content_hash),
                gs == (|s: SeederRowV| s.nym_address),
                addrs.deep_view() == self@.seeders.take(k as int).filter(fs).map_values(gs),
            decreases self.seeders@.len() - k,
        {
            let ghost pre = self@.seeders.take(k as int);
            proof {
                assert(self@.seeders.take(k + 1) =~= pre.push(self@.seeders[k as int]));
                pre.lemma_filter_push(self@.seeders[k as int], fs);
                assert(self@.seeders[k as int] == self.seeders@[k as int]@);
            }
            if crate::hashing::hash_eq(&self.seeders[k].content_hash, &entry.content_hash) {
                addrs.push(self.seeders[k].nym_address.clone());
                proof {
                    assert(pre.filter(fs).push(self@.seeders[k as int]).map_values(gs)
                        =~= pre.filter(fs).map_values(gs).push(gs(self@.seeders[k as int])));
                    assert(addrs.deep_view() =~= pre.filter(fs).map_values(gs).push(
                        gs(self@.seeders[k as int]),
                    ));
                }
            }
            k = k + 1;
        }
        proof {
            assert(self@.seeders.take(self.seeders@.len() as int) =~= self@.seeders);
        }
        SearchResult {
            content_hash: entry.content_hash,
            filename: entry.filename.clone(),
            size: entry.size,
            chunk_count: entry.chunk_count,
            relevance_bits: 0x3F80_0000,
            seeders: addrs,
        }
    }

    /// Remove every seeder whose time has run out at `now`, then every
    /// entry left with no seeder; nothing else is touched. Returns how
    /// many rows of both kinds went.
    pub fn cleanup_expired(&mut self, now: u64) -> (r: Result<usize, Error>)
        ensures
            r is Ok,
            final(self)@.seeders == old(self)@.seeders.filter(
                |s: SeederRowV| !expired(s, now),
            ),
            final(self)@.entries == old(self)@.entries.filter(
                |e: IndexEntryV| has_any_seeder(final(self)@.seeders, e.content_hash),
            ),
            r matches Ok(n) ==> ({
                let removed = old(self)@.seeders.len() - final(self)@.seeders.len()
                    + old(self)@.entries.len() - final(self)@.entries.len();
                n == (if removed > usize::MAX as int {
                    usize::MAX as int
                } else {
                    removed
                })
            }),
            index_wf(old(self)@) ==> index_wf(final(self)@),
    {
        let ghost fs = |s: SeederRowV| !expired(s, now);
        let mut kept: Vec<SeederRow> = Vec::new();
        let mut k: usize = 0;
        proof {
            assert(self@.seeders.take(0) =~= Seq::<SeederRowV>::empty());
            assert(self@.seeders.take(0).filter(fs) =~= Seq::<SeederRowV>::empty()) by {
                reveal(Seq::filter);
            }
            assert(kept.deep_view() =~= self@.seeders.take(0).filter(fs));
        }
        while k < self.seeders.len()
            invariant
                k <= self.seeders@.len(),
                fs == (|s: SeederRowV| !expired(s, now)),
                kept.deep_view() == self@.seeders.take(k as int).filter(fs),
            decreases self.seeders@.len() - k,
        {
            let ghost pre = self@.seeders.take(k as int);
            proof {
                assert(self@.seeders.take(k + 1) =~= pre.push(self@.seeders[k as int]));
                pre.lemma_filter_push(self@.seeders[k as int], fs);
                assert(self@.seeders[k as int] == self.seeders@[k as int]@);
            }
            let row = &self.seeders[k];
            let still_alive = if row.published_at >= now {
                true
            } else {
                row.ttl >= now - row.published_at
            };
            if still_alive {
                kept.push(clone_row(row));
                proof {
                    assert(kept.deep_view() =~= pre.filter(fs).push(self@.seeders[k as int]));
                }
            }
            k = k + 1;
        }
        proof {
            assert(self@.seeders.take(self.seeders@.len() as int) =~= self@.seeders);
        }
        proof {
            self@.seeders.lemma_filter_len(fs);
            assert(kept.deep_view().len() == kept@.len());
            assert(self@.seeders.len() == self.seeders@.len());
        }
        let removed_seeders = self.seeders.len() - kept.len();
        let ghost old_entries = self@.entries;
        let ghost new_seeders = kept.deep_view();
        let ghost fe = |e: IndexEntryV| has_any_seeder(new_seeders, e.content_hash);
        let mut kept_entries: Vec<IndexEntry> = Vec::new();
        let mut i: usize = 0;
        proof {
            assert(old_entries.take(0) =~= Seq::<IndexEntryV>::empty());
            assert(old_entries.take(0).filter(fe) =~= Seq::<IndexEntryV>::empty()) by {
                reveal(Seq::filter);
            }
            assert(kept_entries.deep_view() =~= old_entries.take(0).filter(fe));
        }
        while i < self.entries.len()
            invariant
                i <= self.entries@.len(),
                old_entries == self@.entries,
                new_seeders == kept.deep_view(),
                fe == (|e: IndexEntryV| has_any_seeder(new_seeders, e.content_hash)),
                kept_entries.deep_view() == old_entries.take(i as int).filter(fe),
            decreases self.entries@.len() - i,
        {
            let ghost pre = old_entries.take(i as int);
            proof {
                assert(old_entries.take(i + 1) =~= pre.push(old_entries[i as int]));
                pre.lemma_filter_push(old_entries[i as int], fe);
                assert(old_entries[i as int] == self.entries@[i as int]@);
            }
            if any_seeder_for(&kept, &self.entries[i].content_hash) {
                kept_entries.push(clone_entry(&self.entries[i]));
                proof {
                    assert(kept_entries.deep_view() =~= pre.filter(fe).push(
                        old_entries[i as int],
                    ));
                }
            }
            i = i + 1;
        }
        proof {
            assert(old_entries.take(self.entries@.len() as int) =~= old_entries);
        }
        proof {
            old_entries.lemma_filter_len(fe);
            assert(kept_entries.deep_view().len() == kept_entries@.len());
            assert(old_entries.len() == self.entries@.len());
        }
        let removed_entries = self.entries.len() - kept_entries.len();
        self.seeders = kept;
        self.entries = kept_entries;
        proof {
            if index_wf(old(self)@) {
                lemma_filter_keeps_pairwise(
                    old(self)@.seeders,
                    fs,
                    |a: SeederRowV, b: SeederRowV| a.content_hash == b.content_hash
                        && a.nym_address == b.nym_address,
                );
                lemma_filter_keeps_pairwise(
                    old(self)@.entries,
                    fe,
                    |a: IndexEntryV, b: IndexEntryV| a.content_hash == b.content_hash,
                );
            }
        }
        if removed_entries > usize::MAX - removed_seeders {
            return Ok(usize::MAX);
        }
        Ok(removed_seeders + removed_entries)
    }

    /// The entries, in store order, for the surrounding program to
    /// persist.
    pub fn entries(&self) -> (r: &Vec<IndexEntry>)
        ensures
            r.deep_view() == self@.entries,
    {
        &self.entries
    }

    /// The seeder rows, in store order, for the surrounding program to
    /// persist.
    pub fn seeder_rows(&self) -> (r: &Vec<SeederRow>)
        ensures
            r.deep_view() == self@.seeders,
    {
        &self.seeders
    }

    /// How many entries the index holds and how many bytes they
    /// describe, where the total fits the counter.
    pub fn stats(&self) -> (r: Result<IndexStats, Error>)
        ensures
            r is Ok,
            r matches Ok(s) ==> s.entry_count == self@.entries.len(),
            r matches Ok(s) ==> (sum_sizes(self@.entries) <= u64::MAX ==> s.total_size_bytes
                == sum_sizes(self@.entries)),
    {
        let mut total: u64 = 0;
        let mut saturated = false;
        let mut i: usize = 0;
        proof {
            lemma_sum_take(self@.entries, 0);
        }
        while i < self.entries.len()
            invariant
                i <= self.entries@.len(),
                !saturated ==> total == sum_sizes(self@.entries.take(i as int)),
                saturated ==> sum_sizes(self@.entries.take(i as int)) > u64::MAX,
                sum_sizes(self@.entries.take(i as int)) >= 0,
            decreases self.entries@.len() - i,
        {
            proof {
                lemma_sum_take_step(self@.entries, i as int);
                assert(self@.entries[i as int] == self.entries@[i as int]@);
                lemma_sum_nonneg(self@.entries.take(i + 1));
            }
            let size = self.entries[i].size;
            if !saturated && total <= u64::MAX - size {
                total = total + size;
            } else {
                saturated = true;
            }
            i = i + 1;
        }
        proof {
            assert(self@.entries.take(self.entries@.len() as int) =~= self@.entries);
        }
        Ok(IndexStats { entry_count: self.entries.len() as u64, total_size_bytes: total })
    }
}

/// Whether any kept row offers the digest.
fn any_seeder_for(rows: &Vec<SeederRow>, h: &ContentHash) -> (r: bool)
    ensures
        r == has_any_seeder(rows.deep_view(), h@),
{
    let mut k: usize = 0;
    while k < rows.len()
        invariant
            k <= rows@.len(),
            forall|j: int| 0 <= j < k ==> (#[trigger] rows.deep_view()[j]).content_hash != h@,
        decreases rows@.len() - k,
    {
        if crate::hashing::hash_eq(&rows[k].content_hash, h) {
            proof {
                assert(rows.deep_view()[k as int].content_hash == h@);
            }
            return true;
        }
        proof {
            assert(rows.deep_view()[k as int] == rows@[k as int]@);
        }
        k = k + 1;
    }
    false
}

/// Whether every query token occurs among the entry's tokens.
fn entry_matches(entry: &IndexEntry, qtokens: &Vec<String>) -> (r: bool)
    ensures
        r == matches_tokens(entry@, qtokens.deep_view()),
{
    let etokens = entry_tokens_exec(entry);
    if qtokens.len() == 0 {
        return false;
    }
    let mut i: usize = 0;
    while i < qtokens.len()
        invariant
            i <= qtokens@.len(),
            etokens.deep_view() == entry_tokens(entry@),
            forall|j: int| 0 <= j < i ==> entry_tokens(entry@).contains(
                #[trigger] qtokens.deep_view()[j],
            ),
        decreases qtokens@.len() - i,
    {
        if !contains_string(&etokens, &qtokens[i]) {
            proof {
                assert(qtokens.deep_view()[i as int] == qtokens@[i as int]@);
            }
            return false;
        }
        proof {
            assert(qtokens.deep_view()[i as int] == qtokens@[i as int]@);
        }
        i = i + 1;
    }
    true
}

/// The entry's searchable tokens: filename tokens, then each keyword's.
fn entry_tokens_exec(entry: &IndexEntry) -> (r: Vec<String>)
    ensures
        r.deep_view() == entry_tokens(entry@),
{
    let mut out = tokenize(entry.filename.as_str());
    let mut i: usize = 0;
    proof {
        assert(flat_tokens(entry@.keywords.take(0)) =~= Seq::<Seq<char>>::empty());
        assert(out.deep_view() =~= tokens_of(entry@.filename) + flat_tokens(
            entry@.keywords.take(0),
        ));
    }
    while i < entry.keywords.len()
        invariant
            i <= entry.keywords@.len(),
            out.deep_view() == tokens_of(entry@.filename) + flat_tokens(
                entry@.keywords.take(i as int),
            ),
        decreases entry.keywords@.len() - i,
    {
        let more = tokenize(entry.keywords[i].as_str());
        let ghost before = out.deep_view();
        let mut m: usize = 0;
        while m < more.len()
            invariant
                m <= more@.len(),
                out.deep_view() == before + more.deep_view().take(m as int),
            decreases more@.len() - m,
        {
            let ghost obefore = out.deep_view();
            out.push(more[m].clone());
            proof {
                assert(more.deep_view()[m as int] == more@[m as int]@);
                assert(out.deep_view().len() == obefore.len() + 1);
                assert forall|t: int| 0 <= t < out.deep_view().len()
                    implies #[trigger] out.deep_view()[t]
                        == (before + more.deep_view().take(m + 1))[t] by {
                    if t < obefore.len() {
                        assert(out.deep_view()[t] == obefore[t]);
                    } else {
                        assert(out.deep_view()[t] == out@[t]@);
                    }
                }
                assert(out.deep_view() =~= before + more.deep_view().take(m + 1));
            }
            m = m + 1;
        }
        proof {
            assert(more.deep_view().take(more@.len() as int) =~= more.deep_view());
            assert(entry@.keywords[i as int] == entry.keywords@[i as int]@);
            lemma_flat_tokens_push(entry@.keywords.take(i as int), entry@.keywords[i as int]);
            assert(entry@.keywords.take(i as int).push(entry@.keywords[i as int])
                =~= entry@.keywords.take(i + 1));
            assert(out.deep_view() =~= tokens_of(entry@.filename) + flat_tokens(
                entry@.keywords.take(i + 1),
            ));
        }
        i = i + 1;
    }
    proof {
        assert(entry@.keywords.take(entry.keywords@.len() as int) =~= entry@.keywords);
    }
    out
}

proof fn lemma_flat_tokens_push(ks: Seq<Seq<char>>, k: Seq<char>)
    ensures
        flat_tokens(ks.push(k)) == flat_tokens(ks) + tokens_of(k),
    decreases ks.len(),
{
    if ks.len() == 0 {
        assert(ks.push(k).drop_first() =~= Seq::<Seq<char>>::empty());
        assert(flat_tokens(Seq::<Seq<char>>::empty()) == Seq::<Seq<char>>::empty());
        assert(ks.push(k)[0] == k);
        assert(flat_tokens(ks.push(k)) =~= flat_tokens(ks) + tokens_of(k));
    } else {
        lemma_flat_tokens_push(ks.drop_first(), k);
        assert(ks.push(k).drop_first() =~= ks.drop_first().push(k));
        assert(flat_tokens(ks.push(k)) =~= flat_tokens(ks) + tokens_of(k));
    }
}

/// Whether a string with the given contents occurs in the list.
fn contains_string(v: &Vec<String>, s: &String) -> (r: bool)
    ensures
        r == v.deep_view().contains(s@),
{
    let mut k: usize = 0;
    while k < v.len()
        invariant
            k <= v@.len(),
            forall|j: int| 0 <= j < k ==> (#[trigger] v.deep_view()[j]) != s@,
        decreases v@.len() - k,
    {
        if v[k].eq(s) {
            proof {
                assert(v.deep_view()[k as int] == s@);
            }
            return true;
        }
        proof {
            assert(v.deep_view()[k as int] == v@[k as int]@);
        }
        k = k + 1;
    }
    proof {
        if v.deep_view().contains(s@) {
            let w = choose|j: int| 0 <= j < v.deep_view().len() && v.deep_view()[j] == s@;
            assert(v.deep_view()[w] != s@);
        }
    }
    false
}

/// Copy an entry field for field.
fn clone_entry(e: &IndexEntry) -> (r: IndexEntry)
    ensures
        r@ == e@,
{
    let mut keywords: Vec<String> = Vec::new();
    let mut j: usize = 0;
    while j < e.keywords.len()
        invariant
            j <= e.keywords@.len(),
            keywords.deep_view() == e.keywords.deep_view().take(j as int),
        decreases e.keywords@.len() - j,
    {
        let ghost before = keywords.deep_view();
        keywords.push(e.keywords[j].clone());
        proof {
            assert(e.keywords.deep_view().len() == e.keywords@.len());
            assert(before.len() == j as int);
            assert(keywords.deep_view().len() == j + 1);
            assert forall|t: int| 0 <= t < keywords.deep_view().len()
                implies #[trigger] keywords.deep_view()[t]
                    == e.keywords.deep_view().take(j + 1)[t] by {
                if t < j {
                    assert(keywords.deep_view()[t] == before[t]);
                } else {
                    assert(keywords.deep_view()[t] == keywords@[t]@);
                    assert(e.keywords.deep_view()[t] == e.keywords@[t]@);
                }
            }
            assert(keywords.deep_view() =~= e.keywords.deep_view().take(j + 1));
        }
        j = j + 1;
    }
    proof {
        assert(e.keywords.deep_view().take(e.keywords@.len() as int) =~= e.keywords.deep_view());
    }
    IndexEntry {
        content_hash: e.content_hash,
        filename: e.filename.clone(),
        keywords,
        size: e.size,
        chunk_count: e.chunk_count,
        published_at: e.published_at,
        ttl: e.ttl,
    }
}

/// Copy a seeder row field for field.
fn clone_row(s: &SeederRow) -> (r: SeederRow)
    ensures
        r@ == s@,
{
    SeederRow {
        content_hash: s.content_hash,
        nym_address: s.nym_address.clone(),
        published_at: s.published_at,
        ttl: s.ttl,
    }
}

proof fn lemma_sum_take(entries: Seq<IndexEntryV>, n: int)
    requires
        n == 0,
    ensures
        sum_sizes(entries.take(0)) == 0,
{
    assert(entries.take(0) =~= Seq::<IndexEntryV>::empty());
}

proof fn lemma_sum_nonneg(entries: Seq<IndexEntryV>)
    ensures
        sum_sizes(entries) >= 0,
    decreases entries.len(),
{
    if entries.len() > 0 {
        lemma_sum_nonneg(entries.drop_first());
    }
}

proof fn lemma_sum_take_step(entries: Seq<IndexEntryV>, i: int)
    requires
        0 <= i < entries.len(),
    ensures
        sum_sizes(entries.take(i + 1)) == sum_sizes(entries.take(i)) + entries[i].size,
    decreases i,
{
    if i == 0 {
        assert(entries.take(1).drop_first() =~= Seq::<IndexEntryV>::empty());
        assert(entries.take(1)[0] == entries[0]);
        assert(entries.take(0) =~= Seq::<IndexEntryV>::empty());
    } else {
        assert(entries.take(i + 1).drop_first() =~= entries.drop_first().take(i));
        assert(entries.take(i).drop_first() =~= entries.drop_first().take(i - 1));
        assert(entries.take(i + 1)[0] == entries[0]);
        assert(entries.take(i)[0] == entries[0]);
        lemma_sum_take_step(entries.drop_first(), i - 1);
        assert(entries.drop_first()[i - 1] == entries[i]);
    }
}

/// A filter of a list whose elements are pairwise unrelated keeps them
/// pairwise unrelated, and every kept element stands in the original.
proof fn lemma_filter_keeps_pairwise<A>(s: Seq<A>, p: spec_fn(A) -> bool, bad: spec_fn(A, A) -> bool)
    requires
        forall|i: int, j: int| 0 <= i < j < s.len() ==> !bad(#[trigger] s[i], #[trigger] s[j]),
    ensures
        forall|i: int, j: int| 0 <= i < j < s.filter(p).len() ==> !bad(
            #[trigger] s.filter(p)[i],
            #[trigger] s.filter(p)[j],
        ),
        forall|t: int| 0 <= t < s.filter(p).len() ==> exists|u: int|
            0 <= u < s.len() && #[trigger] s.filter(p)[t] == s[u],
    decreases s.len(),
{
    reveal(Seq::filter);
    if s.len() > 0 {
        let dl = s.drop_last();
        assert forall|i: int, j: int| 0 <= i < j < dl.len()
            implies !bad(#[trigger] dl[i], #[trigger] dl[j]) by {
            assert(dl[i] == s[i] && dl[j] == s[j]);
        }
        lemma_filter_keeps_pairwise(dl, p, bad);
        assert forall|t: int| 0 <= t < s.filter(p).len() implies exists|u: int|
            0 <= u < s.len() && #[trigger] s.filter(p)[t] == s[u] by {
            if t < dl.filter(p).len() {
                let u = choose|u: int| 0 <= u < dl.len() && dl.filter(p)[t] == dl[u];
                assert(s.filter(p)[t] == s[u]);
            } else {
                assert(s.filter(p)[t] == s[s.len() - 1]);
            }
        }
        assert forall|i: int, j: int| 0 <= i < j < s.filter(p).len() implies !bad(
            #[trigger] s.filter(p)[i],
            #[trigger] s.filter(p)[j],
        ) by {
            if j < dl.filter(p).len() {
            } else {
                assert(p(s.last()));
                assert(s.filter(p)[j] == s[s.len() - 1]);
                assert(s.filter(p)[i] == dl.filter(p)[i]);
                let u = choose|u: int| 0 <= u < dl.len() && dl.filter(p)[i] == dl[u];
                assert(s.filter(p)[i] == s[u]);
                assert(!bad(s[u], s[s.len() - 1]));
            }
        }
    }
}

/// An upsert of an entry keeps the digests pairwise distinct, and every
/// resulting element is the new entry or one of the old ones.
proof fn lemma_upsert_entries_members(entries: Seq<IndexEntryV>, e: IndexEntryV)
    requires
        distinct_entries(entries),
    ensures
        distinct_entries(upsert_entries(entries, e)),
        forall|t: int| 0 <= t < upsert_entries(entries, e).len()
            ==> #[trigger] upsert_entries(entries, e)[t] == e || exists|u: int|
            0 <= u < entries.len() && upsert_entries(entries, e)[t] == entries[u],
    decreases entries.len(),
{
    let up = upsert_entries(entries, e);
    if entries.len() == 0 {
        assert(up =~= seq![e]);
    } else if entries[0].content_hash == e.content_hash {
        assert(up == seq![e] + entries.drop_first());
        assert forall|i: int, j: int| 0 <= i < j < up.len()
            implies (#[trigger] up[i]).content_hash != (#[trigger] up[j]).content_hash by {
            if i == 0 {
                assert(up[j] == entries[j]);
                assert(entries[0].content_hash != entries[j].content_hash);
            } else {
                assert(up[i] == entries[i] && up[j] == entries[j]);
            }
        }
        assert forall|t: int| 0 <= t < up.len() implies #[trigger] up[t] == e || exists|u: int|
            0 <= u < entries.len() && up[t] == entries[u] by {
            if t > 0 {
                assert(up[t] == entries[t]);
            }
        }
    } else {
        let dl = entries.drop_first();
        assert forall|i: int, j: int| 0 <= i < j < dl.len()
            implies (#[trigger] dl[i]).content_hash != (#[trigger] dl[j]).content_hash by {
            assert(dl[i] == entries[i + 1] && dl[j] == entries[j + 1]);
        }
        lemma_upsert_entries_members(dl, e);
        let sub = upsert_entries(dl, e);
        assert(up == seq![entries[0]] + sub);
        assert forall|t: int| 0 <= t < up.len() implies #[trigger] up[t] == e || exists|u: int|
            0 <= u < entries.len() && up[t] == entries[u] by {
            if t == 0 {
                assert(up[0] == entries[0]);
            } else {
                assert(up[t] == sub[t - 1]);
                if sub[t - 1] == e {
                } else {
                    let u = choose|u: int| 0 <= u < dl.len() && sub[t - 1] == dl[u];
                    assert(up[t] == entries[u + 1]);
                }
            }
        }
        assert forall|i: int, j: int| 0 <= i < j < up.len()
            implies (#[trigger] up[i]).content_hash != (#[trigger] up[j]).content_hash by {
            if i == 0 {
                assert(up[j] == sub[j - 1]);
                if sub[j - 1] == e {
                    assert(up[j].content_hash == e.content_hash);
                    assert(up[0].content_hash != e.content_hash);
                } else {
                    let u = choose|u: int| 0 <= u < dl.len() && sub[j - 1] == dl[u];
                    assert(up[j] == entries[u + 1]);
                }
            } else {
                assert(up[i] == sub[i - 1] && up[j] == sub[j - 1]);
            }
        }
    }
}

/// An upsert of a seeder row keeps the digest-and-address pairs
/// pairwise distinct, and every resulting row is the new one or old.
proof fn lemma_upsert_seeders_members(seeders: Seq<SeederRowV>, row: SeederRowV)
    requires
        distinct_rows(seeders),
    ensures
        distinct_rows(upsert_seeders(seeders, row)),
        forall|t: int| 0 <= t < upsert_seeders(seeders, row).len()
            ==> #[trigger] upsert_seeders(seeders, row)[t] == row || exists|u: int|
            0 <= u < seeders.len() && upsert_seeders(seeders, row)[t] == seeders[u],
    decreases seeders.len(),
{
    let up = upsert_seeders(seeders, row);
    if seeders.len() == 0 {
        assert(up =~= seq![row]);
    } else if seeders[0].content_hash == row.content_hash && seeders[0].nym_address
        == row.nym_address {
        assert(up == seq![row] + seeders.drop_first());
        assert forall|i: int, j: int| 0 <= i < j < up.len() implies !((#[trigger] up[
            i]).content_hash == (#[trigger] up[j]).content_hash && up[i].nym_address
            == up[j].nym_address) by {
            if i == 0 {
                assert(up[j] == seeders[j]);
                assert(!(seeders[0].content_hash == seeders[j].content_hash
                    && seeders[0].nym_address == seeders[j].nym_address));
            } else {
                assert(up[i] == seeders[i] && up[j] == seeders[j]);
            }
        }
        assert forall|t: int| 0 <= t < up.len() implies #[trigger] up[t] == row || exists|
            u: int,
        | 0 <= u < seeders.len() && up[t] == seeders[u] by {
            if t > 0 {
                assert(up[t] == seeders[t]);
            }
        }
    } else {
        let dl = seeders.drop_first();
        assert forall|i: int, j: int| 0 <= i < j < dl.len() implies !((#[trigger] dl[
            i]).content_hash == (#[trigger] dl[j]).content_hash && dl[i].nym_address
            == dl[j].nym_address) by {
            assert(dl[i] == seeders[i + 1] && dl[j] == seeders[j + 1]);
        }
        lemma_upsert_seeders_members(dl, row);
        let sub = upsert_seeders(dl, row);
        assert(up == seq![seeders[0]] + sub);
        assert forall|t: int| 0 <= t < up.len() implies #[trigger] up[t] == row || exists|
            u: int,
        | 0 <= u < seeders.len() && up[t] == seeders[u] by {
            if t == 0 {
                assert(up[0] == seeders[0]);
            } else {
                assert(up[t] == sub[t - 1]);
                if sub[t - 1] == row {
                } else {
                    let u = choose|u: int| 0 <= u < dl.len() && sub[t - 1] == dl[u];
                    assert(up[t] == seeders[u + 1]);
                }
            }
        }
        assert forall|i: int, j: int| 0 <= i < j < up.len() implies !((#[trigger] up[
            i]).content_hash == (#[trigger] up[j]).content_hash && up[i].nym_address
            == up[j].nym_address) by {
            if i == 0 {
                assert(up[j] == sub[j - 1]);
                if sub[j - 1] == row {
                    assert(!(up[0].content_hash == row.content_hash && up[0].nym_address
                        == row.nym_address));
                } else {
                    let u = choose|u: int| 0 <= u < dl.len() && sub[j - 1] == dl[u];
                    assert(up[j] == seeders[u + 1]);
                }
            } else {
                assert(up[i] == sub[i - 1] && up[j] == sub[j - 1]);
            }
        }
    }
}

proof fn lemma_upsert_entries_update(entries: Seq<IndexEntryV>, i: int, e: IndexEntryV)
    requires
        0 <= i < entries.len(),
        entries[i].content_hash == e.content_hash,
        forall|j: int| 0 <= j < i ==> (#[trigger] entries[j]).content_hash != e.content_hash,
    ensures
        upsert_entries(entries, e) == entries.update(i, e),
    decreases i,
{
    if i == 0 {
        assert(upsert_entries(entries, e) == seq![e] + entries.drop_first());
        assert(seq![e] + entries.drop_first() =~= entries.update(0, e));
    } else {
        assert(entries[0].content_hash != e.content_hash);
        assert forall|j: int| 0 <= j < i - 1
            implies (#[trigger] entries.drop_first()[j]).content_hash != e.content_hash by {
            assert(entries.drop_first()[j] == entries[j + 1]);
        }
        assert(entries.drop_first()[i - 1] == entries[i]);
        lemma_upsert_entries_update(entries.drop_first(), i - 1, e);
        assert(upsert_entries(entries, e) == seq![entries[0]] + upsert_entries(
            entries.drop_first(),
            e,
        ));
        assert(seq![entries[0]] + entries.drop_first().update(i - 1, e) =~= entries.update(
            i,
            e,
        ));
    }
}

proof fn lemma_upsert_entries_append(entries: Seq<IndexEntryV>, e: IndexEntryV)
    requires
        forall|j: int| 0 <= j < entries.len() ==> (#[trigger] entries[j]).content_hash
            != e.content_hash,
    ensures
        upsert_entries(entries, e) == entries.push(e),
    decreases entries.len(),
{
    if entries.len() == 0 {
        assert(upsert_entries(entries, e) == seq![e]);
        assert(seq![e] =~= entries.push(e));
    } else {
        assert forall|j: int| 0 <= j < entries.drop_first().len()
            implies (#[trigger] entries.drop_first()[j]).content_hash != e.content_hash by {
            assert(entries.drop_first()[j] == entries[j + 1]);
        }
        lemma_upsert_entries_append(entries.drop_first(), e);
        assert(upsert_entries(entries, e) == seq![entries[0]] + upsert_entries(
            entries.drop_first(),
            e,
        ));
        assert(seq![entries[0]] + entries.drop_first().push(e) =~= entries.push(e));
    }
}

proof fn lemma_upsert_seeders_update(seeders: Seq<SeederRowV>, i: int, row: SeederRowV)
    requires
        0 <= i < seeders.len(),
        seeders[i].content_hash == row.content_hash,
        seeders[i].nym_address == row.nym_address,
        forall|j: int| 0 <= j < i ==> !((#[trigger] seeders[j]).content_hash == row.content_hash
            && seeders[j].nym_address == row.nym_address),
    ensures
        upsert_seeders(seeders, row) == seeders.update(i, row),
    decreases i,
{
    if i == 0 {
        assert(upsert_seeders(seeders, row) == seq![row] + seeders.drop_first());
        assert(seq![row] + seeders.drop_first() =~= seeders.update(0, row));
    } else {
        assert(!(seeders[0].content_hash == row.content_hash && seeders[0].nym_address
            == row.nym_address));
        assert forall|j: int| 0 <= j < i - 1
            implies !((#[trigger] seeders.drop_first()[j]).content_hash == row.content_hash
                && seeders.drop_first()[j].nym_address == row.nym_address) by {
            assert(seeders.drop_first()[j] == seeders[j + 1]);
        }
        assert(seeders.drop_first()[i - 1] == seeders[i]);
        lemma_upsert_seeders_update(seeders.drop_first(), i - 1, row);
        assert(upsert_seeders(seeders, row) == seq![seeders[0]] + upsert_seeders(
            seeders.drop_first(),
            row,
        ));
        assert(seq![seeders[0]] + seeders.drop_first().update(i - 1, row) =~= seeders.update(
            i,
            row,
        ));
    }
}

proof fn lemma_upsert_seeders_append(seeders: Seq<SeederRowV>, row: SeederRowV)
    requires
        forall|j: int| 0 <= j < seeders.len() ==> !((#[trigger] seeders[j]).content_hash
            == row.content_hash && seeders[j].nym_address == row.nym_address),
    ensures
        upsert_seeders(seeders, row) == seeders.push(row),
    decreases seeders.len(),
{
    if seeders.len() == 0 {
        assert(upsert_seeders(seeders, row) == seq![row]);
        assert(seq![row] =~= seeders.push(row));
    } else {
        assert forall|j: int| 0 <= j < seeders.drop_first().len()
            implies !((#[trigger] seeders.drop_first()[j]).content_hash == row.content_hash
                && seeders.drop_first()[j].nym_address == row.nym_address) by {
            assert(seeders.drop_first()[j] == seeders[j + 1]);
        }
        lemma_upsert_seeders_append(seeders.drop_first(), row);
        assert(upsert_seeders(seeders, row) == seq![seeders[0]] + upsert_seeders(
            seeders.drop_first(),
            row,
        ));
        assert(seq![seeders[0]] + seeders.drop_first().push(row) =~= seeders.push(row));
    }
}

// ---------------------------------------------------------------------
// Laws of publish and search
// ---------------------------------------------------------------------

/// Publishing an entry and then searching finds it: after `upsert` of an
/// entry under a fresh digest, a search whose every token occurs among
/// the entry's tokens returns a hit carrying the entry's digest, with
/// the publisher among its seeders — provided the already-matching
/// entries leave room within the clamped result bound.
pub proof fn lemma_publish_then_search(
    st: SearchIndexV,
    e: IndexEntryV,
    a: Seq<char>,
    q: Seq<char>,
    max_results: u32,
)
    requires
        matches_query(e, q),
        st.entries.filter(|x: IndexEntryV| matches_query(x, q)).len() + 1 <= clamp_results(
            max_results,
        ),
        forall|j: int| 0 <= j < st.entries.len() ==> (#[trigger] st.entries[j]).content_hash
            != e.content_hash,
        forall|j: int| 0 <= j < st.seeders.len() ==> !((#[trigger] st.seeders[j]).content_hash
            == e.content_hash && st.seeders[j].nym_address == a),
    ensures
        ({
            let row = SeederRowV {
                content_hash: e.content_hash,
                nym_address: a,
                published_at: e.published_at,
                ttl: e.ttl,
            };
            let st2 = SearchIndexV {
                entries: upsert_entries(st.entries, e),
                seeders: upsert_seeders(st.seeders, row),
            };
            let results = search_spec(st2, q, max_results);
            exists|k: int| 0 <= k < results.len() && (#[trigger] results[k]).content_hash
                == e.content_hash && results[k].seeders.contains(a)
        }),
{
    let f = |x: IndexEntryV| matches_query(x, q);
    let row = SeederRowV {
        content_hash: e.content_hash,
        nym_address: a,
        published_at: e.published_at,
        ttl: e.ttl,
    };
    let st2 = SearchIndexV {
        entries: upsert_entries(st.entries, e),
        seeders: upsert_seeders(st.seeders, row),
    };
    lemma_upsert_entries_append(st.entries, e);
    st.entries.lemma_filter_push(e, f);
    let matching = st2.entries.filter(f);
    assert(matching == st.entries.filter(f).push(e));
    let k = matching.len() - 1;
    assert(matching[k] == e);
    let n = if clamp_results(max_results) <= matching.len() {
        clamp_results(max_results)
    } else {
        matching.len() as int
    };
    assert(n == matching.len());
    assert(matching.take(n) =~= matching);
    let g = |x: IndexEntryV| result_of(x, st2.seeders);
    let results = search_spec(st2, q, max_results);
    assert(results[k] == g(e));
    lemma_upsert_seeders_append(st.seeders, row);
    let hp = |s: SeederRowV| s.content_hash == e.content_hash;
    st.seeders.lemma_filter_push(row, hp);
    let rows = st2.seeders.filter(hp);
    assert(rows == st.seeders.filter(hp).push(row));
    let addrs = seeder_addrs(st2.seeders, e.content_hash);
    assert(addrs[addrs.len() - 1] == row.nym_address);
    assert(addrs.contains(a));
    assert(0 <= k < results.len() && results[k].content_hash == e.content_hash
        && results[k].seeders.contains(a));
}

/// Two publishers of the same file are aggregated into one hit: after a
/// second `upsert` of the same entry from a different address, a search
/// that matches the entry returns exactly one hit, carrying both
/// addresses — provided the digest was fresh and nothing else matched.
pub proof fn lemma_two_publishers_one_hit(
    st: SearchIndexV,
    e: IndexEntryV,
    a: Seq<char>,
    b: Seq<char>,
    q: Seq<char>,
    max_results: u32,
)
    requires
        matches_query(e, q),
        a != b,
        forall|j: int| 0 <= j < st.entries.len() ==> (#[trigger] st.entries[j]).content_hash
            != e.content_hash && !matches_query(st.entries[j], q),
        forall|j: int| 0 <= j < st.seeders.len() ==> (#[trigger] st.seeders[j]).content_hash
            != e.content_hash,
    ensures
        ({
            let row_a = SeederRowV {
                content_hash: e.content_hash,
                nym_address: a,
                published_at: e.published_at,
                ttl: e.ttl,
            };
            let row_b = SeederRowV {
                content_hash: e.content_hash,
                nym_address: b,
                published_at: e.published_at,
                ttl: e.ttl,
            };
            let st2 = SearchIndexV {
                entries: upsert_entries(upsert_entries(st.entries, e), e),
                seeders: upsert_seeders(upsert_seeders(st.seeders, row_a), row_b),
            };
            let results = search_spec(st2, q, max_results);
            &&& results.len() == 1
            &&& results[0].content_hash == e.content_hash
            &&& results[0].seeders == seq![a, b]
        }),
{
    let f = |x: IndexEntryV| matches_query(x, q);
    let row_a = SeederRowV {
        content_hash: e.content_hash,
        nym_address: a,
        published_at: e.published_at,
        ttl: e.ttl,
    };
    let row_b = SeederRowV {
        content_hash: e.content_hash,
        nym_address: b,
        published_at: e.published_at,
        ttl: e.ttl,
    };
    // the first publish appends the entry; the second updates it in place
    lemma_upsert_entries_append(st.entries, e);
    let es1 = st.entries.push(e);
    assert(es1[st.entries.len() as int].content_hash == e.content_hash);
    assert forall|j: int| 0 <= j < st.entries.len()
        implies (#[trigger] es1[j]).content_hash != e.content_hash by {
        assert(es1[j] == st.entries[j]);
    }
    lemma_upsert_entries_update(es1, st.entries.len() as int, e);
    assert(es1.update(st.entries.len() as int, e) =~= es1);
    let st2_entries = upsert_entries(upsert_entries(st.entries, e), e);
    assert(st2_entries == es1);
    // only the new entry matches the query
    st.entries.lemma_all_neg_filter_empty(f);
    st.entries.lemma_filter_push(e, f);
    let matching = st2_entries.filter(f);
    assert(matching =~= seq![e]);
    // the two seeder rows are appended in publication order
    lemma_upsert_seeders_append(st.seeders, row_a);
    let s1 = st.seeders.push(row_a);
    assert forall|j: int| 0 <= j < s1.len() implies !((#[trigger] s1[j]).content_hash
        == row_b.content_hash && s1[j].nym_address == row_b.nym_address) by {
        if j < st.seeders.len() {
            assert(s1[j] == st.seeders[j]);
        } else {
            assert(s1[j] == row_a);
        }
    }
    lemma_upsert_seeders_append(s1, row_b);
    let rows = s1.push(row_b);
    let st2 = SearchIndexV { entries: st2_entries, seeders: rows };
    // aggregation keeps exactly the two addresses, in order
    let hp = |s: SeederRowV| s.content_hash == e.content_hash;
    st.seeders.lemma_all_neg_filter_empty(hp);
    st.seeders.lemma_filter_push(row_a, hp);
    s1.lemma_filter_push(row_b, hp);
    assert(rows.filter(hp) == st.seeders.filter(hp).push(row_a).push(row_b));
    assert(rows.filter(hp) =~= seq![row_a, row_b]);
    let addrs = seeder_addrs(rows, e.content_hash);
    assert(addrs =~= seq![a, b]);
    // the single match survives the clamp
    let n = if clamp_results(max_results) <= matching.len() {
        clamp_results(max_results)
    } else {
        matching.len() as int
    };
    assert(clamp_results(max_results) >= 1);
    assert(n == 1);
    assert(matching.take(1) =~= matching);
    let results = search_spec(st2, q, max_results);
    let g = |x: IndexEntryV| result_of(x, rows);
    assert(results == matching.map_values(g));
    assert(results.len() == 1);
    assert(results[0] == g(e));
}

// ---------------------------------------------------------------------
// Request dispatch
// ---------------------------------------------------------------------

/// The default time-to-live of a publication: a day, in seconds.
pub const DEFAULT_TTL_SECS: u64 = 86400;

/// The wire form of a search hit.
pub open spec fn wire_result_of(v: SearchResultV) -> proto::SearchResultV {
    proto::SearchResultV {
        content_hash: v.content_hash,
        filename: v.filename,
        size: v.size,
        chunk_count: v.chunk_count,
        relevance_bits: v.relevance_bits,
        seeders: v.seeders,
    }
}

/// The entry a publish request creates at a given time.
pub open spec fn entry_of_publish(req: proto::PublishRequestV, now: u64) -> IndexEntryV {
    IndexEntryV {
        content_hash: req.content_hash,
        filename: req.filename,
        keywords: req.keywords,
        size: req.size,
        chunk_count: req.chunk_count,
        published_at: now,
        ttl: DEFAULT_TTL_SECS,
    }
}

/// The index state after one publish request: unchanged where the
/// digest has the wrong length, else upserted.
pub open spec fn publish_state(st: SearchIndexV, req: proto::PublishRequestV, now: u64)
    -> SearchIndexV {
    if req.content_hash.len() != 32 {
        st
    } else {
        SearchIndexV {
            entries: upsert_entries(st.entries, entry_of_publish(req, now)),
            seeders: upsert_seeders(
                st.seeders,
                SeederRowV {
                    content_hash: req.content_hash,
                    nym_address: req.nym_address,
                    published_at: now,
                    ttl: DEFAULT_TTL_SECS,
                },
            ),
        }
    }
}

/// The reply owed to one publish request.
pub open spec fn publish_reply(req: proto::PublishRequestV, request_id: u64) -> EnvelopeV {
    if req.content_hash.len() != 32 {
        error_env(request_id, error_codes::INVALID_DATA, "invalid content hash length"@)
    } else {
        EnvelopeV {
            version: crate::PROTOCOL_VERSION as u32,
            request_id,
            payload: Option::Some(PayloadV::PublishResponse(proto::PublishResponseV {
                success: true,
                error: Seq::<char>::empty(),
            })),
        }
    }
}

/// The reply owed to one search request.
pub open spec fn search_reply(st: SearchIndexV, req: proto::SearchRequestV, request_id: u64)
    -> EnvelopeV {
    EnvelopeV {
        version: crate::PROTOCOL_VERSION as u32,
        request_id,
        payload: Option::Some(PayloadV::SearchResponse(proto::SearchResponseV {
            results: search_spec(st, req.query, req.max_results).map_values(
                |v: SearchResultV| wire_result_of(v),
            ),
        })),
    }
}

/// The reply the index provider owes any decoded envelope.
pub open spec fn handler_reply(st: SearchIndexV, e: EnvelopeV, now: u64) -> EnvelopeV {
    match e.payload {
        Option::Some(PayloadV::PublishRequest(req)) => publish_reply(req, e.request_id),
        Option::Some(PayloadV::SearchRequest(req)) => search_reply(st, req, e.request_id),
        Option::Some(_) => error_env(
            e.request_id,
            error_codes::INVALID_MESSAGE,
            "unexpected message type"@,
        ),
        Option::None => error_env(e.request_id, error_codes::INVALID_MESSAGE, "empty payload"@),
    }
}

/// The index state after any decoded envelope.
pub open spec fn handler_state(st: SearchIndexV, e: EnvelopeV, now: u64) -> SearchIndexV {
    match e.payload {
        Option::Some(PayloadV::PublishRequest(req)) => publish_state(st, req, now),
        _ => st,
    }
}

/// Turn a hit into its wire form.
fn to_wire_result(r: &SearchResult) -> (w: proto::SearchResult)
    ensures
        w@ == wire_result_of(r@),
{
    let mut content_hash: Vec<u8> = Vec::new();
    content_hash.extend_from_slice(&r.content_hash);
    let mut seeders: Vec<String> = Vec::new();
    let mut i: usize = 0;
    while i < r.seeders.len()
        invariant
            i <= r.seeders@.len(),
            seeders.deep_view() == r.seeders.deep_view().take(i as int),
        decreases r.seeders@.len() - i,
    {
        let ghost before = seeders.deep_view();
        seeders.push(r.seeders[i].clone());
        proof {
            assert(r.seeders.deep_view().len() == r.seeders@.len());
            assert(before.len() == i as int);
            assert forall|t: int| 0 <= t < seeders.deep_view().len()
                implies #[trigger] seeders.deep_view()[t]
                    == r.seeders.deep_view().take(i + 1)[t] by {
                if t < i {
                    assert(seeders.deep_view()[t] == before[t]);
                } else {
                    assert(seeders.deep_view()[t] == seeders@[t]@);
                    assert(r.seeders.deep_view()[t] == r.seeders@[t]@);
                }
            }
            assert(seeders.deep_view() =~= r.seeders.deep_view().take(i + 1));
        }
        i = i + 1;
    }
    proof {
        assert(r.seeders.deep_view().take(r.seeders@.len() as int) =~= r.seeders.deep_view());
        assert(content_hash@ =~= r.content_hash@);
    }
    proto::SearchResult {
        content_hash,
        filename: r.filename.clone(),
        size: r.size,
        chunk_count: r.chunk_count,
        relevance_bits: r.relevance_bits,
        seeders,
    }
}

/// The index provider's dispatch: publishes into the index, answers
/// searches from it, and reports everything else as invalid.
pub struct MessageHandler {
    index: SearchIndex,
}

impl View for MessageHandler {
    type V = SearchIndexV;

    closed spec fn view(&self) -> SearchIndexV {
        self.index@
    }
}

impl MessageHandler {
    /// Serve an index.
    pub fn new(index: SearchIndex) -> (r: MessageHandler)
        ensures
            r@ == index@,
    {
        MessageHandler { index }
    }

    /// The index being served.
    pub fn index(&self) -> (r: &SearchIndex)
        ensures
            r@ == self@,
    {
        &self.index
    }

    /// Record one publication.
    fn handle_publish(&mut self, request_id: u64, req: proto::PublishRequest, now: u64) -> (r:
        Envelope)
        ensures
            r@ == publish_reply(req@, request_id),
            final(self)@ == publish_state(old(self)@, req@, now),
            index_wf(old(self)@) ==> index_wf(final(self)@),
    {
        if req.content_hash.len() != 32 {
            return proto::error_response(
                request_id,
                error_codes::INVALID_DATA,
                "invalid content hash length".to_owned(),
            );
        }
        let content_hash = hash_from_slice(req.content_hash.as_slice());
        let entry = IndexEntry {
            content_hash,
            filename: req.filename,
            keywords: req.keywords,
            size: req.size,
            chunk_count: req.chunk_count,
            published_at: now,
            ttl: DEFAULT_TTL_SECS,
        };
        match self.index.upsert(&entry, req.nym_address.as_str()) {
            Ok(()) => Envelope::new(
                request_id,
                Payload::PublishResponse(proto::PublishResponse {
                    success: true,
                    error: String::new(),
                }),
            ),
            Err(_) => Envelope::new(
                request_id,
                Payload::PublishResponse(proto::PublishResponse {
                    success: false,
                    error: "storage failure".to_owned(),
                }),
            ),
        }
    }

    /// Answer one search.
    fn handle_search(&self, request_id: u64, req: proto::SearchRequest) -> (r: Envelope)
        ensures
            r@ == search_reply(self@, req@, request_id),
    {
        let results = match self.index.search(req.query.as_str(), req.max_results) {
            Ok(rs) => rs,
            Err(_) => {
                return proto::error_response(
                    request_id,
                    error_codes::UNAVAILABLE,
                    "search failure".to_owned(),
                );
            },
        };
        let ghost expected = search_spec(self@, req@.query, req@.max_results);
        let mut wire: Vec<proto::SearchResult> = Vec::new();
        let mut i: usize = 0;
        proof {
            assert(wire.deep_view() =~= expected.map_values(
                |v: SearchResultV| wire_result_of(v),
            ).take(0));
        }
        while i < results.len()
            invariant
                i <= results@.len(),
                results.deep_view() == expected,
                wire.deep_view() == expected.map_values(
                    |v: SearchResultV| wire_result_of(v),
                ).take(i as int),
            decreases results@.len() - i,
        {
            let w = to_wire_result(&results[i]);
            let ghost before = wire.deep_view();
            wire.push(w);
            proof {
                let gm = |v: SearchResultV| wire_result_of(v);
                assert(results.deep_view()[i as int] == results@[i as int]@);
                assert(wire.deep_view().len() == before.len() + 1);
                assert forall|t: int| 0 <= t < wire.deep_view().len()
                    implies #[trigger] wire.deep_view()[t]
                        == expected.map_values(gm).take(i + 1)[t] by {
                    if t < i {
                        assert(wire.deep_view()[t] == before[t]);
                    } else {
                        assert(wire.deep_view()[t] == wire@[t]@);
                    }
                }
                assert(wire.deep_view() =~= expected.map_values(gm).take(i + 1));
            }
            i = i + 1;
        }
        proof {
            let gm = |v: SearchResultV| wire_result_of(v);
            assert(expected.map_values(gm).take(expected.len() as int)
                =~= expected.map_values(gm));
            assert(results.deep_view().len() == results@.len());
        }
        Envelope::new(request_id, Payload::SearchResponse(proto::SearchResponse {
            results: wire,
        }))
    }

    /// Decode one incoming message, apply it to the index, and build the
    /// reply owed, paired with the sender's reply token. A message
    /// without a token gets no reply and changes nothing; undecodable
    /// bytes get an invalid-message report under request zero; an
    /// envelope of another version gets that same report and changes
    /// nothing; on every decodable current-version request the reply and
    /// the new index state are exactly `handler_reply` and
    /// `handler_state`.
    pub fn handle(&mut self, msg: &ReceivedMessage, now: u64) -> (r: Option<(SenderTag, Vec<u8>)>)
        ensures
            r is Some <==> msg@.sender_tag is Some,
            r matches Some(p) ==> p.0@ == msg@.sender_tag->0,
            msg@.sender_tag is None ==> final(self)@ == old(self)@,
            forall|e: EnvelopeV| msg@.data == #[trigger] enc_env(e) && e.version
                == crate::PROTOCOL_VERSION as u32 && msg@.sender_tag is Some ==> {
                &&& r->Some_0.1@ == enc_env(handler_reply(old(self)@, e, now))
                &&& final(self)@ == handler_state(old(self)@, e, now)
            },
            forall|e: EnvelopeV| msg@.data == #[trigger] enc_env(e) && e.version
                != crate::PROTOCOL_VERSION as u32 && msg@.sender_tag is Some ==> {
                &&& r->Some_0.1@ == enc_env(
                    error_env(0, error_codes::INVALID_MESSAGE, "undecodable message"@),
                )
                &&& final(self)@ == old(self)@
            },
            (forall|e: EnvelopeV| msg@.data != #[trigger] enc_env(e)) && msg@.sender_tag is Some
                ==> r->Some_0.1@ == enc_env(
                error_env(0, error_codes::INVALID_MESSAGE, "undecodable message"@),
            ) && final(self)@ == old(self)@,
            index_wf(old(self)@) ==> index_wf(final(self)@),
    {
        let sender_tag = match &msg.sender_tag {
            Option::None => {
                return Option::None;
            },
            Option::Some(t) => {
                let mut b: Vec<u8> = Vec::new();
                b.extend_from_slice(t.as_bytes());
                SenderTag::new(b)
            },
        };
        proof {
            assert(sender_tag@ =~= msg@.sender_tag->0);
        }
        let reply = match Envelope::from_bytes(msg.data.as_slice()) {
            Ok(envelope) => {
                proof {
                    // a decoded envelope names the encoding the bytes are
                    assert(msg@.data == enc_env(envelope@));
                }
                let request_id = envelope.request_id;
                match envelope.payload {
                    Option::Some(Payload::PublishRequest(req)) => self.handle_publish(
                        request_id,
                        req,
                        now,
                    ),
                    Option::Some(Payload::SearchRequest(req)) => self.handle_search(
                        request_id,
                        req,
                    ),
                    Option::Some(_) => proto::error_response(
                        request_id,
                        error_codes::INVALID_MESSAGE,
                        "unexpected message type".to_owned(),
                    ),
                    Option::None => proto::error_response(
                        request_id,
                        error_codes::INVALID_MESSAGE,
                        "empty payload".to_owned(),
                    ),
                }
            },
            Err(_) => proto::error_response(
                0,
                error_codes::INVALID_MESSAGE,
                "undecodable message".to_owned(),
            ),
        };
        let bytes = reply.to_bytes();
        Option::Some((sender_tag, bytes))
    }
}

} // verus!
