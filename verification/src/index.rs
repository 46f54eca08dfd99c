//! The in-memory inverted index: per-field term maps over pool-backed
//! posting streams.
//!
//! Each field keeps an ordered map from term bytes to a posting. A posting
//! accumulates one pending `(doc id, frequency)` record at a time; a commit
//! serialises the pending record into the posting's byte stream, which is
//! what readers iterate.
use crate::cache::{Addr, ByteBlockPool, RingBufferReader, SnapshotReader};
use crate::fst::bytes_lt;
use crate::schema::{
    dec_doc_freq, enc_doc_freq, term_bytes_of, DocFreq, DocID, Document, Value,
};
use crate::{GyError, GyResult};
use vstd::prelude::*;
use vstd::string::StrSliceExecFns;

verus! {

/// `art_tree::Art`, the adaptive radix tree the term map is built on.
#[verifier::external_type_specification]
#[verifier::external_body]
#[verifier::reject_recursive_types(K)]
#[verifier::reject_recursive_types(V)]
pub struct ExArt<K, V>(art_tree::Art<K, V>);

/// `art_tree::ByteString`, the byte-string key type of the tree.
#[verifier::external_type_specification]
#[verifier::external_body]
pub struct ExByteString(art_tree::ByteString);

/// What the term tree holds: a map from key bytes to values.
pub uninterp spec fn art_contents(a: art_tree::Art<art_tree::ByteString, u64>) -> Map<
    Seq<u8>,
    u64,
>;

/// Relies on `art_tree::Art::new`: a fresh tree is empty.
#[verifier::external_body]
fn art_new() -> (r: art_tree::Art<art_tree::ByteString, u64>)
    ensures
        (art_contents(r) == Map::<Seq<u8>, u64>::empty()),
{
    art_tree::Art::new()
}

/// Relies on `art_tree::Art::upsert`: it inserts or replaces the value
/// under the key. An empty key would make the tree panic, so it is kept
/// out.
#[verifier::external_body]
fn art_upsert(a: &mut art_tree::Art<art_tree::ByteString, u64>, k: &[u8], v: u64)
    requires
        k@.len() > 0,
    ensures
        art_contents(*final(a)) == art_contents(*old(a)).insert(k@, v),
{
    a.upsert(art_tree::ByteString::new(k), v);
}

/// Relies on `art_tree::Art::get`: it yields the value stored under the
/// key, if any.
#[verifier::external_body]
fn art_get(a: &art_tree::Art<art_tree::ByteString, u64>, k: &[u8]) -> (r: Option<u64>)
    requires
        k@.len() > 0,
    ensures
        r == (if art_contents(*a).dom().contains(k@) {
            Some(art_contents(*a)[k@])
        } else {
            None::<u64>
        }),
{
    a.get(&art_tree::ByteString::new(k)).copied()
}

/// Relies on `art_tree::Art::iter`: it visits the entries in ascending
/// key-byte order.
#[verifier::external_body]
fn art_pairs(a: &art_tree::Art<art_tree::ByteString, u64>) -> (r: Vec<(Vec<u8>, u64)>)
    ensures
        forall|i: int|
            0 <= i < r@.len() ==> art_contents(*a).contains_pair(
                (#[trigger] r@[i]).0@,
                r@[i].1,
            ),
        forall|k: Seq<u8>|
            art_contents(*a).dom().contains(k) ==> exists|i: int|
                0 <= i < r@.len() && (#[trigger] r@[i]).0@ == k,
        forall|i: int, j: int| 0 <= i < j < r@.len() ==> bytes_lt(r@[i].0@, r@[j].0@),
{
    a.iter().map(|(k, v)| (art_tree::Key::to_bytes(k), *v)).collect()
}

/// The sorted term map of one field.
pub struct ArtCache {
    cache: art_tree::Art<art_tree::ByteString, u64>,
}

impl ArtCache {
    pub closed spec fn view(&self) -> Map<Seq<u8>, u64> {
        art_contents(self.cache)
    }

    pub fn new() -> (r: ArtCache)
        ensures
            r@ == Map::<Seq<u8>, u64>::empty(),
    {
        ArtCache { cache: art_new() }
    }

    pub fn contains_key(&self, k: &[u8]) -> (r: bool)
        requires
            k@.len() > 0,
        ensures
            r == self@.dom().contains(k@),
    {
        match art_get(&self.cache, k) {
            Some(_) => true,
            None => false,
        }
    }

    pub fn insert(&mut self, k: &[u8], v: u64)
        requires
            k@.len() > 0,
        ensures
            final(self)@ == old(self)@.insert(k@, v),
    {
        art_upsert(&mut self.cache, k, v);
    }

    pub fn get(&self, k: &[u8]) -> (r: Option<u64>)
        requires
            k@.len() > 0,
        ensures
            r == (if self@.dom().contains(k@) {
                Some(self@[k@])
            } else {
                None::<u64>
            }),
    {
        art_get(&self.cache, k)
    }

    /// The entries, sorted by key bytes.
    pub fn iter(&self) -> (r: Vec<(Vec<u8>, u64)>)
        ensures
            forall|i: int|
                0 <= i < r@.len() ==> self@.contains_pair((#[trigger] r@[i]).0@, r@[i].1),
            forall|k: Seq<u8>|
                self@.dom().contains(k) ==> exists|i: int|
                    0 <= i < r@.len() && (#[trigger] r@[i]).0@ == k,
            forall|i: int, j: int| 0 <= i < j < r@.len() ==> bytes_lt(r@[i].0@, r@[j].0@),
    {
        art_pairs(&self.cache)
    }
}

/// Groups a non-decreasing run of document ids into `(id, count)` records,
/// one per distinct id.
pub open spec fn agg(hist: Seq<DocID>) -> Seq<(DocID, int)>
    decreases hist.len(),
{
    if hist.len() == 0 {
        Seq::empty()
    } else {
        let prev = agg(hist.drop_last());
        let d = hist.last();
        if prev.len() > 0 && prev.last().0 == d {
            prev.update(prev.len() - 1, (d, prev.last().1 + 1))
        } else {
            prev.push((d, 1))
        }
    }
}

/// The committed records seen with mathematical counts.
pub open spec fn recs_int(rs: Seq<(DocID, u32)>) -> Seq<(DocID, int)> {
    rs.map_values(|r: (DocID, u32)| (r.0, r.1 as int))
}

/// The byte stream of a posting: each record delta-encoded against the
/// document id before it.
pub open spec fn enc_records(rs: Seq<(DocID, u32)>, last: DocID) -> Seq<u8>
    decreases rs.len(),
{
    if rs.len() == 0 {
        Seq::empty()
    } else {
        enc_doc_freq((rs[0].0 - last) as u64, rs[0].1) + enc_records(rs.drop_first(), rs[0].0)
    }
}

/// Records are strictly increasing, within delta range, and carry positive
/// counts.
pub open spec fn recs_ok(rs: Seq<(DocID, u32)>) -> bool {
    &&& forall|i: int, j: int| 0 <= i < j < rs.len() ==> (#[trigger] rs[i]).0 < (#[trigger] rs[j]).0
    &&& forall|i: int| 0 <= i < rs.len() ==> (#[trigger] rs[i]).0 < 0x8000_0000_0000_0000
    &&& forall|i: int| 0 <= i < rs.len() ==> (#[trigger] rs[i]).1 >= 1
}

/// A non-decreasing history of added document ids, all in delta range.
pub open spec fn hist_ok(hist: Seq<DocID>) -> bool {
    &&& forall|i: int, j: int|
        0 <= i < j < hist.len() ==> (#[trigger] hist[i]) <= (#[trigger] hist[j])
    &&& forall|i: int| 0 <= i < hist.len() ==> (#[trigger] hist[i]) < 0x8000_0000_0000_0000
}

/// One term's posting: where its byte stream lives, the last document seen,
/// and the pending record not yet serialised.
#[derive(Clone, Copy)]
pub struct _Posting {
    pub last_doc_id: DocID,
    pub doc_delta: DocID,
    pub byte_addr: Addr,
    pub doc_freq_addr: Addr,
    pub stream: usize,
    pub doc_num: usize,
    pub freq: u32,
    pub add_commit: bool,
    pub records: Ghost<Seq<(DocID, u32)>>,
}

impl _Posting {
    pub fn new(stream: usize, byte_addr: Addr) -> (r: _Posting)
        ensures
            r.last_doc_id == 0,
            r.doc_delta == 0,
            r.byte_addr == byte_addr,
            r.doc_freq_addr == byte_addr,
            r.stream == stream,
            r.doc_num == 0,
            r.freq == 0,
            r.add_commit == false,
            r.records@ == Seq::<(DocID, u32)>::empty(),
    {
        _Posting {
            last_doc_id: 0,
            doc_delta: 0,
            byte_addr,
            doc_freq_addr: byte_addr,
            stream,
            doc_num: 0,
            freq: 0,
            add_commit: false,
            records: Ghost(Seq::empty()),
        }
    }
}

/// The invariant of one posting against the pool and its term's history.
pub open spec fn posting_inv(p: _Posting, pool: &ByteBlockPool, hist: Seq<DocID>) -> bool {
    &&& posting_data_inv(p, pool, hist)
    &&& (p.add_commit <==> p.freq > 0)
}

/// One field's cache: its term map, its postings, and the terms whose
/// pending records await the next commit.
pub struct FieldCache {
    pub indexs: ArtCache,
    pub postings: Vec<_Posting>,
    dirty: Vec<Vec<u8>>,
    broken: bool,
    history: Ghost<Map<Seq<u8>, Seq<DocID>>>,
    max_doc: Ghost<DocID>,
    fence: Ghost<DocID>,
}

impl FieldCache {
    /// Every document id added to this field so far, per term.
    pub closed spec fn hist(&self) -> Map<Seq<u8>, Seq<DocID>> {
        self.history@
    }

    /// The smallest document id the next add may carry.
    pub closed spec fn spec_fence(&self) -> DocID {
        self.fence@
    }

    pub closed spec fn spec_max_doc(&self) -> DocID {
        self.max_doc@
    }

    /// Whether a pool write failed mid-way and the cache shut itself down.
    pub closed spec fn is_broken(&self) -> bool {
        self.broken
    }

    /// Whether any pending records await a commit.
    pub closed spec fn has_dirty(&self) -> bool {
        self.dirty@.len() > 0
    }

    /// Whether this cache's postings use pool stream `h`.
    pub open spec fn owns_stream(&self, h: int) -> bool {
        exists|k: Seq<u8>|
            self.hist().dom().contains(k) && (#[trigger] self.posting_of(k)).stream == h
    }

    /// The posting of term `k`.
    pub closed spec fn posting_of(&self, k: Seq<u8>) -> _Posting {
        self.postings@[self.indexs@[k] as int]
    }

    /// The term map's contents.
    pub closed spec fn terms_map(&self) -> Map<Seq<u8>, u64> {
        self.indexs@
    }

    /// The postings, by index.
    pub closed spec fn spec_postings(&self) -> Seq<_Posting> {
        self.postings@
    }

    /// Whether a term is on the dirty list.
    pub closed spec fn dirty_has(&self, k: Seq<u8>) -> bool {
        exists|j: int| 0 <= j < self.dirty@.len() && (#[trigger] self.dirty@[j])@ == k
    }

    pub closed spec fn wf(&self, pool: &ByteBlockPool) -> bool {
        !self.broken ==> {
            &&& self.indexs@.dom() == self.history@.dom()
            &&& forall|k: Seq<u8>|
                #[trigger] self.indexs@.dom().contains(k) ==> 0 < k.len() && self.indexs@[k]
                    < self.postings@.len()
            &&& forall|k1: Seq<u8>, k2: Seq<u8>|
                self.indexs@.dom().contains(k1) && self.indexs@.dom().contains(k2) && k1 != k2
                    ==> #[trigger] self.indexs@[k1] != #[trigger] self.indexs@[k2]
            &&& forall|k: Seq<u8>|
                #[trigger] self.indexs@.dom().contains(k) ==> posting_inv(
                    self.posting_of(k),
                    pool,
                    self.history@[k],
                )
            &&& forall|j: int|
                0 <= j < self.dirty@.len() ==> self.indexs@.dom().contains(
                    (#[trigger] self.dirty@[j])@,
                )
            &&& forall|i: int, j: int|
                0 <= i < j < self.dirty@.len() ==> (#[trigger] self.dirty@[i])@ != (
                #[trigger] self.dirty@[j])@
            &&& forall|k: Seq<u8>|
                #[trigger] self.indexs@.dom().contains(k) ==> (self.posting_of(k).add_commit
                    <==> self.dirty_has(k))
            &&& forall|k: Seq<u8>|
                #[trigger] self.indexs@.dom().contains(k) ==> self.history@[k].len() > 0
            &&& forall|k: Seq<u8>|
                #[trigger] self.indexs@.dom().contains(k) ==> self.history@[k].last()
                    <= self.max_doc@
            &&& forall|k: Seq<u8>|
                #[trigger] self.indexs@.dom().contains(k) && self.posting_of(k).freq == 0
                    ==> self.history@[k].last() < self.fence@
            &&& forall|k1: Seq<u8>, k2: Seq<u8>|
                self.indexs@.dom().contains(k1) && self.indexs@.dom().contains(k2) && k1 != k2
                    ==> (#[trigger] self.posting_of(k1)).stream != (
                #[trigger] self.posting_of(k2)).stream
            &&& self.max_doc@ <= self.fence@ <= self.max_doc@ + 1
            &&& self.max_doc@ < 0x8000_0000_0000_0000
        }
    }

    pub fn new() -> (r: FieldCache)
        ensures
            forall|pool: &ByteBlockPool| r.wf(pool),
            r.hist() == Map::<Seq<u8>, Seq<DocID>>::empty(),
            !r.is_broken(),
            r.spec_fence() == 0,
            r.spec_max_doc() == 0,
            forall|h: int| !r.owns_stream(h),
    {
        let r = FieldCache {
            indexs: ArtCache::new(),
            postings: Vec::new(),
            dirty: Vec::new(),
            broken: false,
            history: Ghost(Map::empty()),
            max_doc: Ghost(0),
            fence: Ghost(0),
        };
        proof {
            assert(forall|h: int| !r.owns_stream(h));
        }
        r
    }
}

/// The posting invariant apart from the dirty flag, which `add` restores
/// only at its end.
pub open spec fn posting_data_inv(p: _Posting, pool: &ByteBlockPool, hist: Seq<DocID>) -> bool {
    &&& p.stream < pool.stream_count()
    &&& pool.stream_start(p.stream as int) == p.byte_addr
    &&& pool.stream_pos(p.stream as int) == p.doc_freq_addr
    &&& pool.stream_bytes(p.stream as int) == enc_records(p.records@, 0)
    &&& recs_ok(p.records@)
    &&& hist_ok(hist)
    &&& p.doc_num == agg(hist).len()
    &&& if p.freq == 0 {
        &&& recs_int(p.records@) == agg(hist)
        &&& (hist.len() > 0 ==> p.last_doc_id == hist.last())
        &&& (hist.len() == 0 ==> p.last_doc_id == 0)
    } else {
        &&& hist.len() > 0
        &&& p.last_doc_id == hist.last()
        &&& recs_int(p.records@).push((p.last_doc_id, p.freq as int)) == agg(hist)
        &&& (p.records@.len() == 0 ==> p.doc_delta == p.last_doc_id)
        &&& (p.records@.len() > 0 ==> p.records@.last().0 < p.last_doc_id && p.doc_delta
            == p.last_doc_id - p.records@.last().0)
    }
}

impl FieldCache {
    /// Adds one occurrence of `value`'s term for document `doc_id`.
    ///
    /// A repeated document id only raises the pending frequency; a new
    /// document id first serialises the pending record into the posting's
    /// byte stream. Document ids must not go backwards, and a document
    /// already committed may not be seen again.
    pub fn add(&mut self, pool: &mut ByteBlockPool, doc_id: DocID, value: &Value) -> (r: GyResult<
        (),
    >)
        requires
            old(self).wf(old(pool)),
            old(pool).wf(),
            !old(self).is_broken(),
            doc_id >= old(self).spec_fence(),
            doc_id < 0x8000_0000_0000_0000,
            term_bytes_of(value@).len() > 0,
        ensures
            final(pool).wf(),
            final(self).wf(final(pool)),
            final(pool).stream_count() >= old(pool).stream_count(),
            forall|h: int|
                0 <= h < old(pool).stream_count() && !old(self).owns_stream(h) ==> final(pool).stream_at(h) == old(pool).stream_at(h) && final(pool).stream_bytes(h) == old(pool).stream_bytes(h),
            forall|h: int|
                0 <= h < old(pool).stream_count() && #[trigger] final(self).owns_stream(h)
                    ==> old(self).owns_stream(h),
            r is Err ==> final(pool).flat().len() + crate::cache::BYTE_BLOCK_SIZE > u32::MAX
                || (old(self).hist().dom().contains(term_bytes_of(value@)) && (old(self).posting_of(term_bytes_of(value@)).doc_num == usize::MAX || old(self).posting_of(
                term_bytes_of(value@),
            ).freq == u32::MAX)),
            r is Err ==> final(pool).flat().len() + crate::cache::BYTE_BLOCK_SIZE > u32::MAX
                || (final(self).hist().dom().contains(term_bytes_of(value@)) && (final(self).posting_of(term_bytes_of(value@)).doc_num == usize::MAX || final(self).posting_of(
                term_bytes_of(value@),
            ).freq == u32::MAX)),
            match r {
                Ok(_) => {
                    &&& !final(self).is_broken()
                    &&& ({
                        let t = term_bytes_of(value@);
                        final(self).hist() == old(self).hist().insert(
                            t,
                            (if old(self).hist().dom().contains(t) {
                                old(self).hist()[t]
                            } else {
                                Seq::empty()
                            }).push(doc_id),
                        )
                    })
                    &&& forall|k: Seq<u8>|
                        old(self).hist().dom().contains(k) && k != term_bytes_of(value@)
                            ==> #[trigger] final(self).posting_of(k) == old(self).posting_of(k)
                    &&& (old(self).hist().dom().contains(term_bytes_of(value@)) ==> final(self).posting_of(term_bytes_of(value@)).byte_addr == old(self).posting_of(
                        term_bytes_of(value@),
                    ).byte_addr && final(self).posting_of(term_bytes_of(value@)).stream == old(self).posting_of(term_bytes_of(value@)).stream)
                    &&& final(self).spec_fence() == doc_id
                    &&& final(self).spec_max_doc() == doc_id
                },
                Err(e) => e == GyError::Serialization,
            },
    {
        let ghost t = term_bytes_of(value@);
        let ghost self0 = *old(self);
        let ghost pool0 = *old(pool);
        let vbytes = match value.to_vec() {
            Ok(v) => v,
            Err(_) => {
                proof {
                    assert(false);
                }
                return Err(GyError::Serialization);
            },
        };
        if !self.indexs.contains_key(vbytes.as_slice()) {
            let h = match pool.new_stream() {
                Ok(h) => h,
                Err(e) => {
                    return Err(e);
                },
            };
            let span = pool.stream_span(h);
            let idx0 = self.postings.len();
            self.postings.push(_Posting::new(h, span.0));
            self.indexs.insert(vbytes.as_slice(), idx0 as u64);
            proof {
                self.history@ = self.history@.insert(t, Seq::<DocID>::empty());
            }
        }
        let idx_u64 = match self.indexs.get(vbytes.as_slice()) {
            Some(i) => i,
            None => {
                proof {
                    assert(false);
                }
                return Err(GyError::Serialization);
            },
        };
        if idx_u64 >= self.postings.len() as u64 {
            proof {
                assert(false);
            }
            return Err(GyError::Serialization);
        }
        let idx = idx_u64 as usize;
        let ghost selfa = *self;
        let ghost poola = *pool;
        let ghost hist_t = selfa.history@[t];
        proof {
            assert(vbytes@ == t);
            assert(idx_u64 == selfa.indexs@[t]);
            assert(selfa.indexs@[t] < selfa.postings@.len());
            assert(idx as int == selfa.indexs@[t] as int);
            assert(idx < self.postings@.len());
            if self0.indexs@.dom().contains(t) {
                assert(*self == self0 && *pool == pool0);
                assert(selfa.postings@[idx as int] == self0.posting_of(t));
                assert(posting_inv(self0.posting_of(t), &pool0, self0.history@[t]));
                assert(posting_inv(selfa.postings@[idx as int], &poola, hist_t));
            } else {
                assert(hist_t =~= Seq::<DocID>::empty());
                assert(idx as int == self0.postings@.len() as int);
                assert(selfa.postings@[idx as int] == selfa.postings@.last());
                let np = selfa.postings@[idx as int];
                assert(np.freq == 0 && np.records@ =~= Seq::<(DocID, u32)>::empty());
                assert(enc_records(np.records@, 0) == Seq::<u8>::empty());
                assert(np.stream < poola.stream_count());
                assert(poola.stream_start(np.stream as int) == np.byte_addr);
                assert(poola.stream_pos(np.stream as int) == np.doc_freq_addr);
                assert(poola.stream_bytes(np.stream as int) == enc_records(np.records@, 0));
                assert(recs_ok(np.records@));
                assert(hist_ok(hist_t));
                assert(np.doc_num == agg(hist_t).len());
                assert(recs_int(np.records@) =~= agg(hist_t));
                assert(posting_inv(np, &poola, hist_t));
            }
            assert(hist_t.len() > 0 ==> hist_t.last() <= self0.max_doc@);
            assert(selfa.postings@[idx as int].freq == 0 && hist_t.len() > 0 ==> hist_t.last()
                < self0.fence@);
            lemma_agg_basics(hist_t);
        }
        let mut p = self.postings[idx];
        let ghost pa = p;
        if !p.add_commit {
            // a fresh posting, or one whose last record was committed
            if p.doc_num == usize::MAX {
                self.broken = true;
                proof {
                    assert(selfa.indexs@.dom() =~= self0.indexs@.dom().insert(t));
                    assert(self.history@.dom() =~= selfa.indexs@.dom());
                    lemma_add_owns_back(self, self0, selfa, t, idx as int, pool0.stream_count());
                }
                return Err(GyError::Serialization);
            }
            let last = p.last_doc_id;
            p.doc_delta = doc_id - last;
            p.freq = 1;
            p.last_doc_id = doc_id;
            p.doc_num = p.doc_num + 1;
            self.postings[idx] = p;
            proof {
                assert(hist_t.push(doc_id).drop_last() =~= hist_t);
                if hist_t.len() > 0 {
                    assert(agg(hist_t).last().0 == hist_t.last());
                    assert(hist_t.last() < doc_id);
                }
                assert(agg(hist_t.push(doc_id)) =~= agg(hist_t).push((doc_id, 1int)));
                assert(recs_int(pa.records@) == agg(hist_t));
                assert(recs_int(p.records@).push((doc_id, 1int)) =~= agg(hist_t.push(doc_id)));
                if pa.records@.len() > 0 {
                    assert(recs_int(pa.records@).last() == (pa.records@.last().0,
                    pa.records@.last().1 as int));
                    assert(agg(hist_t).last().0 == hist_t.last());
                    assert(pa.records@.last().0 == hist_t.last());
                }
                assert(posting_data_inv(p, pool, hist_t.push(doc_id)));
            }
        } else if p.last_doc_id == doc_id {
            // the same document again: only the frequency grows
            if p.freq == u32::MAX {
                self.broken = true;
                proof {
                    assert(selfa.indexs@.dom() =~= self0.indexs@.dom().insert(t));
                    assert(self.history@.dom() =~= selfa.indexs@.dom());
                    lemma_add_owns_back(self, self0, selfa, t, idx as int, pool0.stream_count());
                }
                return Err(GyError::Serialization);
            }
            p.freq = p.freq + 1;
            self.postings[idx] = p;
            proof {
                assert(hist_t.push(doc_id).drop_last() =~= hist_t);
                assert(agg(hist_t).last().0 == hist_t.last());
                assert(agg(hist_t.push(doc_id)) == agg(hist_t).update(
                    agg(hist_t).len() - 1,
                    (doc_id, agg(hist_t).last().1 + 1),
                ));
                assert(recs_int(pa.records@).push((doc_id, pa.freq as int)) == agg(hist_t));
                assert(agg(hist_t).last() == (doc_id, pa.freq as int));
                assert(recs_int(p.records@).push((doc_id, p.freq as int)) =~= agg(
                    hist_t,
                ).update(agg(hist_t).len() - 1, (doc_id, agg(hist_t).last().1 + 1)));
                assert(posting_data_inv(p, pool, hist_t.push(doc_id)));
            }
        } else {
            // a new document while a record is pending: serialise the
            // pending record, then start the new one
            if p.doc_num == usize::MAX {
                self.broken = true;
                proof {
                    assert(selfa.indexs@.dom() =~= self0.indexs@.dom().insert(t));
                    assert(self.history@.dom() =~= selfa.indexs@.dom());
                    lemma_add_owns_back(self, self0, selfa, t, idx as int, pool0.stream_count());
                }
                return Err(GyError::Serialization);
            }
            let mut buf: Vec<u8> = Vec::new();
            let df = DocFreq(p.doc_delta, p.freq);
            let _ = df.binary_serialize(&mut buf);
            match pool.write_array(p.stream, buf.as_slice()) {
                Ok(_) => {},
                Err(e) => {
                    self.broken = true;
                    proof {
                    assert(selfa.indexs@.dom() =~= self0.indexs@.dom().insert(t));
                    assert(self.history@.dom() =~= selfa.indexs@.dom());
                    lemma_add_owns_back(self, self0, selfa, t, idx as int, pool0.stream_count());
                }
                return Err(e);
                },
            }
            let span = pool.stream_span(p.stream);
            let lastc = p.last_doc_id;
            let freqc = p.freq;
            p.doc_freq_addr = span.1;
            p.records = Ghost(pa.records@.push((lastc, freqc)));
            p.doc_delta = doc_id - lastc;
            p.last_doc_id = doc_id;
            p.doc_num = p.doc_num + 1;
            p.freq = 1;
            self.postings[idx] = p;
            proof {
                assert(buf@ =~= enc_doc_freq(pa.doc_delta, pa.freq));
                lemma_enc_records_push(pa.records@, lastc, freqc, 0);
                if pa.records@.len() > 0 {
                    assert(pa.doc_delta == lastc - pa.records@.last().0);
                } else {
                    assert(pa.doc_delta == lastc);
                }
                assert(enc_records(p.records@, 0) =~= enc_records(pa.records@, 0) + buf@);
                assert(pool.stream_bytes(p.stream as int) == enc_records(p.records@, 0));
                assert(hist_t.push(doc_id).drop_last() =~= hist_t);
                assert(agg(hist_t).last().0 == hist_t.last());
                assert(hist_t.last() == lastc);
                assert(lastc < doc_id);
                assert(agg(hist_t.push(doc_id)) =~= agg(hist_t).push((doc_id, 1int)));
                assert(recs_int(p.records@) =~= recs_int(pa.records@).push(
                    (lastc, freqc as int),
                ));
                assert(recs_int(p.records@) == agg(hist_t));
                assert(recs_int(p.records@).push((doc_id, 1int)) =~= agg(hist_t.push(doc_id)));
                assert(recs_int(p.records@).last() == (lastc, freqc as int));
                assert(p.records@.last() == (lastc, freqc));
                assert(posting_data_inv(p, pool, hist_t.push(doc_id)));
            }
        }
        if !self.postings[idx].add_commit {
            let mut pd = self.postings[idx];
            pd.add_commit = true;
            self.postings[idx] = pd;
            self.dirty.push(vstd::slice::slice_to_vec(vbytes.as_slice()));
        }
        proof {
            self.history@ = selfa.history@.insert(t, hist_t.push(doc_id));
            self.max_doc@ = doc_id;
            self.fence@ = doc_id;
            assert(selfa.indexs@.dom() =~= self0.indexs@.dom().insert(t));
            assert(selfa.history@ =~= (if self0.history@.dom().contains(t) {
                self0.history@
            } else {
                self0.history@.insert(t, Seq::<DocID>::empty())
            }));
            lemma_add_wf(self, pool, self0, pool0, selfa, poola, t, idx as int, doc_id, hist_t);
            assert(selfa.indexs@.dom() =~= self0.indexs@.dom().insert(t));
            assert(self.history@.dom() =~= selfa.indexs@.dom());
            lemma_add_owns_back(self, self0, selfa, t, idx as int, pool0.stream_count());
            assert(final(self).hist() =~= old(self).hist().insert(
                t,
                (if old(self).hist().dom().contains(t) {
                    old(self).hist()[t]
                } else {
                    Seq::empty()
                }).push(doc_id),
            ));
        }
        Ok(())
    }
}

impl FieldCache {
    /// Serialises every pending record into its posting's byte stream and
    /// clears the dirty list. After it, readers see every added document.
    pub fn commit(&mut self, pool: &mut ByteBlockPool) -> (r: GyResult<()>)
        requires
            old(self).wf(old(pool)),
            old(pool).wf(),
            !old(self).is_broken(),
        ensures
            final(pool).wf(),
            final(self).wf(final(pool)),
            final(pool).stream_count() == old(pool).stream_count(),
            forall|h: int|
                0 <= h < old(pool).stream_count() && !old(self).owns_stream(h) ==> final(pool).stream_at(h) == old(pool).stream_at(h) && final(pool).stream_bytes(h) == old(pool).stream_bytes(h),
            forall|h: int|
                #[trigger] final(self).owns_stream(h) == old(self).owns_stream(h),
            match r {
                Ok(_) => {
                    &&& !final(self).is_broken()
                    &&& final(self).hist() == old(self).hist()
                    &&& final(self).spec_max_doc() == old(self).spec_max_doc()
                    &&& (final(self).spec_fence() == old(self).spec_fence() || (final(self).spec_fence() == old(self).spec_max_doc() + 1 && exists|k: Seq<u8>|
                        old(self).hist().dom().contains(k)))
                    &&& old(self).spec_fence() <= final(self).spec_fence()
                    &&& forall|k: Seq<u8>|
                        final(self).hist().dom().contains(k) ==> (#[trigger] final(self).posting_of(k)).freq == 0
                },
                Err(e) => e == GyError::Serialization && final(pool).flat().len()
                    + crate::cache::BYTE_BLOCK_SIZE > u32::MAX,
            },
    {
        let ghost self0 = *old(self);
        let ghost pool0 = *old(pool);
        let n = self.dirty.len();
        let mut i: usize = 0;
        while i < n
            invariant
                self0 == *old(self),
                pool0 == *old(pool),
                self0.wf(&pool0),
                !self0.broken,
                pool0.wf(),
                i <= n,
                n == self.dirty@.len(),
                pool.wf(),
                pool.stream_count() == pool0.stream_count(),
                forall|h: int|
                    0 <= h < pool0.stream_count() && !self0.owns_stream(h) ==> #[trigger] pool
                        .stream_at(h) == pool0.stream_at(h) && pool.stream_bytes(h)
                        == pool0.stream_bytes(h),
                !self.broken,
                self.indexs@ == self0.indexs@,
                self.history@ == self0.history@,
                self.dirty@ == self0.dirty@,
                self.max_doc@ == self0.max_doc@,
                self.fence@ == self0.fence@,
                self.postings@.len() == self0.postings@.len(),
                forall|k: Seq<u8>|
                    #[trigger] self.indexs@.dom().contains(k) ==> posting_data_inv(
                        self.posting_of(k),
                        pool,
                        self.history@[k],
                    ),
                forall|k: Seq<u8>|
                    #[trigger] self.indexs@.dom().contains(k) ==> self.posting_of(k).stream
                        == self0.posting_of(k).stream && self.posting_of(k).last_doc_id
                        == self0.posting_of(k).last_doc_id,
                forall|k: Seq<u8>|
                    #[trigger] self.indexs@.dom().contains(k) && !self0.dirty_has(k)
                        ==> self.posting_of(k) == self0.posting_of(k),
                forall|j2: int|
                    0 <= j2 < i ==> (#[trigger] self.posting_of((self0.dirty@[j2])@)).freq == 0
                        && self.posting_of((self0.dirty@[j2])@).add_commit == false,
                forall|j2: int|
                    i <= j2 < n ==> #[trigger] self.posting_of((self0.dirty@[j2])@)
                        == self0.posting_of((self0.dirty@[j2])@),
            decreases n - i,
        {
            let term = vstd::slice::slice_to_vec(self.dirty[i].as_slice());
            let ghost k = term@;
            let idx_u64 = match self.indexs.get(term.as_slice()) {
                Some(v) => v,
                None => {
                    proof {
                        assert(false);
                    }
                    return Err(GyError::Serialization);
                },
            };
            if idx_u64 >= self.postings.len() as u64 {
                proof {
                    assert(false);
                }
                return Err(GyError::Serialization);
            }
            let idx = idx_u64 as usize;
            let mut p = self.postings[idx];
            let ghost pa = p;
            proof {
                assert(self.posting_of(k) == pa);
                assert(pa == self0.posting_of(k));
                assert(posting_inv(self0.posting_of(k), &pool0, self0.history@[k]));
                assert(pa.add_commit);
                assert(pa.freq > 0);
                assert(posting_data_inv(pa, pool, self.history@[k]));
            }
            let mut buf: Vec<u8> = Vec::new();
            let df = DocFreq(p.doc_delta, p.freq);
            let _ = df.binary_serialize(&mut buf);
            match pool.write_array(p.stream, buf.as_slice()) {
                Ok(_) => {},
                Err(e) => {
                    self.broken = true;
                    proof {
                        lemma_owns_eq(self, self0);
                    }
                    return Err(e);
                },
            }
            let span = pool.stream_span(p.stream);
            let lastc = p.last_doc_id;
            let freqc = p.freq;
            p.doc_freq_addr = span.1;
            p.records = Ghost(pa.records@.push((lastc, freqc)));
            p.freq = 0;
            p.add_commit = false;
            self.postings[idx] = p;
            proof {
                assert(buf@ =~= enc_doc_freq(pa.doc_delta, pa.freq));
                lemma_enc_records_push(pa.records@, lastc, freqc, 0);
                if pa.records@.len() > 0 {
                    assert(pa.doc_delta == lastc - pa.records@.last().0);
                } else {
                    assert(pa.doc_delta == lastc);
                }
                assert(enc_records(p.records@, 0) =~= enc_records(pa.records@, 0) + buf@);
                assert(recs_int(p.records@) =~= recs_int(pa.records@).push((lastc, freqc as int)));
                assert(recs_int(p.records@) == agg(self.history@[k]));
                assert(p.records@.last() == (lastc, freqc));
                assert(posting_data_inv(p, pool, self.history@[k]));
                // every other posting's stream is untouched
                assert forall|k2: Seq<u8>|
                    #[trigger] self.indexs@.dom().contains(k2) && k2 != k implies posting_data_inv(
                    self.posting_of(k2),
                    pool,
                    self.history@[k2],
                ) && self.posting_of(k2).stream == self0.posting_of(k2).stream by {
                    assert(self.indexs@[k2] != self.indexs@[k]);
                    assert(self0.posting_of(k2).stream != self0.posting_of(k).stream);
                };
                assert forall|j2: int| 0 <= j2 < i + 1 implies (#[trigger] self.posting_of(
                    (self0.dirty@[j2])@,
                )).freq == 0 && self.posting_of((self0.dirty@[j2])@).add_commit == false by {
                    if j2 < i {
                        assert((self0.dirty@[j2])@ != k);
                    }
                };
                assert forall|j2: int| i + 1 <= j2 < n implies #[trigger] self.posting_of(
                    (self0.dirty@[j2])@,
                ) == self0.posting_of((self0.dirty@[j2])@) by {
                    assert((self0.dirty@[j2])@ != k);
                };
            }
            i += 1;
        }
        let had_dirty = self.dirty.len() > 0;
        self.dirty.clear();
        proof {
            if had_dirty {
                self.fence@ = (self.max_doc@ + 1) as DocID;
                assert(self0.indexs@.dom().contains((self0.dirty@[0])@));
            }
            assert forall|k: Seq<u8>| #[trigger] self.indexs@.dom().contains(k) implies self
                .posting_of(k).freq == 0 && self.posting_of(k).add_commit == false by {
                if self0.dirty_has(k) {
                    let w = choose|w: int|
                        0 <= w < self0.dirty@.len() && (self0.dirty@[w])@ == k;
                } else {
                    assert(self.posting_of(k) == self0.posting_of(k));
                    assert(posting_inv(self0.posting_of(k), &pool0, self0.history@[k]));
                }
            };
            assert(!self.dirty_has(Seq::<u8>::empty()) && self.dirty@.len() == 0);
            assert forall|k: Seq<u8>| #[trigger] self.indexs@.dom().contains(k) implies !self
                .dirty_has(k) by {};
            lemma_owns_eq(self, self0);
        }
        Ok(())
    }
}

/// Two cache states with the same term map, histories, and posting streams
/// own the same pool streams.
proof fn lemma_owns_eq(cache: &FieldCache, other: FieldCache)
    requires
        cache.history@.dom() == other.history@.dom(),
        cache.indexs@ == other.indexs@,
        forall|k: Seq<u8>|
            #[trigger] cache.history@.dom().contains(k) ==> cache.posting_of(k).stream
                == other.posting_of(k).stream,
    ensures
        forall|h: int| cache.owns_stream(h) == other.owns_stream(h),
{
    assert forall|h: int| cache.owns_stream(h) == other.owns_stream(h) by {
        if cache.owns_stream(h) {
            let k = choose|k: Seq<u8>|
                cache.hist().dom().contains(k) && (#[trigger] cache.posting_of(k)).stream == h;
            assert(other.posting_of(k).stream == h);
            assert(other.owns_stream(h));
        }
        if other.owns_stream(h) {
            let k = choose|k: Seq<u8>|
                other.hist().dom().contains(k) && (#[trigger] other.posting_of(k)).stream == h;
            assert(cache.posting_of(k).stream == h);
            assert(cache.owns_stream(h));
        }
    };
}

/// After `add` touches one term, any pool stream the cache used before is
/// still the same one; only the new term's block chain is new.
proof fn lemma_add_owns_back(
    cache: &FieldCache,
    self0: FieldCache,
    selfa: FieldCache,
    t: Seq<u8>,
    idx: int,
    pool0count: int,
)
    requires
        self0.indexs@.dom() == self0.history@.dom(),
        forall|k: Seq<u8>|
            #[trigger] self0.indexs@.dom().contains(k) ==> self0.indexs@[k]
                < self0.postings@.len(),
        forall|k1: Seq<u8>, k2: Seq<u8>|
            self0.indexs@.dom().contains(k1) && self0.indexs@.dom().contains(k2) && k1 != k2
                ==> #[trigger] self0.indexs@[k1] != #[trigger] self0.indexs@[k2],
        selfa.indexs@.dom() == self0.indexs@.dom().insert(t),
        forall|k: Seq<u8>|
            #[trigger] self0.indexs@.dom().contains(k) && k != t ==> selfa.indexs@[k]
                == self0.indexs@[k],
        forall|j: int|
            0 <= j < self0.postings@.len() ==> #[trigger] selfa.postings@[j]
                == self0.postings@[j],
        selfa.postings@.len() >= self0.postings@.len(),
        idx == selfa.indexs@[t],
        0 <= idx < selfa.postings@.len(),
        !self0.indexs@.dom().contains(t) ==> idx == self0.postings@.len()
            && selfa.postings@[idx].stream as int >= pool0count,
        self0.indexs@.dom().contains(t) ==> idx == self0.indexs@[t],
        cache.indexs@ == selfa.indexs@,
        cache.history@.dom() == selfa.indexs@.dom(),
        cache.postings@.len() == selfa.postings@.len(),
        forall|j: int|
            0 <= j < selfa.postings@.len() && j != idx ==> #[trigger] cache.postings@[j]
                == selfa.postings@[j],
        cache.postings@[idx].stream == selfa.postings@[idx].stream,
    ensures
        forall|h: int|
            0 <= h < pool0count && #[trigger] cache.owns_stream(h) ==> self0.owns_stream(h),
{
    assert forall|h: int|
        0 <= h < pool0count && #[trigger] cache.owns_stream(h) implies self0.owns_stream(h) by {
        let k = choose|k: Seq<u8>|
            cache.hist().dom().contains(k) && (#[trigger] cache.posting_of(k)).stream == h;
        if k == t {
            assert(cache.posting_of(t).stream == selfa.postings@[idx].stream);
            assert(self0.indexs@.dom().contains(t));
            assert(self0.posting_of(t).stream == h);
            assert(self0.owns_stream(h));
        } else {
            assert(self0.indexs@.dom().contains(k));
            let j = self0.indexs@[k] as int;
            assert(j != idx);
            assert(cache.posting_of(k).stream == self0.posting_of(k).stream);
            assert(self0.owns_stream(h));
        }
    };
}

/// A live cache's streams all sit inside the pool.
proof fn lemma_owns_bound(cache: &FieldCache, pool: &ByteBlockPool)
    requires
        cache.wf(pool),
        !cache.is_broken(),
    ensures
        forall|h: int| #[trigger] cache.owns_stream(h) ==> 0 <= h < pool.stream_count(),
{
    assert forall|h: int| #[trigger] cache.owns_stream(h) implies 0 <= h < pool.stream_count() by {
        let k = choose|k: Seq<u8>|
            cache.hist().dom().contains(k) && (#[trigger] cache.posting_of(k)).stream == h;
        assert(posting_inv(cache.posting_of(k), pool, cache.history@[k]));
    };
}

/// Reads one field's postings out of the cache and pool.
pub struct FieldReader<'a> {
    pub cache: &'a FieldCache,
    pub pool: &'a ByteBlockPool,
}

impl FieldCache {
    /// What a live cache's invariant gives its readers: the term map and
    /// the history name the same terms, and every term's posting is sound
    /// against the pool.
    pub proof fn lemma_wf_parts(&self, pool: &ByteBlockPool)
        requires
            self.wf(pool),
            !self.is_broken(),
        ensures
            self.terms_map().dom() == self.hist().dom(),
            forall|k: Seq<u8>|
                #[trigger] self.hist().dom().contains(k) ==> 0 < k.len() && self.terms_map()[k]
                    < self.spec_postings().len() && self.posting_of(k) == self.spec_postings()[
                    self.terms_map()[k] as int
                ] && posting_inv(self.posting_of(k), pool, self.hist()[k]),
    {
    }

    /// The term map, for iteration.
    pub fn indexs_ref(&self) -> (r: &ArtCache)
        ensures
            r@ == self.terms_map(),
    {
        &self.indexs
    }

    /// The postings, for the flusher.
    pub fn postings_ref(&self) -> (r: &Vec<_Posting>)
        ensures
            r@ == self.spec_postings(),
    {
        &self.postings
    }
}

impl<'a> FieldReader<'a> {
    pub fn new(cache: &'a FieldCache, pool: &'a ByteBlockPool) -> (r: FieldReader<'a>)
        ensures
            r.cache == cache,
            r.pool == pool,
    {
        FieldReader { cache, pool }
    }

    /// The committed posting of `term`: a snapshot whose records are the
    /// ones serialised so far. Once the cache is committed, those records
    /// are exactly the grouped history of the term.
    pub fn get(&self, term: &[u8]) -> (r: GyResult<PostingReader>)
        requires
            self.cache.wf(self.pool),
            self.pool.wf(),
            !self.cache.is_broken(),
            term@.len() > 0,
        ensures
            match r {
                Ok(pr) => {
                    &&& self.cache.hist().dom().contains(term@)
                    &&& pr.wf()
                    &&& pr.spec_records() == self.cache.posting_of(term@).records@
                    &&& (self.cache.posting_of(term@).freq == 0 ==> recs_int(pr.spec_records())
                        == agg(self.cache.hist()[term@]))
                },
                Err(e) => e == GyError::TermNotFound && !self.cache.hist().dom().contains(term@),
            },
    {
        let idx_u64 = match self.cache.indexs.get(term) {
            Some(v) => v,
            None => {
                return Err(GyError::TermNotFound);
            },
        };
        if idx_u64 >= self.cache.postings.len() as u64 {
            proof {
                assert(false);
            }
            return Err(GyError::TermNotFound);
        }
        let idx = idx_u64 as usize;
        let p = &self.cache.postings[idx];
        proof {
            assert(*p == self.cache.posting_of(term@));
            assert(posting_inv(*p, self.pool, self.cache.hist()[term@]));
            self.pool.lemma_stream_walk(p.stream as int);
        }
        let reader = RingBufferReader::new(self.pool, p.byte_addr, p.doc_freq_addr);
        let snap = match SnapshotReader::new(reader) {
            Ok(s) => s,
            Err(_) => {
                proof {
                    assert(false);
                }
                return Err(GyError::TermNotFound);
            },
        };
        Ok(PostingReader { snap, records: Ghost(p.records@) })
    }
}

/// A snapshot of one posting's committed byte stream.
pub struct PostingReader {
    pub snap: SnapshotReader,
    records: Ghost<Seq<(DocID, u32)>>,
}

impl PostingReader {
    /// The records the snapshot holds, in document-id order.
    pub closed spec fn spec_records(&self) -> Seq<(DocID, u32)> {
        self.records@
    }

    pub closed spec fn wf(&self) -> bool {
        &&& self.snap.data@ == enc_records(self.records@, 0)
        &&& recs_ok(self.records@)
    }

    pub(crate) fn new(snap: SnapshotReader, Ghost(records): Ghost<Seq<(DocID, u32)>>) -> (r:
        PostingReader)
        requires
            snap.data@ == enc_records(records, 0),
            recs_ok(records),
        ensures
            r.wf(),
            r.spec_records() == records,
    {
        PostingReader { snap, records: Ghost(records) }
    }

    /// A pull iterator over the records.
    pub fn iter(&self) -> (r: PostingReaderIter<'_>)
        requires
            self.wf(),
        ensures
            r.wf(),
            r.spec_records() == self.spec_records(),
            r.consumed() == 0,
    {
        let r = PostingReaderIter {
            last_docid: 0,
            data: self.snap.data.as_slice(),
            pos: 0,
            reader: Ghost(self.records@),
            k: Ghost(0),
        };
        proof {
            assert(r.reader@.skip(0) =~= r.reader@);
            assert(r.data@.skip(0) =~= r.data@);
        }
        r
    }
}

/// Walks a posting snapshot, yielding one `DocFreq` per document with the
/// delta encoding already resolved.
pub struct PostingReaderIter<'a> {
    last_docid: DocID,
    data: &'a [u8],
    pos: usize,
    reader: Ghost<Seq<(DocID, u32)>>,
    k: Ghost<int>,
}

impl<'a> PostingReaderIter<'a> {
    pub closed spec fn spec_records(&self) -> Seq<(DocID, u32)> {
        self.reader@
    }

    /// How many records this iterator has yielded.
    pub closed spec fn consumed(&self) -> int {
        self.k@
    }

    pub closed spec fn wf(&self) -> bool {
        &&& recs_ok(self.reader@)
        &&& 0 <= self.k@ <= self.reader@.len()
        &&& self.last_docid == (if self.k@ == 0 {
            0
        } else {
            self.reader@[self.k@ - 1].0
        })
        &&& self.pos <= self.data@.len()
        &&& self.data@.skip(self.pos as int) == enc_records(
            self.reader@.skip(self.k@),
            self.last_docid,
        )
    }

    /// The next record, or `None` past the end.
    pub fn next(&mut self) -> (r: Option<DocFreq>)
        requires
            old(self).wf(),
        ensures
            final(self).wf(),
            final(self).spec_records() == old(self).spec_records(),
            match r {
                Some(df) => {
                    &&& old(self).consumed() < old(self).spec_records().len()
                    &&& final(self).consumed() == old(self).consumed() + 1
                    &&& df.0 == old(self).spec_records()[old(self).consumed()].0
                    &&& df.1 == old(self).spec_records()[old(self).consumed()].1
                },
                None => {
                    &&& old(self).consumed() == old(self).spec_records().len()
                    &&& final(self).consumed() == old(self).consumed()
                },
            },
    {
        let ghost rest = self.reader@.skip(self.k@);
        proof {
            if rest.len() > 0 {
                let prev = self.last_docid;
                let delta = (rest[0].0 - prev) as u64;
                assert(rest[0] == self.reader@[self.k@]);
                if self.k@ > 0 {
                    assert(self.reader@[self.k@ - 1].0 < self.reader@[self.k@].0);
                }
                assert(prev <= rest[0].0 && rest[0].0 < 0x8000_0000_0000_0000);
                assert(delta < 0x8000_0000_0000_0000);
                crate::schema::lemma_doc_freq_round_trip(
                    delta,
                    rest[0].1,
                    enc_records(rest.drop_first(), rest[0].0),
                );
                assert(enc_records(rest, prev) == enc_doc_freq(delta, rest[0].1) + enc_records(
                    rest.drop_first(),
                    rest[0].0,
                ));
            } else {
                assert(self.data@.skip(self.pos as int) =~= Seq::<u8>::empty());
                assert(self.pos == self.data@.len());
            }
        }
        match DocFreq::binary_deserialize(self.data, self.pos) {
            Ok((df, end)) => {
                proof {
                    assert(self.data@.subrange(self.pos as int, self.data@.len() as int) == self
                        .data@.skip(self.pos as int));
                    assert(rest.len() > 0) by {
                        if rest.len() == 0 {
                            assert(dec_doc_freq(self.data@.skip(self.pos as int)) is None);
                        }
                    };
                    assert(df.0 == (rest[0].0 - self.last_docid) as u64 && df.1 == rest[0].1);
                }
                let doc = self.last_docid + df.0;
                proof {
                    assert(doc == rest[0].0);
                    assert(self.data@.skip(end as int) =~= self.data@.skip(self.pos as int).skip(
                        end - self.pos as int,
                    ));
                    assert(self.data@.skip(self.pos as int).skip(
                        enc_doc_freq((rest[0].0 - self.last_docid) as u64, rest[0].1).len() as int,
                    ) =~= enc_records(rest.drop_first(), rest[0].0));
                    assert(rest.drop_first() =~= self.reader@.skip(self.k@ + 1));
                }
                self.last_docid = doc;
                self.pos = end;
                proof {
                    self.k@ = self.k@ + 1;
                }
                Some(DocFreq(doc, df.1))
            },
            Err(_) => {
                proof {
                    assert(rest.len() == 0) by {
                        if rest.len() > 0 {
                            assert(dec_doc_freq(self.data@.skip(self.pos as int)) is Some);
                        }
                    };
                }
                None
            },
        }
    }
}

/// A point query: a field and the term bytes to look up in it.
pub struct Term {
    pub field_id: crate::schema::FieldID,
    pub bytes: Vec<u8>,
}

impl Term {
    pub fn from_field_text(field_id: crate::schema::FieldID, text: &str) -> (r: Term)
        ensures
            r.field_id == field_id,
            r.bytes@ == vstd::utf8::encode_utf8(text@),
    {
        Term { field_id, bytes: text.as_bytes_vec() }
    }

    pub fn from_field_i32(field_id: crate::schema::FieldID, v: i32) -> (r: Term)
        ensures
            r.field_id == field_id,
            r.bytes@ == crate::schema::be32(v as u32),
    {
        let mut bytes: Vec<u8> = Vec::new();
        crate::schema::write_u32_be(&mut bytes, v as u32);
        Term { field_id, bytes }
    }

    pub fn field_id(&self) -> (r: &crate::schema::FieldID)
        ensures
            r == &self.field_id,
    {
        &self.field_id
    }

    pub fn bytes_value(&self) -> (r: &[u8])
        ensures
            r@ == self.bytes@,
    {
        self.bytes.as_slice()
    }
}

/// How one document's terms extend a field's history: each value of the
/// field appends the document id once per occurrence, in order.
pub open spec fn hist_after_doc(
    h: Map<Seq<u8>, Seq<DocID>>,
    doc: Seq<(u32, crate::schema::ValView)>,
    f: int,
    d: DocID,
) -> Map<Seq<u8>, Seq<DocID>>
    decreases doc.len(),
{
    if doc.len() == 0 {
        h
    } else {
        let h1 = hist_after_doc(h, doc.drop_last(), f, d);
        let e = doc.last();
        if e.0 == f {
            let t = term_bytes_of(e.1);
            h1.insert(
                t,
                (if h1.dom().contains(t) {
                    h1[t]
                } else {
                    Seq::empty()
                }).push(d),
            )
        } else {
            h1
        }
    }
}

/// Reassembles the cache invariant at the end of `add`.
proof fn lemma_add_wf(
    cache: &FieldCache,
    pool: &ByteBlockPool,
    self0: FieldCache,
    pool0: ByteBlockPool,
    selfa: FieldCache,
    poola: ByteBlockPool,
    t: Seq<u8>,
    idx: int,
    doc_id: DocID,
    hist_t: Seq<DocID>,
)
    requires
        self0.wf(&pool0),
        !self0.is_broken(),
        pool0.wf(),
        doc_id >= self0.spec_fence(),
        doc_id < 0x8000_0000_0000_0000,
        t.len() > 0,
        // how the pre-branch state relates to entry
        !selfa.broken,
        selfa.dirty@ == self0.dirty@,
        selfa.fence@ == self0.fence@,
        selfa.max_doc@ == self0.max_doc@,
        selfa.indexs@.dom() == self0.indexs@.dom().insert(t),
        forall|k: Seq<u8>|
            #[trigger] self0.indexs@.dom().contains(k) && k != t ==> selfa.indexs@[k]
                == self0.indexs@[k],
        self0.indexs@.dom().contains(t) ==> selfa.indexs@[t] == self0.indexs@[t],
        !self0.indexs@.dom().contains(t) ==> selfa.indexs@[t] as int
            == self0.postings@.len() as int,
        selfa.history@ == (if self0.history@.dom().contains(t) {
            self0.history@
        } else {
            self0.history@.insert(t, Seq::<DocID>::empty())
        }),
        hist_t == selfa.history@[t],
        selfa.postings@.len() == (if self0.indexs@.dom().contains(t) {
            self0.postings@.len() as int
        } else {
            self0.postings@.len() as int + 1
        }),
        forall|j: int|
            0 <= j < self0.postings@.len() ==> #[trigger] selfa.postings@[j]
                == self0.postings@[j],
        idx == selfa.indexs@[t],
        0 <= idx < selfa.postings@.len(),
        !self0.indexs@.dom().contains(t) ==> selfa.postings@[idx].stream
            == pool0.stream_count() && selfa.postings@[idx].add_commit == false,
        self0.indexs@.dom().contains(t) ==> selfa.postings@[idx]
            == self0.postings@[idx],
        // what the branch established
        pool.wf(),
        pool.stream_count() >= poola.stream_count(),
        poola.stream_count() == pool0.stream_count() + (if self0.indexs@.dom().contains(t) {
            0int
        } else {
            1int
        }),
        forall|h: int|
            0 <= h < poola.stream_count() && h != selfa.postings@[idx].stream
                ==> #[trigger] pool.stream_at(h) == poola.stream_at(h) && pool.stream_bytes(h)
                == poola.stream_bytes(h),
        forall|h: int|
            0 <= h < pool0.stream_count() ==> #[trigger] poola.stream_at(h) == pool0.stream_at(h)
                && poola.stream_bytes(h) == pool0.stream_bytes(h),
        posting_data_inv(cache.postings@[idx], pool, hist_t.push(doc_id)),
        cache.postings@[idx].freq > 0,
        cache.postings@[idx].add_commit == true,
        cache.postings@[idx].stream == selfa.postings@[idx].stream,
        cache.postings@.len() == selfa.postings@.len(),
        forall|j: int|
            0 <= j < selfa.postings@.len() && j != idx ==> #[trigger] cache.postings@[j]
                == selfa.postings@[j],
        !cache.broken,
        cache.indexs@ == selfa.indexs@,
        cache.history@ == selfa.history@.insert(t, hist_t.push(doc_id)),
        cache.max_doc@ == doc_id,
        cache.fence@ == doc_id,
        // the dirty list after the flag fix
        (selfa.postings@[idx].add_commit ==> cache.dirty@ == selfa.dirty@),
        (!selfa.postings@[idx].add_commit ==> cache.dirty@.len() == selfa.dirty@.len() + 1
            && (cache.dirty@.last())@ == t && forall|j: int|
            0 <= j < selfa.dirty@.len() ==> #[trigger] cache.dirty@[j] == selfa.dirty@[j]),
    ensures
        cache.wf(pool),
{
    let newhist = hist_t.push(doc_id);
    let ourstream = selfa.postings@[idx].stream as int;
    assert(cache.indexs@.dom() =~= cache.history@.dom());
    assert forall|k: Seq<u8>| #[trigger] cache.indexs@.dom().contains(k) implies 0 < k.len()
        && cache.indexs@[k] < cache.postings@.len() by {
        if k != t {
            assert(self0.indexs@.dom().contains(k));
        }
    };
    assert forall|k1: Seq<u8>, k2: Seq<u8>|
        cache.indexs@.dom().contains(k1) && cache.indexs@.dom().contains(k2) && k1 != k2
            implies #[trigger] cache.indexs@[k1] != #[trigger] cache.indexs@[k2] by {
        if k1 != t && k2 != t {
            assert(self0.indexs@.dom().contains(k1) && self0.indexs@.dom().contains(k2));
        } else if k1 == t && !self0.indexs@.dom().contains(t) {
            assert(self0.indexs@.dom().contains(k2));
            assert(cache.indexs@[k2] < self0.postings@.len());
        } else if k2 == t && !self0.indexs@.dom().contains(t) {
            assert(self0.indexs@.dom().contains(k1));
            assert(cache.indexs@[k1] < self0.postings@.len());
        } else {
            assert(self0.indexs@.dom().contains(k1) && self0.indexs@.dom().contains(k2));
        }
    };
    // every posting but ours is untouched, and its stream is not ours
    assert forall|k: Seq<u8>|
        #[trigger] cache.indexs@.dom().contains(k) && k != t implies self0.indexs@.dom().contains(
        k,
    ) && cache.posting_of(k) == self0.posting_of(k) && self0.posting_of(k).stream as int
        != ourstream by {
        let j = self0.indexs@[k] as int;
        assert(cache.indexs@[k] == self0.indexs@[k]);
        if self0.indexs@.dom().contains(t) {
            assert(selfa.postings@[idx] == self0.postings@[idx]);
            assert(idx == self0.indexs@[t]);
            assert(j != idx);
            assert(self0.posting_of(k).stream != self0.posting_of(t).stream);
        } else {
            assert(j < self0.postings@.len());
            assert(idx == self0.postings@.len());
            assert(self0.posting_of(k).stream < pool0.stream_count());
            assert(ourstream == pool0.stream_count() as int);
        }
        assert(cache.postings@[j] == self0.postings@[j]);
    };
    assert forall|k: Seq<u8>| #[trigger] cache.indexs@.dom().contains(k) implies posting_inv(
        cache.posting_of(k),
        pool,
        cache.history@[k],
    ) by {
        if k == t {
            assert(cache.posting_of(t) == cache.postings@[idx]);
            assert(cache.history@[t] == newhist);
        } else {
            let pk = self0.posting_of(k);
            assert(posting_inv(pk, &pool0, self0.history@[k]));
            assert(pk.stream < pool0.stream_count());
            assert(pool.stream_at(pk.stream as int) == pool0.stream_at(pk.stream as int)
                && pool.stream_bytes(pk.stream as int) == pool0.stream_bytes(pk.stream as int))
                by {
                assert(poola.stream_at(pk.stream as int) == pool0.stream_at(pk.stream as int)
                    && poola.stream_bytes(pk.stream as int) == pool0.stream_bytes(
                    pk.stream as int,
                ));
            };
            assert(cache.history@[k] == self0.history@[k]);
        }
    };
    // streams stay pairwise distinct
    assert forall|k1: Seq<u8>, k2: Seq<u8>|
        cache.indexs@.dom().contains(k1) && cache.indexs@.dom().contains(k2) && k1 != k2
            implies (#[trigger] cache.posting_of(k1)).stream != (
        #[trigger] cache.posting_of(k2)).stream by {
        if k1 != t && k2 != t {
            assert(cache.posting_of(k1) == self0.posting_of(k1));
            assert(cache.posting_of(k2) == self0.posting_of(k2));
        } else if k1 == t {
            assert(cache.posting_of(k2).stream as int != ourstream);
            assert(cache.posting_of(t).stream as int == ourstream);
        } else {
            assert(cache.posting_of(k1).stream as int != ourstream);
            assert(cache.posting_of(t).stream as int == ourstream);
        }
    };
    // the dirty list matches the pending flags
    assert(self0.indexs@.dom().contains(t) ==> (selfa.postings@[idx].add_commit
        <==> self0.dirty_has(t)));
    assert forall|j: int|
        0 <= j < cache.dirty@.len() implies cache.indexs@.dom().contains(
        (#[trigger] cache.dirty@[j])@,
    ) by {
        if j < selfa.dirty@.len() {
            assert(cache.dirty@[j] == self0.dirty@[j]);
            assert(self0.indexs@.dom().contains(self0.dirty@[j]@));
        } else {
            assert(cache.dirty@[j] == cache.dirty@.last());
        }
    };
    assert(!selfa.postings@[idx].add_commit ==> !self0.dirty_has(t)) by {
        if !selfa.postings@[idx].add_commit && self0.dirty_has(t) {
            assert(self0.indexs@.dom().contains(t));
        }
    };
    assert forall|i: int, j: int|
        0 <= i < j < cache.dirty@.len() implies (#[trigger] cache.dirty@[i])@ != (
        #[trigger] cache.dirty@[j])@ by {
        if j < selfa.dirty@.len() {
            assert(cache.dirty@[i] == self0.dirty@[i] && cache.dirty@[j] == self0.dirty@[j]);
        } else if !selfa.postings@[idx].add_commit {
            assert(cache.dirty@[i] == self0.dirty@[i]);
            assert((cache.dirty@[j])@ == t);
            if (self0.dirty@[i])@ == t {
                assert(self0.dirty_has(t));
            }
        }
    };
    assert forall|k: Seq<u8>|
        #[trigger] cache.indexs@.dom().contains(k) implies (cache.posting_of(k).add_commit
        <==> cache.dirty_has(k)) by {
        if k == t {
            if selfa.postings@[idx].add_commit {
                assert(self0.dirty_has(t));
                let w = choose|w: int| 0 <= w < self0.dirty@.len() && (self0.dirty@[w])@ == t;
                assert((cache.dirty@[w])@ == t);
            } else {
                assert((cache.dirty@[cache.dirty@.len() - 1])@ == t);
            }
            assert(cache.dirty_has(t));
        } else {
            assert(cache.posting_of(k) == self0.posting_of(k));
            if self0.dirty_has(k) {
                let w = choose|w: int| 0 <= w < self0.dirty@.len() && (self0.dirty@[w])@ == k;
                assert((cache.dirty@[w])@ == k);
                assert(cache.dirty_has(k));
            }
            if cache.dirty_has(k) {
                let w = choose|w: int| 0 <= w < cache.dirty@.len() && (cache.dirty@[w])@ == k;
                if w < selfa.dirty@.len() {
                    assert((self0.dirty@[w])@ == k);
                    assert(self0.dirty_has(k));
                } else {
                    assert((cache.dirty@[w])@ == t);
                    assert(false);
                }
            }
        }
    };
    // the history stays plausible against the new fence
    assert forall|k: Seq<u8>| #[trigger] cache.indexs@.dom().contains(k) implies cache.history@[
        k
    ].len() > 0 && cache.history@[k].last() <= doc_id by {
        if k != t {
            assert(cache.history@[k] == self0.history@[k]);
            assert(self0.history@[k].last() <= self0.max_doc@);
        }
    };
    assert forall|k: Seq<u8>|
        #[trigger] cache.indexs@.dom().contains(k) && cache.posting_of(k).freq == 0
            implies cache.history@[k].last() < doc_id by {
        assert(k != t);
        assert(cache.posting_of(k) == self0.posting_of(k));
        assert(cache.history@[k].last() < self0.fence@);
    };
}

/// How grouping behaves: ids strictly increase, the last group is the last
/// id, counts are positive, and grouping never outgrows the history.
pub proof fn lemma_agg_basics(hist: Seq<DocID>)
    requires
        hist_ok(hist),
    ensures
        agg(hist).len() <= hist.len(),
        hist.len() > 0 ==> agg(hist).len() > 0 && agg(hist).last().0 == hist.last(),
        forall|i: int, j: int|
            0 <= i < j < agg(hist).len() ==> (#[trigger] agg(hist)[i]).0 < (
            #[trigger] agg(hist)[j]).0,
        forall|i: int| 0 <= i < agg(hist).len() ==> (#[trigger] agg(hist)[i]).1 >= 1,
        forall|i: int|
            0 <= i < agg(hist).len() ==> (#[trigger] agg(hist)[i]).0 < 0x8000_0000_0000_0000,
    decreases hist.len(),
{
    if hist.len() > 0 {
        assert(forall|i: int, j: int|
            0 <= i < j < hist.drop_last().len() ==> (#[trigger] hist.drop_last()[i]) <= (
            #[trigger] hist.drop_last()[j]));
        assert(forall|i: int|
            0 <= i < hist.drop_last().len() ==> (#[trigger] hist.drop_last()[i])
                < 0x8000_0000_0000_0000);
        lemma_agg_basics(hist.drop_last());
        let prev = agg(hist.drop_last());
        let d = hist.last();
        if prev.len() > 0 && prev.last().0 != d {
            assert(hist.drop_last().last() <= hist.last());
            assert(prev.last().0 < d);
        }
    }
}

/// How many times `d` was added.
pub open spec fn count_of(hist: Seq<DocID>, d: DocID) -> int
    decreases hist.len(),
{
    if hist.len() == 0 {
        0
    } else {
        count_of(hist.drop_last(), d) + if hist.last() == d {
            1int
        } else {
            0int
        }
    }
}

proof fn lemma_count_zero(hist: Seq<DocID>, d: DocID)
    requires
        !hist.contains(d),
    ensures
        count_of(hist, d) == 0,
    decreases hist.len(),
{
    if hist.len() > 0 {
        assert(!hist.drop_last().contains(d)) by {
            if hist.drop_last().contains(d) {
                let w = choose|w: int|
                    0 <= w < hist.drop_last().len() && hist.drop_last()[w] == d;
                assert(hist[w] == d);
            }
        };
        lemma_count_zero(hist.drop_last(), d);
        assert(hist[hist.len() - 1] != d);
    }
}

/// A document id appears in the grouping exactly when it appears in the
/// history, and its count is the number of times it was added.

pub proof fn lemma_agg_counts(hist: Seq<DocID>, d: DocID)
    requires
        hist_ok(hist),
    ensures
        (exists|i: int| 0 <= i < agg(hist).len() && (#[trigger] agg(hist)[i]).0 == d)
            <==> hist.contains(d),
        forall|i: int|
            0 <= i < agg(hist).len() && (#[trigger] agg(hist)[i]).0 == d ==> agg(hist)[i].1
                == count_of(hist, d),
    decreases hist.len(),
{
    if hist.len() == 0 {
    } else {
        let h0 = hist.drop_last();
        assert(forall|i: int, j: int|
            0 <= i < j < h0.len() ==> (#[trigger] h0[i]) <= (#[trigger] h0[j]));
        assert(forall|i: int| 0 <= i < h0.len() ==> (#[trigger] h0[i]) < 0x8000_0000_0000_0000);
        lemma_agg_counts(h0, d);
        lemma_agg_basics(h0);
        lemma_agg_basics(hist);
        let last = hist.last();
        assert(hist =~= h0.push(last));
        if hist.contains(d) {
            if d == last {
                assert(hist[hist.len() - 1] == d);
            } else {
                assert(h0.contains(d)) by {
                    let w = choose|w: int| 0 <= w < hist.len() && hist[w] == d;
                    assert(h0[w] == d);
                };
            }
        }
        if h0.contains(d) {
            assert(hist.contains(d)) by {
                let w = choose|w: int| 0 <= w < h0.len() && h0[w] == d;
                assert(hist[w] == d);
            };
        }
        let prev = agg(h0);
        if last == d {
            assert(hist.contains(d)) by {
                assert(hist[hist.len() - 1] == d);
            };
            assert(count_of(hist, d) == count_of(h0, d) + 1);
            if prev.len() > 0 && prev.last().0 == d {
                assert(h0.contains(d)) by {
                    assert(exists|i: int|
                        0 <= i < prev.len() && (#[trigger] prev[i]).0 == d) by {
                        assert(prev[prev.len() - 1].0 == d);
                    };
                };
                assert(prev.last().1 == count_of(h0, d));
                assert forall|i: int|
                    0 <= i < agg(hist).len() && (#[trigger] agg(hist)[i]).0 == d implies agg(
                    hist,
                )[i].1 == count_of(hist, d) by {
                    if i < agg(hist).len() - 1 {
                        assert(agg(hist)[i].0 < agg(hist).last().0);
                    }
                };
            } else {
                // d is new: h0 cannot contain it
                if h0.contains(d) {
                    let w = choose|w: int| 0 <= w < h0.len() && h0[w] == d;
                    assert(h0[w] <= h0.last());
                    assert(h0.last() <= d) by {
                        assert(hist[h0.len() - 1] <= hist[hist.len() - 1]);
                    };
                    assert(h0.last() == d);
                    assert(prev.last().0 == d);
                    assert(false);
                }
                assert(count_of(h0, d) == 0) by {
                    lemma_count_zero(h0, d);
                };
                assert forall|i: int|
                    0 <= i < agg(hist).len() && (#[trigger] agg(hist)[i]).0 == d implies agg(
                    hist,
                )[i].1 == count_of(hist, d) by {
                    if i < agg(hist).len() - 1 {
                        assert(agg(hist)[i] == prev[i]);
                        assert(hist.contains(d));
                    }
                };
            }
        } else {
            assert(count_of(hist, d) == count_of(h0, d));
            if hist.contains(d) {
                assert(h0.contains(d));
            }
            assert forall|i: int|
                0 <= i < agg(hist).len() && (#[trigger] agg(hist)[i]).0 == d implies agg(
                hist,
            )[i].1 == count_of(hist, d) by {
                if prev.len() > 0 && prev.last().0 == last {
                    assert(i < agg(hist).len() - 1 || agg(hist)[i].0 == last);
                    assert(agg(hist)[i] == prev[i]);
                } else {
                    assert(i < agg(hist).len() - 1);
                    assert(agg(hist)[i] == prev[i]);
                }
            };
            assert((exists|i: int|
                0 <= i < agg(hist).len() && (#[trigger] agg(hist)[i]).0 == d) <==> hist.contains(
                d,
            )) by {
                if exists|i: int| 0 <= i < agg(hist).len() && (#[trigger] agg(hist)[i]).0 == d {
                    let i = choose|i: int|
                        0 <= i < agg(hist).len() && (#[trigger] agg(hist)[i]).0 == d;
                    if prev.len() > 0 && prev.last().0 == last {
                        assert(agg(hist)[i] == prev[i]);
                        assert(exists|q: int| 0 <= q < prev.len() && (#[trigger] prev[q]).0 == d);
                    } else {
                        assert(i < agg(hist).len() - 1);
                        assert(agg(hist)[i] == prev[i]);
                        assert(exists|q: int| 0 <= q < prev.len() && (#[trigger] prev[q]).0 == d);
                    }
                }
                if hist.contains(d) {
                    assert(h0.contains(d));
                    let q = choose|q: int| 0 <= q < prev.len() && (#[trigger] prev[q]).0 == d;
                    if prev.len() > 0 && prev.last().0 == last {
                        assert(agg(hist)[q].0 == d);
                    } else {
                        assert(agg(hist)[q].0 == d);
                    }
                }
            };
        }
    }
}

/// Appending a record extends the stream by that record's wire form,
/// delta-encoded against the record before it.
pub proof fn lemma_enc_records_push(rs: Seq<(DocID, u32)>, d: DocID, f: u32, base: DocID)
    ensures
        enc_records(rs.push((d, f)), base) == enc_records(rs, base) + enc_doc_freq(
            (d - (if rs.len() > 0 {
                rs.last().0
            } else {
                base
            })) as u64,
            f,
        ),
    decreases rs.len(),
{
    let ext = rs.push((d, f));
    if rs.len() == 0 {
        assert(ext[0] == (d, f));
        assert(ext.drop_first() =~= Seq::<(DocID, u32)>::empty());
        assert(enc_records(ext.drop_first(), ext[0].0) == Seq::<u8>::empty());
        assert(enc_records(rs, base) == Seq::<u8>::empty());
        assert(enc_records(ext, base) =~= enc_records(rs, base) + enc_doc_freq(
            (d - base) as u64,
            f,
        ));
    } else {
        assert(ext.drop_first() =~= rs.drop_first().push((d, f)));
        lemma_enc_records_push(rs.drop_first(), d, f, rs[0].0);
        assert(ext[0] == rs[0]);
        if rs.len() == 1 {
            assert(rs.last() == rs[0]);
        } else {
            assert(rs.drop_first().last() == rs.last());
        }
        assert(enc_records(ext, base) =~= enc_records(rs, base) + enc_doc_freq(
            (d - rs.last().0) as u64,
            f,
        ));
    }
}

/// Settings an index is created with.
pub struct IndexConfig {
    pub index_name: String,
    pub io_type: crate::wal::IOType,
    pub index_path: String,
    pub wal_fname: String,
    pub fsize: usize,
}

impl IndexConfig {
    pub fn get_index_name(&self) -> (r: &str)
        ensures
            r@ == self.index_name@,
    {
        self.index_name.as_str()
    }

    pub fn get_io_type(&self) -> (r: &crate::wal::IOType)
        ensures
            r == &self.io_type,
    {
        &self.io_type
    }

    pub fn get_index_path(&self) -> (r: &str)
        ensures
            r@ == self.index_path@,
    {
        self.index_path.as_str()
    }

    pub fn get_wal_fname(&self) -> (r: &str)
        ensures
            r@ == self.wal_fname@,
    {
        self.wal_fname.as_str()
    }

    pub fn get_fsize(&self) -> (r: usize)
        ensures
            r == self.fsize,
    {
        self.fsize
    }
}

/// Builds an `IndexConfig`, field by field.
pub struct IndexConfigBuilder {
    pub index_name: String,
    pub io_type: crate::wal::IOType,
    pub index_path: String,
    pub wal_fname: String,
    pub fsize: usize,
}

impl Default for IndexConfigBuilder {
    /// The defaults: a memory-mapped log of the default size in the
    /// current directory.
    fn default() -> (r: IndexConfigBuilder)
        ensures
            r.index_name@ == Seq::<char>::empty(),
            r.io_type == crate::wal::IOType::MMAP,
            r.index_path@ == "./"@,
            r.wal_fname@ == "./000000.wal"@,
            r.fsize == crate::wal::DEFAULT_WAL_FILE_SIZE,
    {
        IndexConfigBuilder {
            index_name: String::new(),
            io_type: crate::wal::IOType::MMAP,
            index_path: "./".to_owned(),
            wal_fname: "./000000.wal".to_owned(),
            fsize: crate::wal::DEFAULT_WAL_FILE_SIZE,
        }
    }
}

impl IndexConfigBuilder {
    pub fn index_name(self, index_name: String) -> (r: IndexConfigBuilder)
        ensures
            r.index_name == index_name,
            r.io_type == self.io_type,
            r.index_path == self.index_path,
            r.wal_fname == self.wal_fname,
            r.fsize == self.fsize,
    {
        IndexConfigBuilder { index_name, ..self }
    }

    pub fn io_type(self, io_type: crate::wal::IOType) -> (r: IndexConfigBuilder)
        ensures
            r.io_type == io_type,
            r.index_name == self.index_name,
            r.index_path == self.index_path,
            r.wal_fname == self.wal_fname,
            r.fsize == self.fsize,
    {
        IndexConfigBuilder { io_type, ..self }
    }

    pub fn index_path(self, index_path: String) -> (r: IndexConfigBuilder)
        ensures
            r.index_path == index_path,
            r.index_name == self.index_name,
            r.io_type == self.io_type,
            r.wal_fname == self.wal_fname,
            r.fsize == self.fsize,
    {
        IndexConfigBuilder { index_path, ..self }
    }

    pub fn wal_fname(self, wal_fname: String) -> (r: IndexConfigBuilder)
        ensures
            r.wal_fname == wal_fname,
            r.index_name == self.index_name,
            r.io_type == self.io_type,
            r.index_path == self.index_path,
            r.fsize == self.fsize,
    {
        IndexConfigBuilder { wal_fname, ..self }
    }

    pub fn fsize(self, fsize: usize) -> (r: IndexConfigBuilder)
        ensures
            r.fsize == fsize,
            r.index_name == self.index_name,
            r.io_type == self.io_type,
            r.index_path == self.index_path,
            r.wal_fname == self.wal_fname,
    {
        IndexConfigBuilder { fsize, ..self }
    }

    pub fn build(self) -> (r: IndexConfig)
        ensures
            r.index_name == self.index_name,
            r.io_type == self.io_type,
            r.index_path == self.index_path,
            r.wal_fname == self.wal_fname,
            r.fsize == self.fsize,
    {
        IndexConfig {
            index_name: self.index_name,
            io_type: self.io_type,
            index_path: self.index_path,
            wal_fname: self.wal_fname,
            fsize: self.fsize,
        }
    }
}

/// The index itself: the schema, one field cache per field, the byte pool
/// behind them, the write-ahead log, and the document offset table.
pub struct IndexBase {
    pub schema: crate::schema::Schema,
    pub fields: Vec<FieldCache>,
    doc_id: DocID,
    pool: ByteBlockPool,
    wal: crate::wal::Wal,
    doc_offset: Vec<usize>,
    broken: bool,
    config: IndexConfig,
    docs: Ghost<Seq<Seq<(u32, crate::schema::ValView)>>>,
}

impl IndexBase {
    /// The documents added so far, in order.
    pub closed spec fn spec_docs(&self) -> Seq<Seq<(u32, crate::schema::ValView)>> {
        self.docs@
    }

    pub closed spec fn doc_count(&self) -> int {
        self.doc_id as int
    }

    pub closed spec fn is_broken(&self) -> bool {
        self.broken
    }

    pub closed spec fn field_count(&self) -> int {
        self.fields@.len() as int
    }

    /// The history of one field's terms.
    pub closed spec fn field_hist(&self, f: int) -> Map<Seq<u8>, Seq<DocID>> {
        self.fields@[f].hist()
    }

    pub closed spec fn the_pool(&self) -> &ByteBlockPool {
        &self.pool
    }

    pub closed spec fn spec_fields(&self) -> Seq<FieldCache> {
        self.fields@
    }

    pub closed spec fn spec_doc_offset(&self) -> Seq<usize> {
        self.doc_offset@
    }

    pub closed spec fn spec_config(&self) -> &IndexConfig {
        &self.config
    }

    pub closed spec fn spec_schema(&self) -> &crate::schema::Schema {
        &self.schema
    }

    pub closed spec fn the_wal(&self) -> &crate::wal::Wal {
        &self.wal
    }

    pub closed spec fn wf(&self) -> bool {
        !self.broken ==> {
            &&& self.pool.wf()
            &&& self.wal.wf()
            &&& self.wal.written() == self.wal.flushed()
            &&& self.doc_offset@.len() == self.doc_id
            &&& self.docs@.len() == self.doc_id
            &&& self.doc_id < 0x8000_0000_0000_0000
            &&& forall|f: int|
                0 <= f < self.fields@.len() ==> (#[trigger] self.fields@[f]).wf(&self.pool)
                    && !self.fields@[f].is_broken() && self.fields@[f].spec_fence()
                    <= self.doc_id && self.fields@[f].spec_max_doc() <= self.doc_id
            &&& forall|f: int, k: Seq<u8>|
                0 <= f < self.fields@.len() && (#[trigger] self.fields@[f].hist().dom().contains(
                    k,
                )) ==> self.fields@[f].spec_max_doc() < self.doc_id
            &&& forall|f1: int, f2: int, h: int|
                0 <= f1 < self.fields@.len() && 0 <= f2 < self.fields@.len() && f1 != f2 ==> !(
                (#[trigger] self.fields@[f1].owns_stream(h)) && (
                #[trigger] self.fields@[f2].owns_stream(h)))
            &&& forall|f: int, h: int|
                0 <= f < self.fields@.len() && (#[trigger] self.fields@[f].owns_stream(h)) ==> 0
                    <= h < self.pool.stream_count()
            &&& forall|d: int|
                0 <= d < self.doc_id ==> (#[trigger] self.doc_offset@[d]) + crate::schema::enc_doc(
                    self.docs@[d],
                ).len() <= self.wal.flushed().len()
            &&& forall|d: int|
                0 <= d < self.doc_id ==> self.wal.flushed().subrange(
                    (#[trigger] self.doc_offset@[d]) as int,
                    self.doc_offset@[d] + crate::schema::enc_doc(self.docs@[d]).len(),
                ) == crate::schema::enc_doc(self.docs@[d])
            &&& forall|d: int| 0 <= d < self.doc_id ==> crate::schema::wf_doc(#[trigger] self.docs@[d])
        }
    }

    /// A fresh index: one cache per schema field, an empty log.
    pub fn new(schema: crate::schema::Schema, config: IndexConfig) -> (r: GyResult<IndexBase>)
        ensures
            match r {
                Ok(ib) => {
                    &&& ib.wf()
                    &&& !ib.is_broken()
                    &&& ib.doc_count() == 0
                    &&& ib.field_count() == schema.fields@.len()
                },
                Err(_) => false,
            },
    {
        let mut fields: Vec<FieldCache> = Vec::new();
        let n = schema.fields.len();
        let mut i: usize = 0;
        while i < n
            invariant
                i <= n,
                fields@.len() == i,
                forall|f: int|
                    0 <= f < i ==> (#[trigger] fields@[f]).hist() == Map::<
                        Seq<u8>,
                        Seq<DocID>,
                    >::empty() && !fields@[f].is_broken() && fields@[f].spec_fence() == 0
                        && fields@[f].spec_max_doc() == 0 && (forall|h: int|
                        !fields@[f].owns_stream(h)) && (forall|p2: &ByteBlockPool|
                        #[trigger] fields@[f].wf(p2)),
            decreases n - i,
        {
            fields.push(FieldCache::new());
            i += 1;
        }
        let wal = match crate::wal::Wal::new(config.fsize, config.io_type) {
            Ok(w) => w,
            Err(_) => {
                proof {
                    assert(false);
                }
                return Err(GyError::Serialization);
            },
        };
        let ib = IndexBase {
            schema,
            fields,
            doc_id: 0,
            pool: ByteBlockPool::new(),
            wal,
            doc_offset: Vec::new(),
            broken: false,
            config,
            docs: Ghost(Seq::empty()),
        };
        Ok(ib)
    }

    pub fn get_config(&self) -> (r: &IndexConfig)
        ensures
            r == self.spec_config(),
    {
        &self.config
    }

    /// Serialises one document into the log and flushes it; yields the
    /// offset the document starts at.
    pub fn write_doc_to_wal(&mut self, doc: &Document) -> (r: GyResult<usize>)
        requires
            old(self).wf(),
            !old(self).is_broken(),
        ensures
            final(self).wf(),
            !final(self).is_broken(),
            final(self).doc_count() == old(self).doc_count(),
            final(self).spec_docs() == old(self).spec_docs(),
            final(self).spec_fields() == old(self).spec_fields(),
            final(self).spec_doc_offset() == old(self).spec_doc_offset(),
            *final(self).the_pool() == *old(self).the_pool(),
            final(self).the_wal().spec_fsize() == old(self).the_wal().spec_fsize(),
            *final(self).spec_schema() == *old(self).spec_schema(),
            *final(self).spec_config() == *old(self).spec_config(),
            !final(self).is_broken(),
            (r is Ok <==> crate::schema::enc_doc(doc@).len() <= usize::MAX && old(self).the_wal().flushed().len() + crate::schema::enc_doc(doc@).len() <= old(self).the_wal().spec_fsize()),
            (r == GyResult::<usize>::Err(GyError::Serialization) <==> crate::schema::enc_doc(
                doc@,
            ).len() > usize::MAX),
            (r == GyResult::<usize>::Err(GyError::WalOverflow) <==> crate::schema::enc_doc(
                doc@,
            ).len() <= usize::MAX && old(self).the_wal().flushed().len()
                + crate::schema::enc_doc(doc@).len() > old(self).the_wal().spec_fsize()),
            match r {
                Ok(off) => {
                    &&& off == old(self).the_wal().flushed().len()
                    &&& final(self).the_wal().flushed() == old(self).the_wal().flushed()
                        + crate::schema::enc_doc(doc@)
                    &&& crate::schema::wf_doc(doc@)
                },
                Err(e) => {
                    &&& (e == GyError::WalOverflow || e == GyError::Serialization)
                    &&& *final(self) == *old(self)
                },
            },
    {
        proof {
            self.wal.lemma_wal_len();
        }
        let size = match doc.size() {
            Ok(s) => s,
            Err(e) => {
                return Err(e);
            },
        };
        match self.wal.check_rotate(size) {
            Ok(_) => {},
            Err(e) => {
                return Err(e);
            },
        }
        proof {
            self.wal.lemma_wal_len();
        }
        let mut buf: Vec<u8> = Vec::new();
        let _ = doc.binary_serialize(&mut buf);
        let offset = self.wal.offset();
        match self.wal.write_bytes(buf.as_slice()) {
            Ok(_) => {},
            Err(e) => {
                proof {
                    assert(false);
                }
                return Err(e);
            },
        }
        let _ = self.wal.flush();
        proof {
            vstd::std_specs::vec::axiom_spec_len(&doc.field_values);
            assert forall|i: int|
                0 <= i < doc@.len() implies crate::schema::wf_val((#[trigger] doc@[i]).1) by {
                assert(crate::schema::enc_fvs(doc@).len() <= crate::schema::enc_doc(doc@).len());
                lemma_enc_fvs_val_bound(doc@, i);
            };
            assert(crate::schema::wf_doc(doc@));
            assert(self.wal.flushed() =~= old(self).the_wal().flushed() + crate::schema::enc_doc(
                doc@,
            ));
            assert forall|d: int| 0 <= d < self.doc_id implies self.wal.flushed().subrange(
                (#[trigger] self.doc_offset@[d]) as int,
                self.doc_offset@[d] + crate::schema::enc_doc(self.docs@[d]).len(),
            ) == crate::schema::enc_doc(self.docs@[d]) by {
                assert(self.wal.flushed().subrange(
                    self.doc_offset@[d] as int,
                    self.doc_offset@[d] + crate::schema::enc_doc(self.docs@[d]).len(),
                ) =~= old(self).the_wal().flushed().subrange(
                    self.doc_offset@[d] as int,
                    self.doc_offset@[d] + crate::schema::enc_doc(self.docs@[d]).len(),
                ));
            };
        }
        Ok(offset)
    }
}

/// Whether the index can take `doc` at all: the document counter is not
/// saturated, every value names a schema field, and every term is
/// non-empty.
pub open spec fn doc_addable(base: IndexBase, doc: Seq<(u32, crate::schema::ValView)>) -> bool {
    &&& base.doc_count() < 0x7FFF_FFFF_FFFF_FFFF
    &&& forall|i: int|
        0 <= i < doc.len() ==> (#[trigger] doc[i]).0 < base.spec_fields().len()
            && term_bytes_of(doc[i].1).len() > 0
}

impl IndexBase {
    /// Adds a document: appends it to the log, records its offset, feeds
    /// every field value to its field cache, and commits, so the document
    /// is immediately visible to readers.
    pub fn add(&mut self, doc: &Document) -> (r: GyResult<()>)
        requires
            old(self).wf(),
            !old(self).is_broken(),
        ensures
            final(self).wf(),
            (r == GyResult::<()>::Err(GyError::WalOverflow) <==> doc_addable(*old(self), doc@)
                && crate::schema::enc_doc(doc@).len() <= usize::MAX && old(self).the_wal().flushed().len() + crate::schema::enc_doc(doc@).len() > old(self).the_wal().spec_fsize()),
            r == GyResult::<()>::Err(GyError::WalOverflow) ==> *final(self) == *old(self),
            r is Ok ==> doc_addable(*old(self), doc@) && old(self).the_wal().flushed().len()
                + crate::schema::enc_doc(doc@).len() <= old(self).the_wal().spec_fsize(),
            !doc_addable(*old(self), doc@) ==> r == GyResult::<()>::Err(GyError::Serialization)
                && *final(self) == *old(self),
            (r == GyResult::<()>::Err(GyError::Serialization) && doc_addable(*old(self), doc@)
                && crate::schema::enc_doc(doc@).len() <= usize::MAX ==> final(self).is_broken()
                && (final(self).the_pool().flat().len() + crate::cache::BYTE_BLOCK_SIZE
                > u32::MAX || exists|f: int, k: Seq<u8>|
                0 <= f < final(self).field_count() && ((#[trigger] final(self).spec_fields()[
                    f
                ].posting_of(k)).doc_num == usize::MAX || final(self).spec_fields()[
                    f
                ].posting_of(k).freq == u32::MAX))),
            match r {
                Ok(_) => {
                    &&& !final(self).is_broken()
                    &&& final(self).doc_count() == old(self).doc_count() + 1
                    &&& final(self).spec_docs() == old(self).spec_docs().push(doc@)
                    &&& final(self).field_count() == old(self).field_count()
                    &&& forall|f: int|
                        0 <= f < old(self).field_count() ==> #[trigger] final(self).field_hist(f)
                            == hist_after_doc(
                            old(self).field_hist(f),
                            doc@,
                            f,
                            old(self).doc_count() as DocID,
                        )
                    &&& forall|f: int, k: Seq<u8>|
                        0 <= f < old(self).field_count() && (#[trigger] final(self).field_hist(
                            f,
                        ).dom().contains(k)) ==> final(self).spec_fields()[f].posting_of(k).freq
                            == 0
                },
                Err(e) => {
                    &&& (e == GyError::WalOverflow || e == GyError::Serialization)
                    &&& (final(self).is_broken() || *final(self) == *old(self))
                },
            },
    {
        let ghost self0 = *old(self);
        let d = self.doc_id;
        if d >= 0x7FFF_FFFF_FFFF_FFFFu64 {
            return Err(GyError::Serialization);
        }
        // every field value must name a known field and yield a non-empty
        // term, or nothing is changed
        let nv = doc.field_values.len();
        let mut v: usize = 0;
        while v < nv
            invariant
                self0 == *old(self),
                self0.wf(),
                !self0.is_broken(),
                *self == self0,
                nv == doc.field_values@.len(),
                v <= nv,
                forall|i: int|
                    0 <= i < v ==> (#[trigger] doc@[i]).0 < self0.spec_fields().len()
                        && term_bytes_of(doc@[i].1).len() > 0,
            decreases nv - v,
        {
            let fv = &doc.field_values[v];
            proof {
                assert(doc@[v as int] == (fv.field_id.0, fv.value@));
            }
            if fv.field_id.0 as usize >= self.fields.len() {
                proof {
                    assert(!doc_addable(self0, doc@));
                }
                return Err(GyError::Serialization);
            }
            let tb = match fv.value.to_vec() {
                Ok(b) => b,
                Err(_) => {
                    proof {
                        assert(false);
                    }
                    return Err(GyError::Serialization);
                },
            };
            if tb.len() == 0 {
                proof {
                    assert(term_bytes_of(doc@[v as int].1).len() == 0);
                    assert(!doc_addable(self0, doc@));
                }
                return Err(GyError::Serialization);
            }
            v += 1;
        }
        let doc_offset = match self.write_doc_to_wal(doc) {
            Ok(off) => off,
            Err(e) => {
                return Err(e);
            },
        };
        self.doc_offset.push(doc_offset);
        let ghost selfw = *self;
        let mut i: usize = 0;
        proof {
            assert forall|f: int| 0 <= f < self.fields@.len() implies #[trigger] self.fields@[
                f
            ].hist() == hist_after_doc(self0.field_hist(f), doc@.take(0), f, d) by {
                assert(doc@.take(0) =~= Seq::<(u32, crate::schema::ValView)>::empty());
            };
        }
        while i < nv
            invariant
                self0 == *old(self),
                self0.wf(),
                !self0.is_broken(),
                doc_addable(self0, doc@),
                self0.the_wal().flushed().len() + crate::schema::enc_doc(doc@).len()
                    <= self0.the_wal().spec_fsize(),
                selfw.spec_fields() == self0.spec_fields(),
                nv == doc.field_values@.len(),
                nv == doc@.len(),
                i <= nv,
                d < 0x8000_0000_0000_0000,
                forall|q: int|
                    0 <= q < nv ==> (#[trigger] doc@[q]).0 < self0.spec_fields().len()
                        && term_bytes_of(doc@[q].1).len() > 0,
                self.pool.wf(),
                !self.broken,
                self.doc_id == self0.doc_count(),
                self.fields@.len() == self0.spec_fields().len(),
                self.schema == self0.schema,
                self.wal == selfw.the_wal(),
                self.doc_offset@ == selfw.spec_doc_offset(),
                self.docs@ == self0.spec_docs(),
                self.config == *self0.spec_config(),
                forall|f: int|
                    0 <= f < self.fields@.len() ==> (#[trigger] self.fields@[f]).wf(&self.pool)
                        && !self.fields@[f].is_broken() && self.fields@[f].spec_fence() <= d
                        && self.fields@[f].spec_max_doc() <= d,
                forall|f1: int, f2: int, h: int|
                    0 <= f1 < self.fields@.len() && 0 <= f2 < self.fields@.len() && f1 != f2
                        ==> !((#[trigger] self.fields@[f1].owns_stream(h)) && (
                    #[trigger] self.fields@[f2].owns_stream(h))),
                forall|f: int|
                    0 <= f < self.fields@.len() ==> #[trigger] self.fields@[f].hist()
                        == hist_after_doc(self0.field_hist(f), doc@.take(i as int), f, d),
            decreases nv - i,
        {
            let fv = &doc.field_values[i];
            proof {
                assert(doc@[i as int] == (fv.field_id.0, fv.value@));
            }
            let fid = fv.field_id.0 as usize;
            let ghost poolb = self.pool;
            let ghost fieldsb = self.fields@;
            let mut cache = self.fields.remove(fid);
            let ghost cache0 = cache;
            let res = cache.add(&mut self.pool, d, &fv.value);
            let ghost cachef = cache;
            self.fields.insert(fid, cache);
            match res {
                Ok(_) => {},
                Err(_) => {
                    self.broken = true;
                    proof {
                        let t = term_bytes_of(fv.value@);
                        assert(self.fields@ =~= fieldsb.update(fid as int, cachef));
                        assert(self.spec_fields()[fid as int] == cachef);
                        if !(self.pool.flat().len() + crate::cache::BYTE_BLOCK_SIZE
                            > u32::MAX) {
                            assert((fid as int) < self.field_count());
                            assert((self.spec_fields()[fid as int].posting_of(t)).doc_num
                                == usize::MAX || self.spec_fields()[fid as int].posting_of(
                                t,
                            ).freq == u32::MAX);
                        }
                    }
                    return Err(GyError::Serialization);
                },
            }
            proof {
                assert(cache0 == fieldsb[fid as int]);
                assert(self.fields@ =~= fieldsb.update(fid as int, cachef));
                assert(self.fields@[fid as int] == cachef);
                assert(doc@.take(i + 1) =~= doc@.take(i as int).push(doc@[i as int]));
                assert(doc@[i as int] == (fv.field_id.0, fv.value@));
                assert forall|f: int| 0 <= f < self.fields@.len() implies #[trigger] self
                    .fields@[f].hist() == hist_after_doc(
                    self0.field_hist(f),
                    doc@.take(i + 1),
                    f,
                    d,
                ) by {
                    assert(doc@.take(i + 1).drop_last() =~= doc@.take(i as int));
                    assert(doc@.take(i + 1).last() == doc@[i as int]);
                    if f != fid {
                        assert(self.fields@[f] == fieldsb[f]);
                    } else {
                        let hb = hist_after_doc(self0.field_hist(f), doc@.take(i as int), f, d);
                        assert(cache0.hist() == hb);
                        assert(cachef.hist() == hb.insert(
                            term_bytes_of(fv.value@),
                            (if hb.dom().contains(term_bytes_of(fv.value@)) {
                                hb[term_bytes_of(fv.value@)]
                            } else {
                                Seq::empty()
                            }).push(d),
                        ));
                    }
                };
                assert forall|f1: int, f2: int, h: int|
                    0 <= f1 < self.fields@.len() && 0 <= f2 < self.fields@.len() && f1 != f2
                        implies !((#[trigger] self.fields@[f1].owns_stream(h)) && (
                #[trigger] self.fields@[f2].owns_stream(h))) by {
                    if f1 == fid || f2 == fid {
                        let other = if f1 == fid {
                            f2
                        } else {
                            f1
                        };
                        if self.fields@[other].owns_stream(h) {
                            assert(self.fields@[other] == fieldsb[other]);
                            lemma_owns_bound(&fieldsb[other], &poolb);
                            assert(0 <= h < poolb.stream_count());
                            if self.fields@[fid as int].owns_stream(h) {
                                assert(cachef.owns_stream(h));
                                assert(cache0.owns_stream(h));
                                assert(fieldsb[fid as int].owns_stream(h));
                            }
                        }
                    }
                };
                assert forall|f: int| 0 <= f < self.fields@.len() implies (
                #[trigger] self.fields@[f]).wf(&self.pool) by {
                    if f != fid {
                        assert(self.fields@[f] == fieldsb[f]);
                        assert(fieldsb[f].wf(&poolb));
                        lemma_owns_bound(&fieldsb[f], &poolb);
                        assert forall|h: int|
                            0 <= h < poolb.stream_count() && fieldsb[f].owns_stream(h)
                                implies #[trigger] self.pool.stream_at(h) == poolb.stream_at(h)
                                && self.pool.stream_bytes(h) == poolb.stream_bytes(h) by {
                            assert(!fieldsb[fid as int].owns_stream(h));
                        };
                        fieldsb[f].lemma_wf_frame(&poolb, &self.pool);
                    }
                };
            }
            i += 1;
        }
        // commit every field, so readers see the document
        let nf = self.fields.len();
        let mut f: usize = 0;
        let ghost selfc = *self;
        while f < nf
            invariant
                self0 == *old(self),
                self0.wf(),
                doc_addable(self0, doc@),
                self0.the_wal().flushed().len() + crate::schema::enc_doc(doc@).len()
                    <= self0.the_wal().spec_fsize(),
                nf == self.fields@.len(),
                f <= nf,
                d < 0x8000_0000_0000_0000,
                self.pool.wf(),
                !self.broken,
                self.doc_id == selfc.doc_id,
                self.fields@.len() == selfc.fields@.len(),
                self.schema == selfc.schema,
                self.wal == selfc.wal,
                self.doc_offset@ == selfc.doc_offset@,
                self.docs@ == selfc.docs@,
                self.config == selfc.config,
                forall|q: int|
                    0 <= q < nf ==> (#[trigger] self.fields@[q]).wf(&self.pool) && !self.fields@[
                        q
                    ].is_broken() && self.fields@[q].hist() == selfc.fields@[q].hist(),
                forall|q: int|
                    0 <= q < f ==> (#[trigger] self.fields@[q]).spec_fence() <= d + 1 && self
                        .fields@[q].spec_max_doc() <= d,
                forall|q: int, k: Seq<u8>|
                    0 <= q < f && (#[trigger] self.fields@[q].hist().dom().contains(k)) ==> self
                        .fields@[q].posting_of(k).freq == 0,
                forall|q: int|
                    f <= q < nf ==> (#[trigger] self.fields@[q]).spec_fence() <= d && self
                        .fields@[q].spec_max_doc() <= d,
                forall|f1: int, f2: int, h: int|
                    0 <= f1 < nf && 0 <= f2 < nf && f1 != f2 ==> !((#[trigger] self.fields@[
                        f1
                    ].owns_stream(h)) && (#[trigger] self.fields@[f2].owns_stream(h))),
            decreases nf - f,
        {
            let ghost poolb = self.pool;
            let ghost fieldsb = self.fields@;
            let mut cache = self.fields.remove(f);
            let ghost cache0 = cache;
            let res = cache.commit(&mut self.pool);
            let ghost cachef = cache;
            self.fields.insert(f, cache);
            match res {
                Ok(_) => {},
                Err(_) => {
                    self.broken = true;
                    return Err(GyError::Serialization);
                },
            }
            proof {
                assert(cache0 == fieldsb[f as int]);
                assert(self.fields@ =~= fieldsb.update(f as int, cachef));
                assert(self.fields@[f as int] == cachef);
                assert(forall|h: int| cachef.owns_stream(h) == cache0.owns_stream(h));
                assert forall|q: int| 0 <= q < nf implies (#[trigger] self.fields@[q]).wf(
                    &self.pool,
                ) by {
                    if q != f {
                        assert(self.fields@[q] == fieldsb[q]);
                        assert(fieldsb[q].wf(&poolb));
                        lemma_owns_bound(&fieldsb[q], &poolb);
                        assert forall|h: int|
                            0 <= h < poolb.stream_count() && fieldsb[q].owns_stream(h)
                                implies #[trigger] self.pool.stream_at(h) == poolb.stream_at(h)
                                && self.pool.stream_bytes(h) == poolb.stream_bytes(h) by {
                            assert(!fieldsb[f as int].owns_stream(h));
                        };
                        fieldsb[q].lemma_wf_frame(&poolb, &self.pool);
                    }
                };
                assert forall|f1: int, f2: int, h: int|
                    0 <= f1 < nf && 0 <= f2 < nf && f1 != f2 implies !((
                #[trigger] self.fields@[f1].owns_stream(h)) && (#[trigger] self.fields@[
                    f2
                ].owns_stream(h))) by {
                    if f1 == f as int {
                        if self.fields@[f1].owns_stream(h) {
                            assert(cachef.owns_stream(h));
                            assert(cache0.owns_stream(h));
                            assert(fieldsb[f1].owns_stream(h));
                        }
                    } else if f2 == f as int {
                        if self.fields@[f2].owns_stream(h) {
                            assert(cachef.owns_stream(h));
                            assert(cache0.owns_stream(h));
                            assert(fieldsb[f2].owns_stream(h));
                        }
                    }
                };
            }
            f += 1;
        }
        self.doc_id = d + 1;
        proof {
            self.docs@ = self.docs@.push(doc@);
            assert(doc@.take(nv as int) =~= doc@);
            assert forall|dd: int| 0 <= dd < self.doc_id implies (
            #[trigger] self.doc_offset@[dd]) + crate::schema::enc_doc(self.docs@[dd]).len()
                <= self.wal.flushed().len() && self.wal.flushed().subrange(
                self.doc_offset@[dd] as int,
                self.doc_offset@[dd] + crate::schema::enc_doc(self.docs@[dd]).len(),
            ) == crate::schema::enc_doc(self.docs@[dd]) by {
                if dd < self.doc_id - 1 {
                    assert(self.docs@[dd] == self0.spec_docs()[dd]);
                    assert(self.doc_offset@[dd] == self0.spec_doc_offset()[dd]);
                }
            };
        }
        Ok(())
    }

    /// Whether a mid-write failure has shut the index down.
    pub fn broken(&self) -> (r: bool)
        ensures
            r == self.is_broken(),
    {
        self.broken
    }

    /// Adds a document handed over in its wire form: decodes it, then
    /// takes it as `add` does.
    pub fn add_with_raw(&mut self, content: &[u8]) -> (r: GyResult<()>)
        requires
            old(self).wf(),
            !old(self).is_broken(),
        ensures
            final(self).wf(),
            crate::schema::dec_doc(content@) is None ==> r is Err && *final(self) == *old(self),
            r == GyResult::<()>::Err(GyError::WalOverflow) ==> *final(self) == *old(self),
            (r == GyResult::<()>::Err(GyError::Serialization) && (crate::schema::dec_doc(
                content@,
            ) matches Some(pr2)) && doc_addable(
                *old(self),
                crate::schema::dec_doc(content@).unwrap().0,
            ) && crate::schema::enc_doc(crate::schema::dec_doc(content@).unwrap().0).len()
                <= usize::MAX ==> final(self).is_broken() && (final(self).the_pool().flat().len()
                + crate::cache::BYTE_BLOCK_SIZE > u32::MAX || exists|f: int, k: Seq<u8>|
                0 <= f < final(self).field_count() && ((#[trigger] final(self).spec_fields()[
                    f
                ].posting_of(k)).doc_num == usize::MAX || final(self).spec_fields()[
                    f
                ].posting_of(k).freq == u32::MAX))),
            match r {
                Ok(_) => {
                    &&& crate::schema::dec_doc(content@) matches Some(pr)
                    &&& ({
                        let dv = crate::schema::dec_doc(content@).unwrap().0;
                        &&& !final(self).is_broken()
                        &&& final(self).doc_count() == old(self).doc_count() + 1
                        &&& final(self).spec_docs() == old(self).spec_docs().push(dv)
                        &&& final(self).field_count() == old(self).field_count()
                        &&& forall|f: int|
                            0 <= f < old(self).field_count() ==> #[trigger] final(self).field_hist(f) == hist_after_doc(
                                old(self).field_hist(f),
                                dv,
                                f,
                                old(self).doc_count() as DocID,
                            )
                    })
                },
                Err(e) => {
                    &&& (e == GyError::WalOverflow || e == GyError::Serialization || e
                        == GyError::UnexpectedEof || e == GyError::InvalidValueType)
                    &&& (final(self).is_broken() || *final(self) == *old(self))
                },
            },
    {
        proof {
            assert(content@.subrange(0, content@.len() as int) =~= content@);
        }
        let (doc, _end) = match crate::schema::Document::binary_deserialize(content, 0) {
            Ok(x) => x,
            Err(e) => {
                return Err(e);
            },
        };
        self.add(&doc)
    }

    /// Flushes every field's pending records.
    pub fn commit(&mut self) -> (r: GyResult<()>)
        requires
            old(self).wf(),
            !old(self).is_broken(),
        ensures
            final(self).wf(),
            r is Err ==> final(self).is_broken() && final(self).the_pool().flat().len()
                + crate::cache::BYTE_BLOCK_SIZE > u32::MAX,
            match r {
                Ok(_) => !final(self).is_broken() && final(self).doc_count() == old(self).doc_count() && final(self).spec_docs() == old(self).spec_docs() && (forall|f: int|
                    0 <= f < old(self).field_count() ==> #[trigger] final(self).field_hist(f)
                        == old(self).field_hist(f)) && (forall|f: int, k: Seq<u8>|
                    0 <= f < old(self).field_count() && (#[trigger] final(self).field_hist(
                        f,
                    ).dom().contains(k)) ==> final(self).spec_fields()[f].posting_of(k).freq
                        == 0),
                Err(e) => e == GyError::Serialization,
            },
    {
        let ghost selfc = *old(self);
        let nf = self.fields.len();
        let mut f: usize = 0;
        while f < nf
            invariant
                selfc == *old(self),
                nf == self.fields@.len(),
                f <= nf,
                selfc.wf(),
                !selfc.is_broken(),
                self.pool.wf(),
                !self.broken,
                self.doc_id == selfc.doc_id,
                self.fields@.len() == selfc.fields@.len(),
                self.schema == selfc.schema,
                self.wal == selfc.wal,
                self.doc_offset@ == selfc.doc_offset@,
                self.docs@ == selfc.docs@,
                self.config == selfc.config,
                forall|q: int|
                    0 <= q < nf ==> (#[trigger] self.fields@[q]).wf(&self.pool) && !self.fields@[
                        q
                    ].is_broken() && self.fields@[q].hist() == selfc.fields@[q].hist() && self
                        .fields@[q].spec_fence() <= self.doc_id && self.fields@[
                        q
                    ].spec_max_doc() == selfc.fields@[q].spec_max_doc(),
                forall|q: int, k: Seq<u8>|
                    0 <= q < f && (#[trigger] self.fields@[q].hist().dom().contains(k)) ==> self
                        .fields@[q].posting_of(k).freq == 0,
                forall|q: int|
                    f <= q < nf ==> #[trigger] self.fields@[q] == selfc.fields@[q],
                forall|f1: int, f2: int, h: int|
                    0 <= f1 < nf && 0 <= f2 < nf && f1 != f2 ==> !((#[trigger] self.fields@[
                        f1
                    ].owns_stream(h)) && (#[trigger] self.fields@[f2].owns_stream(h))),
            decreases nf - f,
        {
            let ghost poolb = self.pool;
            let ghost fieldsb = self.fields@;
            let mut cache = self.fields.remove(f);
            let ghost cache0 = cache;
            let res = cache.commit(&mut self.pool);
            let ghost cachef = cache;
            self.fields.insert(f, cache);
            match res {
                Ok(_) => {},
                Err(_) => {
                    self.broken = true;
                    return Err(GyError::Serialization);
                },
            }
            proof {
                assert(cache0 == fieldsb[f as int]);
                assert(self.fields@ =~= fieldsb.update(f as int, cachef));
                assert(self.fields@[f as int] == cachef);
                assert(forall|h: int| cachef.owns_stream(h) == cache0.owns_stream(h));
                assert(cachef.spec_fence() <= self.doc_id) by {
                    if cachef.spec_fence() != cache0.spec_fence() {
                        let k = choose|k: Seq<u8>| cache0.hist().dom().contains(k);
                        assert(selfc.fields@[f as int].hist().dom().contains(k));
                        assert(cache0.spec_max_doc() < selfc.doc_count());
                    }
                };
                assert forall|q: int| 0 <= q < nf implies (#[trigger] self.fields@[q]).wf(
                    &self.pool,
                ) by {
                    if q != f {
                        assert(self.fields@[q] == fieldsb[q]);
                        assert(fieldsb[q].wf(&poolb));
                        lemma_owns_bound(&fieldsb[q], &poolb);
                        assert forall|h: int|
                            0 <= h < poolb.stream_count() && fieldsb[q].owns_stream(h)
                                implies #[trigger] self.pool.stream_at(h) == poolb.stream_at(h)
                                && self.pool.stream_bytes(h) == poolb.stream_bytes(h) by {
                            assert(!fieldsb[f as int].owns_stream(h));
                        };
                        fieldsb[q].lemma_wf_frame(&poolb, &self.pool);
                    }
                };
                assert forall|f1: int, f2: int, h: int|
                    0 <= f1 < nf && 0 <= f2 < nf && f1 != f2 implies !((
                #[trigger] self.fields@[f1].owns_stream(h)) && (#[trigger] self.fields@[
                    f2
                ].owns_stream(h))) by {
                    if f1 == f as int {
                        if self.fields@[f1].owns_stream(h) {
                            assert(cachef.owns_stream(h));
                            assert(cache0.owns_stream(h));
                            assert(fieldsb[f1].owns_stream(h));
                        }
                    } else if f2 == f as int {
                        if self.fields@[f2].owns_stream(h) {
                            assert(cachef.owns_stream(h));
                            assert(cache0.owns_stream(h));
                            assert(fieldsb[f2].owns_stream(h));
                        }
                    }
                };
            }
            f += 1;
        }
        proof {
            assert forall|dd: int| 0 <= dd < self.doc_id implies (
            #[trigger] self.doc_offset@[dd]) + crate::schema::enc_doc(self.docs@[dd]).len()
                <= self.wal.flushed().len() by {};
        }
        Ok(())
    }

    /// The log offset of document `doc_id`; `DocumentNotFound` at or past
    /// the document count.
    pub fn doc_offset(&self, doc_id: DocID) -> (r: GyResult<usize>)
        requires
            self.wf(),
            !self.is_broken(),
        ensures
            match r {
                Ok(off) => doc_id < self.doc_count() && off == self.spec_doc_offset()[
                    doc_id as int
                ],
                Err(e) => e == GyError::DocumentNotFound && doc_id >= self.doc_count(),
            },
    {
        if doc_id >= self.doc_offset.len() as u64 {
            return Err(GyError::DocumentNotFound);
        }
        Ok(self.doc_offset[doc_id as usize])
    }

    /// A reader over one field's terms.
    pub fn field_reader(&self, field_id: u32) -> (r: GyResult<FieldReader<'_>>)
        requires
            self.wf(),
            !self.is_broken(),
        ensures
            match r {
                Ok(fr) => {
                    &&& field_id < self.field_count()
                    &&& fr.cache == &self.spec_fields()[field_id as int]
                    &&& fr.pool == self.the_pool()
                },
                Err(e) => e == GyError::TermNotFound && field_id >= self.field_count(),
            },
    {
        if field_id as usize >= self.fields.len() {
            return Err(GyError::TermNotFound);
        }
        Ok(FieldReader::new(&self.fields[field_id as usize], &self.pool))
    }

    /// Looks a term up in its field and snapshots its posting: the records
    /// handed out are the committed ones, which for a committed field are
    /// exactly the grouped history of the term.
    pub fn search(&self, term: &Term) -> (r: GyResult<PostingReader>)
        requires
            self.wf(),
            !self.is_broken(),
            term.bytes@.len() > 0,
        ensures
            match r {
                Ok(pr) => {
                    &&& term.field_id.0 < self.field_count()
                    &&& pr.wf()
                    &&& self.field_hist(term.field_id.0 as int).dom().contains(term.bytes@)
                    &&& pr.spec_records() == self.spec_fields()[term.field_id.0 as int].posting_of(
                        term.bytes@,
                    ).records@
                    &&& (self.spec_fields()[term.field_id.0 as int].posting_of(term.bytes@).freq
                        == 0 ==> recs_int(pr.spec_records()) == agg(
                        self.field_hist(term.field_id.0 as int)[term.bytes@],
                    ))
                },
                Err(e) => e == GyError::TermNotFound,
            },
    {
        let fr = match self.field_reader(term.field_id.0) {
            Ok(fr) => fr,
            Err(e) => {
                return Err(e);
            },
        };
        fr.get(term.bytes_value())
    }

    /// Reads document `doc_id` back from the log.
    pub fn doc(&self, doc_id: DocID) -> (r: GyResult<Document>)
        requires
            self.wf(),
            !self.is_broken(),
        ensures
            match r {
                Ok(dd) => doc_id < self.doc_count() && dd@ == self.spec_docs()[doc_id as int],
                Err(e) => e == GyError::DocumentNotFound && doc_id >= self.doc_count(),
            },
    {
        let off = match self.doc_offset(doc_id) {
            Ok(o) => o,
            Err(e) => {
                return Err(e);
            },
        };
        proof {
            self.wal.lemma_wal_len();
            crate::schema::lemma_dec_doc_enc_doc(
                self.spec_docs()[doc_id as int],
                self.wal.flushed().skip(
                    off + crate::schema::enc_doc(self.spec_docs()[doc_id as int]).len(),
                ),
            );
            assert(self.wal.flushed().skip(off as int) =~= crate::schema::enc_doc(
                self.spec_docs()[doc_id as int],
            ) + self.wal.flushed().skip(
                off + crate::schema::enc_doc(self.spec_docs()[doc_id as int]).len(),
            ));
        }
        let wr = crate::wal::WalReader::from(&self.wal, off);
        match wr.read_doc() {
            Ok(dd) => Ok(dd),
            Err(_) => {
                proof {
                    assert(false);
                }
                Err(GyError::DocumentNotFound)
            },
        }
    }
}

impl FieldCache {
    /// A cache's invariant survives pool changes that leave its streams
    /// alone.
    pub proof fn lemma_wf_frame(&self, p1: &ByteBlockPool, p2: &ByteBlockPool)
        requires
            self.wf(p1),
            p2.stream_count() >= p1.stream_count(),
            forall|h: int|
                0 <= h < p1.stream_count() && self.owns_stream(h) ==> #[trigger] p2.stream_at(h)
                    == p1.stream_at(h) && p2.stream_bytes(h) == p1.stream_bytes(h),
        ensures
            self.wf(p2),
    {
        if !self.broken {
            assert forall|k: Seq<u8>| #[trigger] self.indexs@.dom().contains(k) implies posting_inv(
                self.posting_of(k),
                p2,
                self.history@[k],
            ) by {
                assert(posting_inv(self.posting_of(k), p1, self.history@[k]));
                assert(self.owns_stream(self.posting_of(k).stream as int));
            };
        }
    }
}

/// The index, owning its base state. Writers borrow it mutably; readers
/// borrow it shared, which is what serialises the write path.
pub struct Index {
    base: IndexBase,
}

impl Index {
    pub fn new(schema: crate::schema::Schema, config: IndexConfig) -> (r: GyResult<Index>)
        ensures
            match r {
                Ok(ix) => ix.base_ref().wf() && !ix.base_ref().is_broken() && ix.base_ref()
                    .doc_count() == 0,
                Err(_) => false,
            },
    {
        match IndexBase::new(schema, config) {
            Ok(base) => Ok(Index { base }),
            Err(e) => Err(e),
        }
    }

    pub closed spec fn base_ref(&self) -> &IndexBase {
        &self.base
    }

    pub fn reader(&self) -> (r: GyResult<IndexReader<'_>>)
        ensures
            match r {
                Ok(ir) => ir.reader == self.base_ref(),
                Err(_) => false,
            },
    {
        Ok(IndexReader { reader: &self.base })
    }

    pub fn writer(&mut self) -> (r: GyResult<IndexWriter<'_>>)
        ensures
            r is Ok,
    {
        Ok(IndexWriter { writer: &mut self.base })
    }

    /// Whether a mid-write failure has shut the index down.
    pub fn broken(&self) -> (r: bool)
        ensures
            r == self.base_ref().is_broken(),
    {
        self.base.broken()
    }
}

/// Adds documents to an index.
pub struct IndexWriter<'a> {
    pub writer: &'a mut IndexBase,
}

impl<'a> IndexWriter<'a> {
    pub fn add(&mut self, doc: &Document) -> (r: GyResult<()>)
        requires
            old(self).writer.wf(),
            !old(self).writer.is_broken(),
        ensures
            final(self).writer.wf(),
            (r == GyResult::<()>::Err(GyError::WalOverflow) <==> doc_addable(
                *old(self).writer,
                doc@,
            ) && crate::schema::enc_doc(doc@).len() <= usize::MAX && old(self).writer.the_wal().flushed().len() + crate::schema::enc_doc(doc@).len() > old(self).writer.the_wal().spec_fsize()),
            r == GyResult::<()>::Err(GyError::WalOverflow) ==> *final(self).writer == *old(self).writer,
            !doc_addable(*old(self).writer, doc@) ==> r == GyResult::<()>::Err(
                GyError::Serialization,
            ) && *final(self).writer == *old(self).writer,
            (r == GyResult::<()>::Err(GyError::Serialization) && doc_addable(
                *old(self).writer,
                doc@,
            ) && crate::schema::enc_doc(doc@).len() <= usize::MAX ==> final(self).writer.is_broken() && (final(self).writer.the_pool().flat().len()
                + crate::cache::BYTE_BLOCK_SIZE > u32::MAX || exists|f: int, k: Seq<u8>|
                0 <= f < final(self).writer.field_count() && ((#[trigger] final(self).writer.spec_fields()[f].posting_of(k)).doc_num == usize::MAX || final(self).writer.spec_fields()[f].posting_of(k).freq == u32::MAX))),
            match r {
                Ok(_) => {
                    &&& !final(self).writer.is_broken()
                    &&& final(self).writer.doc_count() == old(self).writer.doc_count() + 1
                    &&& final(self).writer.spec_docs() == old(self).writer.spec_docs().push(doc@)
                    &&& final(self).writer.field_count() == old(self).writer.field_count()
                    &&& forall|f: int|
                        0 <= f < old(self).writer.field_count() ==> #[trigger] final(self).writer.field_hist(f) == hist_after_doc(
                            old(self).writer.field_hist(f),
                            doc@,
                            f,
                            old(self).writer.doc_count() as DocID,
                        )
                },
                Err(e) => {
                    &&& (e == GyError::WalOverflow || e == GyError::Serialization)
                    &&& (final(self).writer.is_broken() || *final(self).writer == *old(self).writer)
                },
            },
    {
        self.writer.add(doc)
    }

    pub fn commit(&mut self) -> (r: GyResult<()>)
        requires
            old(self).writer.wf(),
            !old(self).writer.is_broken(),
        ensures
            final(self).writer.wf(),
            r is Err ==> final(self).writer.is_broken() && final(self).writer.the_pool().flat().len() + crate::cache::BYTE_BLOCK_SIZE > u32::MAX,
            match r {
                Ok(_) => {
                    &&& !final(self).writer.is_broken()
                    &&& final(self).writer.doc_count() == old(self).writer.doc_count()
                    &&& final(self).writer.spec_docs() == old(self).writer.spec_docs()
                    &&& forall|f: int|
                        0 <= f < old(self).writer.field_count() ==> #[trigger] final(self).writer.field_hist(f) == old(self).writer.field_hist(f)
                },
                Err(e) => e == GyError::Serialization,
            },
    {
        self.writer.commit()
    }
}

/// Reads documents and postings out of an index.
pub struct IndexReader<'a> {
    pub reader: &'a IndexBase,
}

/// Hands out one `FieldReader` per field, in field order.
pub struct IndexReaderIter<'a> {
    pub reader: &'a IndexBase,
    pub at: usize,
}

impl<'a> IndexReaderIter<'a> {
    /// The next field's reader, or `None` past the last field.
    pub fn next(&mut self) -> (r: Option<FieldReader<'a>>)
        requires
            old(self).reader.wf(),
            !old(self).reader.is_broken(),
        ensures
            final(self).reader == old(self).reader,
            match r {
                Some(fr) => {
                    &&& old(self).at < old(self).reader.field_count()
                    &&& fr.cache == &old(self).reader.spec_fields()[old(self).at as int]
                    &&& fr.pool == old(self).reader.the_pool()
                    &&& final(self).at == old(self).at + 1
                },
                None => {
                    &&& old(self).at >= old(self).reader.field_count()
                    &&& final(self).at == old(self).at
                },
            },
    {
        if self.at >= self.reader.field_count_exec() {
            return None;
        }
        let fr = FieldReader::new(self.reader.field_at(self.at), self.reader.pool_ref());
        self.at = self.at + 1;
        Some(fr)
    }
}

impl<'a> IndexReader<'a> {
    pub fn get_index_config(&self) -> (r: &IndexConfig)
        ensures
            r == self.reader.spec_config(),
    {
        self.reader.get_config()
    }

    /// Looks one term up: found exactly when the field has seen it, and
    /// the snapshot's records are the committed ones.
    pub fn search(&self, term: &Term) -> (r: GyResult<PostingReader>)
        requires
            self.reader.wf(),
            !self.reader.is_broken(),
            term.bytes@.len() > 0,
        ensures
            match r {
                Ok(pr) => {
                    &&& term.field_id.0 < self.reader.field_count()
                    &&& pr.wf()
                    &&& self.reader.field_hist(term.field_id.0 as int).dom().contains(term.bytes@)
                    &&& pr.spec_records() == self.reader.spec_fields()[
                        term.field_id.0 as int
                    ].posting_of(term.bytes@).records@
                    &&& (self.reader.spec_fields()[term.field_id.0 as int].posting_of(
                        term.bytes@,
                    ).freq == 0 ==> recs_int(pr.spec_records()) == agg(
                        self.reader.field_hist(term.field_id.0 as int)[term.bytes@],
                    ))
                },
                Err(e) => e == GyError::TermNotFound,
            },
    {
        self.reader.search(term)
    }

    /// Walks the fields in order, one reader per field.
    pub fn iter(&self) -> (r: IndexReaderIter<'a>)
        ensures
            r.reader == self.reader,
            r.at == 0,
    {
        IndexReaderIter { reader: self.reader, at: 0 }
    }

    /// Reads one document back from the log.
    pub fn doc(&self, doc_id: DocID) -> (r: GyResult<Document>)
        requires
            self.reader.wf(),
            !self.reader.is_broken(),
        ensures
            match r {
                Ok(d) => doc_id < self.reader.doc_count() && d@ == self.reader.spec_docs()[
                    doc_id as int
                ],
                Err(e) => e == GyError::DocumentNotFound && doc_id >= self.reader.doc_count(),
            },
    {
        self.reader.doc(doc_id)
    }

    pub fn offset(&self) -> (r: GyResult<usize>)
        ensures
            r matches Ok(o) && o == self.reader.the_wal().spec_offset(),
    {
        Ok(self.reader.wal_ref().offset())
    }
}

impl IndexBase {
    /// The log, for readers that resolve offsets into it.
    pub fn wal_ref(&self) -> (r: &crate::wal::Wal)
        ensures
            r == self.the_wal(),
    {
        &self.wal
    }

    /// The pool, for readers that walk posting chains.
    pub fn pool_ref(&self) -> (r: &ByteBlockPool)
        ensures
            r == self.the_pool(),
    {
        &self.pool
    }

    /// What the index invariant gives its readers: a sound log, pool, and
    /// field caches.
    pub proof fn lemma_wf_parts(&self)
        requires
            self.wf(),
            !self.is_broken(),
        ensures
            self.the_wal().wf(),
            self.the_pool().wf(),
            self.spec_fields().len() == self.field_count(),
            self.spec_doc_offset().len() == self.doc_count(),
            forall|f: int|
                0 <= f < self.field_count() ==> (#[trigger] self.spec_fields()[f]).wf(
                    self.the_pool(),
                ) && !self.spec_fields()[f].is_broken(),
    {
    }

    /// One field's cache.
    pub fn field_at(&self, f: usize) -> (r: &FieldCache)
        requires
            f < self.field_count(),
        ensures
            r == &self.spec_fields()[f as int],
    {
        &self.fields[f]
    }

    /// How many fields the index has.
    pub fn field_count_exec(&self) -> (r: usize)
        ensures
            r == self.field_count(),
    {
        self.fields.len()
    }

    /// A copy of the document offset table.
    pub fn doc_offsets_vec(&self) -> (r: Vec<usize>)
        ensures
            r@ == self.spec_doc_offset(),
    {
        vstd::slice::slice_to_vec(self.doc_offset.as_slice())
    }
}

/// Every value's payload fits its varint prefix: its encoding sits inside
/// the document's, whose length a machine holds.
proof fn lemma_enc_fvs_val_bound(s: Seq<(u32, crate::schema::ValView)>, i: int)
    requires
        0 <= i < s.len(),
        crate::schema::enc_fvs(s).len() <= usize::MAX,
    ensures
        crate::schema::wf_val(s[i].1),
    decreases s.len(),
{
    if i == 0 {
        assert(crate::schema::enc_fv(s[0]).len() <= crate::schema::enc_fvs(s).len());
        lemma_enc_val_len(s[0].1);
    } else {
        assert(crate::schema::enc_fvs(s.drop_first()).len() <= crate::schema::enc_fvs(s).len());
        lemma_enc_fvs_val_bound(s.drop_first(), i - 1);
        assert(s.drop_first()[i - 1] == s[i]);
    }
}

/// A value whose encoding has machine length is well formed.
proof fn lemma_enc_val_len(v: crate::schema::ValView)
    requires
        crate::schema::enc_val(v).len() <= usize::MAX,
    ensures
        crate::schema::wf_val(v),
{
}

} // verus!
