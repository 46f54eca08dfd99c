//! The on-disk segment: the write-ahead log's documents, followed by every
//! posting length-prefixed, a term dictionary per field, the document
//! offset table, the per-field block handles, and a fixed-size footer that
//! ends in a magic number.
use crate::fst::{bytes_lt, entries_lookup, fst_map, FstBuilder, FstReader};
use crate::index::{enc_records, FieldCache, IndexBase, IndexReader, Term};
use crate::schema::{be32, be32_val, DocFreq, DocID, Document};
use crate::varint::{read_vu64, vu64_dec, vu64_enc, write_vu64};
use crate::{GyError, GyResult};
use vstd::prelude::*;
use vstd::slice::{slice_subrange, slice_to_vec};

verus! {

/// Length of the segment footer.
pub const FOOTER_LEN: usize = 48;

/// The eight magic bytes that end a segment file.
pub open spec fn spec_magic() -> Seq<u8> {
    seq![0xD4u8, 0x56u8, 0x3Fu8, 0x35u8, 0xE0u8, 0xEFu8, 0x09u8, 0x7Au8]
}

/// The magic bytes as a value.
pub fn magic_bytes() -> (r: Vec<u8>)
    ensures
        r@ == spec_magic(),
{
    let mut v: Vec<u8> = Vec::new();
    v.push(0xD4u8);
    v.push(0x56u8);
    v.push(0x3Fu8);
    v.push(0x35u8);
    v.push(0xE0u8);
    v.push(0xEFu8);
    v.push(0x09u8);
    v.push(0x7Au8);
    proof {
        assert(v@ =~= spec_magic());
    }
    v
}

/// Locates a sub-range of the segment file.
#[derive(Debug, Clone, Copy, PartialEq, Eq, Structural)]
pub struct BlockHandle(pub usize, pub usize);

/// The wire form of a block handle: offset, then length, both varints.
pub open spec fn enc_bh(bh: BlockHandle) -> Seq<u8> {
    vu64_enc(bh.0 as u64) + vu64_enc(bh.1 as u64)
}

/// Decoding one block handle from the front of `b`.
pub open spec fn dec_bh(b: Seq<u8>) -> Option<(BlockHandle, int)> {
    match vu64_dec(b) {
        None => None,
        Some((off, k)) => {
            match vu64_dec(b.skip(k)) {
                None => None,
                Some((len, k2)) => {
                    if off <= usize::MAX && len <= usize::MAX {
                        Some((BlockHandle(off as usize, len as usize), k + k2))
                    } else {
                        None
                    }
                },
            }
        },
    }
}

/// A block handle's wire form decodes to the handle it came from.
pub proof fn lemma_bh_round_trip(bh: BlockHandle, rest: Seq<u8>)
    ensures
        dec_bh(enc_bh(bh) + rest) == Some((bh, enc_bh(bh).len() as int)),
{
    let b = enc_bh(bh) + rest;
    crate::varint::lemma_vu64_round_trip(bh.0 as u64, vu64_enc(bh.1 as u64) + rest);
    assert(b =~= vu64_enc(bh.0 as u64) + (vu64_enc(bh.1 as u64) + rest));
    let k = vu64_enc(bh.0 as u64).len() as int;
    crate::varint::lemma_vu64_round_trip(bh.1 as u64, rest);
    assert(b.skip(k) =~= vu64_enc(bh.1 as u64) + rest);
}

impl BlockHandle {
    pub fn start(&self) -> (r: usize)
        ensures
            r == self.0,
    {
        self.0
    }

    pub fn end(&self) -> (r: usize)
        requires
            self.0 + self.1 <= usize::MAX,
        ensures
            r == self.0 + self.1,
    {
        self.0 + self.1
    }

    pub fn serialize(&self, out: &mut Vec<u8>) -> (r: GyResult<()>)
        ensures
            r is Ok,
            final(out)@ == old(out)@ + enc_bh(*self),
    {
        write_vu64(out, self.0 as u64);
        write_vu64(out, self.1 as u64);
        proof {
            assert(final(out)@ =~= old(out)@ + enc_bh(*self));
        }
        Ok(())
    }

    pub fn deserialize(b: &[u8], pos: usize) -> (r: GyResult<(BlockHandle, usize)>)
        requires
            pos <= b@.len(),
        ensures
            match r {
                Ok((bh, end)) => {
                    &&& pos < end <= b@.len()
                    &&& dec_bh(b@.subrange(pos as int, b@.len() as int)) == Some(
                        (bh, end - pos as int),
                    )
                },
                Err(e) => {
                    &&& e == GyError::UnexpectedEof || e == GyError::Serialization
                    &&& dec_bh(b@.subrange(pos as int, b@.len() as int)) is None
                },
            },
    {
        let ghost tail = b@.subrange(pos as int, b@.len() as int);
        let (off, p1) = match read_vu64(b, pos) {
            Ok(x) => x,
            Err(e) => {
                return Err(e);
            },
        };
        proof {
            assert(tail.skip(p1 - pos) =~= b@.subrange(p1 as int, b@.len() as int));
        }
        let (len, p2) = match read_vu64(b, p1) {
            Ok(x) => x,
            Err(e) => {
                return Err(e);
            },
        };
        if off > usize::MAX as u64 || len > usize::MAX as u64 {
            return Err(GyError::Serialization);
        }
        Ok((BlockHandle(off as usize, len as usize), p2))
    }
}

/// A field's two block handles: its term dictionary and its filter.
#[derive(Debug, Clone, Copy, PartialEq, Eq, Structural)]
pub struct FieldHandle {
    pub fst_bh: BlockHandle,
    pub filter_bh: BlockHandle,
}

/// The wire form of a field handle.
pub open spec fn enc_fh(fh: FieldHandle) -> Seq<u8> {
    enc_bh(fh.fst_bh) + enc_bh(fh.filter_bh)
}

pub open spec fn dec_fh(b: Seq<u8>) -> Option<(FieldHandle, int)> {
    match dec_bh(b) {
        None => None,
        Some((fst_bh, k)) => {
            match dec_bh(b.skip(k)) {
                None => None,
                Some((filter_bh, k2)) => Some((FieldHandle { fst_bh, filter_bh }, k + k2)),
            }
        },
    }
}

/// A field handle's wire form decodes to the handle it came from.
pub proof fn lemma_fh_round_trip(fh: FieldHandle, rest: Seq<u8>)
    ensures
        dec_fh(enc_fh(fh) + rest) == Some((fh, enc_fh(fh).len() as int)),
{
    let b = enc_fh(fh) + rest;
    lemma_bh_round_trip(fh.fst_bh, enc_bh(fh.filter_bh) + rest);
    assert(b =~= enc_bh(fh.fst_bh) + (enc_bh(fh.filter_bh) + rest));
    let k = enc_bh(fh.fst_bh).len() as int;
    lemma_bh_round_trip(fh.filter_bh, rest);
    assert(b.skip(k) =~= enc_bh(fh.filter_bh) + rest);
}

impl FieldHandle {
    pub fn serialize(&self, out: &mut Vec<u8>) -> (r: GyResult<()>)
        ensures
            r is Ok,
            final(out)@ == old(out)@ + enc_fh(*self),
    {
        let _ = self.fst_bh.serialize(out);
        let _ = self.filter_bh.serialize(out);
        proof {
            assert(final(out)@ =~= old(out)@ + enc_fh(*self));
        }
        Ok(())
    }

    pub fn deserialize(b: &[u8], pos: usize) -> (r: GyResult<(FieldHandle, usize)>)
        requires
            pos <= b@.len(),
        ensures
            match r {
                Ok((fh, end)) => {
                    &&& pos < end <= b@.len()
                    &&& dec_fh(b@.subrange(pos as int, b@.len() as int)) == Some(
                        (fh, end - pos as int),
                    )
                },
                Err(e) => {
                    &&& e == GyError::UnexpectedEof || e == GyError::Serialization
                    &&& dec_fh(b@.subrange(pos as int, b@.len() as int)) is None
                },
            },
    {
        let ghost tail = b@.subrange(pos as int, b@.len() as int);
        let (fst_bh, p1) = match BlockHandle::deserialize(b, pos) {
            Ok(x) => x,
            Err(e) => {
                return Err(e);
            },
        };
        proof {
            assert(tail.skip(p1 - pos) =~= b@.subrange(p1 as int, b@.len() as int));
        }
        let (filter_bh, p2) = match BlockHandle::deserialize(b, p1) {
            Ok(x) => x,
            Err(e) => {
                return Err(e);
            },
        };
        Ok((FieldHandle { fst_bh, filter_bh }, p2))
    }
}

/// The wire form of the document offset table: a count, then one four-byte
/// big-endian offset per document.
pub open spec fn enc_offsets_body(s: Seq<usize>) -> Seq<u8>
    decreases s.len(),
{
    if s.len() == 0 {
        Seq::empty()
    } else {
        be32(s[0] as u32) + enc_offsets_body(s.drop_first())
    }
}

pub open spec fn enc_offsets(s: Seq<usize>) -> Seq<u8> {
    vu64_enc(s.len() as u64) + enc_offsets_body(s)
}

pub open spec fn dec_offsets_body(b: Seq<u8>, n: u64) -> Option<(Seq<usize>, int)>
    decreases n,
{
    if n == 0 {
        Some((Seq::empty(), 0))
    } else if b.len() < 4 {
        None
    } else {
        match dec_offsets_body(b.skip(4), (n - 1) as u64) {
            None => None,
            Some((s, m)) => Some((seq![be32_val(b) as usize] + s, 4 + m)),
        }
    }
}

pub open spec fn dec_offsets(b: Seq<u8>) -> Option<(Seq<usize>, int)> {
    match vu64_dec(b) {
        None => None,
        Some((n, k)) => {
            match dec_offsets_body(b.skip(k), n) {
                None => None,
                Some((s, m)) => Some((s, k + m)),
            }
        },
    }
}

pub proof fn lemma_offsets_body_round_trip(s: Seq<usize>, rest: Seq<u8>)
    requires
        forall|i: int| 0 <= i < s.len() ==> (#[trigger] s[i]) <= u32::MAX,
        s.len() <= u64::MAX,
    ensures
        dec_offsets_body(enc_offsets_body(s) + rest, s.len() as u64) == Some(
            (s, enc_offsets_body(s).len() as int),
        ),
    decreases s.len(),
{
    if s.len() > 0 {
        let b = enc_offsets_body(s) + rest;
        crate::schema::lemma_be32_prefix(s[0] as u32, enc_offsets_body(s.drop_first()) + rest);
        assert(b =~= be32(s[0] as u32) + (enc_offsets_body(s.drop_first()) + rest));
        assert(b.skip(4) =~= enc_offsets_body(s.drop_first()) + rest);
        lemma_offsets_body_round_trip(s.drop_first(), rest);
        assert(seq![be32_val(b) as usize] + s.drop_first() =~= s);
    }
}

pub proof fn lemma_offsets_round_trip(s: Seq<usize>, rest: Seq<u8>)
    requires
        forall|i: int| 0 <= i < s.len() ==> (#[trigger] s[i]) <= u32::MAX,
        s.len() <= u64::MAX,
    ensures
        dec_offsets(enc_offsets(s) + rest) == Some((s, enc_offsets(s).len() as int)),
{
    let b = enc_offsets(s) + rest;
    crate::varint::lemma_vu64_round_trip(s.len() as u64, enc_offsets_body(s) + rest);
    assert(b =~= vu64_enc(s.len() as u64) + (enc_offsets_body(s) + rest));
    let k = vu64_enc(s.len() as u64).len() as int;
    assert(b.skip(k) =~= enc_offsets_body(s) + rest);
    lemma_offsets_body_round_trip(s, rest);
}

/// The wire form of the per-field handle table: a count, then the handles.
pub open spec fn enc_fhs_body(s: Seq<FieldHandle>) -> Seq<u8>
    decreases s.len(),
{
    if s.len() == 0 {
        Seq::empty()
    } else {
        enc_fh(s[0]) + enc_fhs_body(s.drop_first())
    }
}

pub open spec fn enc_fhs(s: Seq<FieldHandle>) -> Seq<u8> {
    vu64_enc(s.len() as u64) + enc_fhs_body(s)
}

pub open spec fn dec_fhs_body(b: Seq<u8>, n: u64) -> Option<(Seq<FieldHandle>, int)>
    decreases n,
{
    if n == 0 {
        Some((Seq::empty(), 0))
    } else {
        match dec_fh(b) {
            None => None,
            Some((fh, k)) => {
                if k < 1 || k > b.len() {
                    None
                } else {
                    match dec_fhs_body(b.skip(k), (n - 1) as u64) {
                        None => None,
                        Some((s, m)) => Some((seq![fh] + s, k + m)),
                    }
                }
            },
        }
    }
}

pub open spec fn dec_fhs(b: Seq<u8>) -> Option<(Seq<FieldHandle>, int)> {
    match vu64_dec(b) {
        None => None,
        Some((n, k)) => {
            match dec_fhs_body(b.skip(k), n) {
                None => None,
                Some((s, m)) => Some((s, k + m)),
            }
        },
    }
}

pub proof fn lemma_fhs_body_round_trip(s: Seq<FieldHandle>, rest: Seq<u8>)
    requires
        s.len() <= u64::MAX,
    ensures
        dec_fhs_body(enc_fhs_body(s) + rest, s.len() as u64) == Some(
            (s, enc_fhs_body(s).len() as int),
        ),
    decreases s.len(),
{
    if s.len() > 0 {
        let b = enc_fhs_body(s) + rest;
        lemma_fh_round_trip(s[0], enc_fhs_body(s.drop_first()) + rest);
        assert(b =~= enc_fh(s[0]) + (enc_fhs_body(s.drop_first()) + rest));
        let k = enc_fh(s[0]).len() as int;
        assert(b.skip(k) =~= enc_fhs_body(s.drop_first()) + rest);
        lemma_fhs_body_round_trip(s.drop_first(), rest);
        assert(k >= 1) by {
            crate::varint::lemma_vu64_enc_len(s[0].fst_bh.0 as u64);
        };
        assert(seq![s[0]] + s.drop_first() =~= s);
    }
}

pub proof fn lemma_fhs_round_trip(s: Seq<FieldHandle>, rest: Seq<u8>)
    requires
        s.len() <= u64::MAX,
    ensures
        dec_fhs(enc_fhs(s) + rest) == Some((s, enc_fhs(s).len() as int)),
{
    let b = enc_fhs(s) + rest;
    crate::varint::lemma_vu64_round_trip(s.len() as u64, enc_fhs_body(s) + rest);
    assert(b =~= vu64_enc(s.len() as u64) + (enc_fhs_body(s) + rest));
    let k = vu64_enc(s.len() as u64).len() as int;
    assert(b.skip(k) =~= enc_fhs_body(s) + rest);
    lemma_fhs_body_round_trip(s, rest);
}

/// How one term byte is written into the dictionary: as its three base-8
/// digits, each shifted up by two, so every digit symbol lies in `2..=9`.
/// The symbol `1` is reserved: it closes every key (`esc_key`) and appears
/// nowhere else. Keys then have three properties the dictionary needs:
/// the decoder's zero byte never occurs; no key is a prefix of another,
/// and a walk consumes its single `1` only as its last step, so it can
/// never rest on an entry's final state with symbols left — the one walk
/// the sealed form answers wrongly, by reading an entry's siblings in
/// place as children; and with at most nine distinct symbols no trie node
/// reaches the child count at which the sealed form switches to the node
/// layout whose search does not return on some absent keys. The
/// terminator sorts below every digit, so prefix terms keep their order.
pub open spec fn esc_byte(b: u8) -> Seq<u8> {
    seq![((b >> 6) + 2) as u8, (((b >> 3) & 7) + 2) as u8, ((b & 7) + 2) as u8]
}

/// A term's escaped digits, before the closing terminator.
pub open spec fn esc(s: Seq<u8>) -> Seq<u8>
    decreases s.len(),
{
    if s.len() == 0 {
        Seq::empty()
    } else {
        esc_byte(s[0]) + esc(s.drop_first())
    }
}

/// A term's dictionary key: every byte escaped, then the terminator.
pub open spec fn esc_key(s: Seq<u8>) -> Seq<u8> {
    esc(s).push(1u8)
}

/// Escapes a term into its dictionary key.
pub fn escape_term(key: &[u8]) -> (r: Vec<u8>)
    ensures
        r@ == esc_key(key@),
        r@.len() == 3 * key@.len() + 1,
        crate::fst::fst_keylike(r@),
{
    let mut out: Vec<u8> = Vec::new();
    let mut k: usize = 0;
    while k < key.len()
        invariant
            k <= key@.len(),
            out@ == esc(key@.take(k as int)),
            out@.len() == 3 * k,
            forall|i: int| 0 <= i < out@.len() ==> 2 <= (#[trigger] out@[i]) <= 9,
        decreases key@.len() - k,
    {
        let b = key[k];
        proof {
            assert(b >> 6 <= 3 && (b >> 3) & 7 <= 7 && b & 7 <= 7) by (bit_vector);
        }
        out.push((b >> 6) + 2);
        out.push(((b >> 3) & 7) + 2);
        out.push((b & 7) + 2);
        proof {
            lemma_esc_push(key@.take(k as int), b);
            assert(key@.take(k + 1) =~= key@.take(k as int).push(b));
            assert(out@ =~= esc(key@.take(k as int)) + esc_byte(b));
        }
        k += 1;
    }
    out.push(1u8);
    proof {
        assert(key@.take(key@.len() as int) =~= key@);
        assert(out@ == esc_key(key@));
    }
    out
}

/// Escaping one more byte appends its escape.
proof fn lemma_esc_push(s: Seq<u8>, b: u8)
    ensures
        esc(s.push(b)) == esc(s) + esc_byte(b),
    decreases s.len(),
{
    let ext = s.push(b);
    assert(esc(ext) == esc_byte(ext[0]) + esc(ext.drop_first()));
    if s.len() == 0 {
        assert(ext[0] == b);
        assert(ext.drop_first() =~= Seq::<u8>::empty());
        assert(esc(ext) =~= esc(s) + esc_byte(b));
    } else {
        assert(ext.drop_first() =~= s.drop_first().push(b));
        lemma_esc_push(s.drop_first(), b);
        assert(ext[0] == s[0]);
        assert(esc(s) == esc_byte(s[0]) + esc(s.drop_first()));
        assert(esc(ext) =~= esc(s) + esc_byte(b));
    }
}

/// Every term's escaped digits lie in `2..=9`, and its key length is
/// fixed by its length.
pub proof fn lemma_esc_shape(s: Seq<u8>)
    ensures
        esc(s).len() == 3 * s.len(),
        forall|i: int| 0 <= i < esc(s).len() ==> 2 <= (#[trigger] esc(s)[i]) <= 9,
        crate::fst::fst_keylike(esc_key(s)),
    decreases s.len(),
{
    if s.len() > 0 {
        let b = s[0];
        assert(b >> 6 <= 3 && (b >> 3) & 7 <= 7 && b & 7 <= 7) by (bit_vector);
        lemma_esc_shape(s.drop_first());
        assert(esc(s) == esc_byte(b) + esc(s.drop_first()));
        assert forall|i: int| 0 <= i < esc(s).len() implies 2 <= (#[trigger] esc(s)[i]) <= 9 by {
            if i >= 3 {
                assert(esc(s)[i] == esc(s.drop_first())[i - 3]);
            }
        };
    }
    assert(esc_key(s).last() == 1u8);
    assert(forall|i: int| 0 <= i < esc_key(s).len() - 1 ==> esc_key(s)[i] == esc(s)[i]);
}

/// Escaping keeps the strict order of terms. The terminator sorts below
/// every digit, so a term still comes before its extensions.
pub proof fn lemma_esc_lt(a: Seq<u8>, b: Seq<u8>)
    requires
        bytes_lt(a, b),
    ensures
        bytes_lt(esc_key(a), esc_key(b)),
    decreases a.len() + b.len(),
{
    if a.len() == 0 {
        assert(b.len() > 0);
        lemma_esc_shape(b);
        assert(esc_key(a) =~= seq![1u8]);
        assert(esc_key(b)[0] == esc(b)[0]);
        assert(esc_key(a)[0] < esc_key(b)[0]);
    } else {
        assert(b.len() > 0);
        assert(esc_key(a) =~= esc_byte(a[0]) + esc_key(a.drop_first()));
        assert(esc_key(b) =~= esc_byte(b[0]) + esc_key(b.drop_first()));
        if a[0] < b[0] {
            lemma_esc_head_lt(a[0], b[0], esc_key(a.drop_first()), esc_key(b.drop_first()));
        } else {
            assert(a[0] == b[0]);
            lemma_esc_lt(a.drop_first(), b.drop_first());
            lemma_esc_head_eq(a[0], esc_key(a.drop_first()), esc_key(b.drop_first()));
        }
    }
}

/// When the head bytes differ, the escaped strings compare like them: the
/// base-8 digits of the smaller byte come first at the first digit where
/// they part.
proof fn lemma_esc_head_lt(x: u8, y: u8, restx: Seq<u8>, resty: Seq<u8>)
    requires
        x < y,
    ensures
        bytes_lt(esc_byte(x) + restx, esc_byte(y) + resty),
{
    let ax = esc_byte(x) + restx;
    let by = esc_byte(y) + resty;
    assert(x >> 6 <= 3 && (x >> 3) & 7 <= 7 && x & 7 <= 7) by (bit_vector);
    assert(y >> 6 <= 3 && (y >> 3) & 7 <= 7 && y & 7 <= 7) by (bit_vector);
    assert((x >> 6 < y >> 6) || (x >> 6 == y >> 6 && (x >> 3) & 7 < (y >> 3) & 7) || (x >> 6 == y
        >> 6 && (x >> 3) & 7 == (y >> 3) & 7 && x & 7 < y & 7)) by (bit_vector)
        requires
            x < y,
    ;
    assert(ax[0] == ((x >> 6) + 2) as u8 && by[0] == ((y >> 6) + 2) as u8);
    if x >> 6 < y >> 6 {
        assert(ax[0] < by[0]);
        assert(bytes_lt(ax, by));
    } else {
        assert(ax[0] == by[0]);
        let ax1 = ax.drop_first();
        let by1 = by.drop_first();
        assert(ax1 =~= seq![(((x >> 3) & 7) + 2) as u8, ((x & 7) + 2) as u8] + restx);
        assert(by1 =~= seq![(((y >> 3) & 7) + 2) as u8, ((y & 7) + 2) as u8] + resty);
        if (x >> 3) & 7 < (y >> 3) & 7 {
            assert(ax1[0] < by1[0]);
            assert(bytes_lt(ax1, by1));
            assert(bytes_lt(ax, by));
        } else {
            assert(ax1[0] == by1[0]);
            let ax2 = ax1.drop_first();
            let by2 = by1.drop_first();
            assert(ax2 =~= seq![((x & 7) + 2) as u8] + restx);
            assert(by2 =~= seq![((y & 7) + 2) as u8] + resty);
            assert(ax2[0] < by2[0]);
            assert(bytes_lt(ax2, by2));
            assert(bytes_lt(ax1, by1));
            assert(bytes_lt(ax, by));
        }
    }
}

/// When the head bytes agree, comparison moves past the escape.
proof fn lemma_esc_head_eq(x: u8, restx: Seq<u8>, resty: Seq<u8>)
    requires
        bytes_lt(restx, resty),
    ensures
        bytes_lt(esc_byte(x) + restx, esc_byte(x) + resty),
{
    let ax = esc_byte(x) + restx;
    let by = esc_byte(x) + resty;
    assert(x >> 6 <= 3 && (x >> 3) & 7 <= 7 && x & 7 <= 7) by (bit_vector);
    assert(resty.len() > 0);
    assert(ax[0] == by[0]);
    let ax1 = ax.drop_first();
    let by1 = by.drop_first();
    assert(ax1 =~= seq![(((x >> 3) & 7) + 2) as u8, ((x & 7) + 2) as u8] + restx);
    assert(by1 =~= seq![(((x >> 3) & 7) + 2) as u8, ((x & 7) + 2) as u8] + resty);
    assert(ax1[0] == by1[0]);
    let ax2 = ax1.drop_first();
    let by2 = by1.drop_first();
    assert(ax2 =~= seq![((x & 7) + 2) as u8] + restx);
    assert(by2 =~= seq![((x & 7) + 2) as u8] + resty);
    assert(ax2[0] == by2[0]);
    assert(ax2.drop_first() =~= restx);
    assert(by2.drop_first() =~= resty);
    assert(bytes_lt(ax2, by2));
    assert(bytes_lt(ax1, by1));
    assert(bytes_lt(ax, by));
}

/// Escaping is one to one: two different terms never share a key.
pub proof fn lemma_esc_injective(a: Seq<u8>, b: Seq<u8>)
    requires
        esc(a) == esc(b),
    ensures
        a == b,
    decreases a.len() + b.len(),
{
    if a.len() == 0 || b.len() == 0 {
        if a.len() == 0 && b.len() > 0 {
            assert(esc(b) == esc_byte(b[0]) + esc(b.drop_first()));
            assert(esc_byte(b[0]).len() >= 1);
            assert(esc(b).len() >= 1);
            assert(esc(a).len() == 0);
            assert(false);
        }
        if b.len() == 0 && a.len() > 0 {
            assert(esc(a) == esc_byte(a[0]) + esc(a.drop_first()));
            assert(esc_byte(a[0]).len() >= 1);
            assert(esc(a).len() >= 1);
            assert(esc(b).len() == 0);
            assert(false);
        }
        assert(a =~= b);
    } else {
        let ea = esc(a);
        let x = a[0];
        let y = b[0];
        assert(ea == esc_byte(x) + esc(a.drop_first()));
        assert(ea == esc_byte(y) + esc(b.drop_first()));
        assert(ea[0] == ((x >> 6) + 2) as u8 && ea[1] == (((x >> 3) & 7) + 2) as u8 && ea[2] == ((
        x & 7) + 2) as u8);
        assert(ea[0] == ((y >> 6) + 2) as u8 && ea[1] == (((y >> 3) & 7) + 2) as u8 && ea[2] == ((
        y & 7) + 2) as u8);
        assert(x >> 6 <= 3 && (x >> 3) & 7 <= 7 && x & 7 <= 7) by (bit_vector);
        assert(y >> 6 <= 3 && (y >> 3) & 7 <= 7 && y & 7 <= 7) by (bit_vector);
        assert(x >> 6 == y >> 6 && (x >> 3) & 7 == (y >> 3) & 7 && x & 7 == y & 7);
        assert(x == y) by (bit_vector)
            requires
                x >> 6 == y >> 6 && (x >> 3) & 7 == (y >> 3) & 7 && x & 7 == y & 7,
        ;
        assert(esc(a.drop_first()) =~= esc(b.drop_first())) by {
            assert(esc_byte(x) == esc_byte(y));
            assert(esc(a.drop_first()) =~= ea.skip(3));
            assert(esc(b.drop_first()) =~= ea.skip(3));
        };
        lemma_esc_injective(a.drop_first(), b.drop_first());
        assert(a.len() == b.len());
        assert forall|i: int| 0 <= i < a.len() implies a[i] == b[i] by {
            if i > 0 {
                assert(a[i] == a.drop_first()[i - 1]);
                assert(b[i] == b.drop_first()[i - 1]);
            }
        };
        assert(a =~= b);
    }
}

/// Two different terms never share a dictionary key.
pub proof fn lemma_esc_key_injective(a: Seq<u8>, b: Seq<u8>)
    requires
        esc_key(a) == esc_key(b),
    ensures
        a == b,
{
    lemma_esc_shape(a);
    lemma_esc_shape(b);
    assert(esc(a) =~= esc_key(a).drop_last());
    assert(esc(b) =~= esc_key(b).drop_last());
    lemma_esc_injective(a, b);
}

/// Looking a key up in a strictly sorted entry list finds its own pair,
/// and nothing for an absent key.
pub proof fn lemma_entries_lookup(es: Seq<(Seq<u8>, u64)>, k: Seq<u8>)
    requires
        forall|i: int, j: int|
            0 <= i < j < es.len() ==> bytes_lt((#[trigger] es[i]).0, (#[trigger] es[j]).0),
    ensures
        forall|j: int|
            0 <= j < es.len() && (#[trigger] es[j]).0 == k ==> entries_lookup(es, k) == Some(
                es[j].1,
            ),
        (forall|j: int| 0 <= j < es.len() ==> (#[trigger] es[j]).0 != k) ==> entries_lookup(
            es,
            k,
        ) is None,
    decreases es.len(),
{
    if es.len() > 0 {
        let e0 = es.drop_last();
        assert(forall|i: int, j: int|
            0 <= i < j < e0.len() ==> bytes_lt((#[trigger] e0[i]).0, (#[trigger] e0[j]).0));
        lemma_entries_lookup(e0, k);
        if es.last().0 == k {
            assert forall|j: int| 0 <= j < es.len() && (#[trigger] es[j]).0 == k implies
                entries_lookup(es, k) == Some(es[j].1) by {
                if j < es.len() - 1 {
                    lemma_bytes_lt_irrefl(es[j].0);
                }
            };
        } else {
            assert forall|j: int|
                0 <= j < es.len() && (#[trigger] es[j]).0 == k implies entries_lookup(es, k)
                == Some(es[j].1) by {
                assert(j < es.len() - 1);
                assert(e0[j] == es[j]);
                assert(entries_lookup(e0, k) == Some(e0[j].1));
            };
        }
    }
}

/// Strict byte order never relates a string to itself.
pub proof fn lemma_bytes_lt_irrefl(a: Seq<u8>)
    ensures
        !bytes_lt(a, a),
    decreases a.len(),
{
    if a.len() > 0 {
        lemma_bytes_lt_irrefl(a.drop_first());
    }
}

/// The strict order runs one way only.
pub proof fn lemma_bytes_lt_asym(a: Seq<u8>, b: Seq<u8>)
    requires
        bytes_lt(a, b),
    ensures
        !bytes_lt(b, a),
    decreases a.len() + b.len(),
{
    if a.len() > 0 && b.len() > 0 && a[0] == b[0] {
        lemma_bytes_lt_asym(a.drop_first(), b.drop_first());
    }
}

/// The length of the longest shared prefix of two byte strings.
pub fn shared_prefix_len(a: &[u8], b: &[u8]) -> (r: usize)
    ensures
        r <= a@.len() && r <= b@.len(),
        forall|i: int| 0 <= i < r ==> a@[i] == b@[i],
        r < a@.len() && r < b@.len() ==> a@[r as int] != b@[r as int],
{
    let mut i: usize = 0;
    let n = if a.len() > b.len() {
        b.len()
    } else {
        a.len()
    };
    while i < n
        invariant
            i <= n,
            n <= a@.len() && n <= b@.len(),
            n == a@.len() || n == b@.len(),
            forall|j: int| 0 <= j < i ==> a@[j] == b@[j],
        decreases n - i,
    {
        if a[i] != b[i] {
            return i;
        }
        i += 1;
    }
    i
}

/// The per-field filter block; the format reserves it, and this release
/// writes it empty.
#[derive(Default)]
pub struct FilterBlock {}

impl FilterBlock {
    pub fn new() -> FilterBlock {
        FilterBlock {  }
    }
}

/// Builds one field's term dictionary.
pub struct IndexBlock {
    fst: FstBuilder,
}

impl IndexBlock {
    /// The entries handed to the dictionary so far.
    pub closed spec fn entries(&self) -> Seq<(Seq<u8>, u64)> {
        crate::fst::fst_builder_entries(&self.fst)
    }

    pub fn new() -> (r: IndexBlock)
        ensures
            r.entries() == Seq::<(Seq<u8>, u64)>::empty(),
    {
        IndexBlock { fst: FstBuilder::new() }
    }

    pub fn add(&mut self, key: &[u8], val: u64) -> (r: GyResult<()>)
        requires
            crate::fst::fst_keylike(key@),
            forall|i: int|
                0 <= i < old(self).entries().len() ==> bytes_lt(
                    (#[trigger] old(self).entries()[i]).0,
                    key@,
                ),
        ensures
            r is Ok,
            final(self).entries() == old(self).entries().push((key@, val)),
    {
        proof {
            assert forall|i: int|
                0 <= i < crate::fst::fst_builder_entries(&self.fst).len() implies bytes_lt(
                (#[trigger] crate::fst::fst_builder_entries(&self.fst)[i]).0,
                key@,
            ) by {
                assert(crate::fst::fst_builder_entries(&self.fst) == old(self).entries());
                assert(bytes_lt((old(self).entries()[i]).0, key@));
            };
        }
        self.fst.add(key, val)
    }

    /// Seals the dictionary; what `bytes` then returns answers exactly the
    /// added entries.
    pub fn finish(&mut self) -> (r: GyResult<Vec<u8>>)
        ensures
            r is Ok,
            match r {
                Ok(bytes) => {
                    &&& crate::fst::fst_sealed(bytes@)
                    &&& old(self).entries().len() > 0 ==> bytes@.len() >= 2
                    &&& forall|k: Seq<u8>|
                        crate::fst::fst_keylike(k) ==> #[trigger] fst_map(bytes@, k)
                            == entries_lookup(old(self).entries(), k)
                },
                Err(e) => e == GyError::Serialization,
            },
    {
        match self.fst.finish() {
            Ok(_) => {},
            Err(e) => {
                return Err(e);
            },
        }
        let out = slice_to_vec(self.fst.get_ref());
        Ok(out)
    }

    pub fn reset(&mut self) -> (r: GyResult<()>)
        ensures
            r is Ok,
            final(self).entries() == Seq::<(Seq<u8>, u64)>::empty(),
    {
        self.fst.reset()
    }
}

/// A scratch buffer for data blocks.
pub struct DataBlock {
    pub buf: Vec<u8>,
}

impl DataBlock {
    pub fn new() -> (r: DataBlock)
        ensures
            r.buf@.len() == 0,
    {
        DataBlock { buf: Vec::new() }
    }

    pub fn reset(&mut self)
        ensures
            final(self).buf@.len() == 0,
    {
        self.buf.clear();
    }

    pub fn write(&mut self, key: &[u8]) -> (r: GyResult<()>)
        ensures
            r is Ok,
            final(self).buf@ == old(self).buf@ + key@,
    {
        let mut k: usize = 0;
        while k < key.len()
            invariant
                k <= key@.len(),
                self.buf@ == old(self).buf@ + key@.take(k as int),
            decreases key@.len() - k,
        {
            let b = key[k];
            self.buf.push(b);
            proof {
                assert(key@.take(k + 1) =~= key@.take(k as int).push(b));
                assert(old(self).buf@ + key@.take(k as int).push(b) =~= (old(self).buf@
                    + key@.take(k as int)).push(b));
            }
            k += 1;
        }
        proof {
            assert(key@.take(key@.len() as int) =~= key@);
        }
        Ok(())
    }
}

/// Writes a segment image: postings, term dictionaries, the two meta
/// blocks, and the footer, appended to the document region it starts from.
pub struct DiskStoreWriter {
    pub data: Vec<u8>,
    pub index_block: IndexBlock,
    pub field_bhs: Vec<FieldHandle>,
    pub doc_meta_bh: BlockHandle,
    pub field_meta_bh: BlockHandle,
}

impl DiskStoreWriter {
    /// A writer whose image starts with `initial` — the document region
    /// already persisted at the front of the file.
    pub fn with_offset(initial: Vec<u8>) -> (r: DiskStoreWriter)
        ensures
            r.data == initial,
            r.index_block.entries() == Seq::<(Seq<u8>, u64)>::empty(),
            r.field_bhs@.len() == 0,
    {
        DiskStoreWriter {
            data: initial,
            index_block: IndexBlock::new(),
            field_bhs: Vec::new(),
            doc_meta_bh: BlockHandle(0, 0),
            field_meta_bh: BlockHandle(0, 0),
        }
    }

    /// The current file cursor.
    pub fn get_cursor(&self) -> (r: usize)
        ensures
            r == self.data@.len(),
    {
        self.data.len()
    }

    /// Appends one posting, length-prefixed; yields the offset it starts
    /// at.
    pub fn write_posting(&mut self, b: &[u8]) -> (r: GyResult<usize>)
        ensures
            r matches Ok(off) && off == old(self).data@.len(),
            final(self).data@ == old(self).data@ + vu64_enc(b@.len() as u64) + b@,
            final(self).index_block == old(self).index_block,
            final(self).field_bhs == old(self).field_bhs,
            final(self).doc_meta_bh == old(self).doc_meta_bh,
            final(self).field_meta_bh == old(self).field_meta_bh,
    {
        let off = self.data.len();
        write_vu64(&mut self.data, b.len() as u64);
        let mut k: usize = 0;
        let ghost mid = self.data@;
        while k < b.len()
            invariant
                k <= b@.len(),
                self.data@ == mid + b@.take(k as int),
                self.index_block == old(self).index_block,
                self.field_bhs == old(self).field_bhs,
                self.doc_meta_bh == old(self).doc_meta_bh,
                self.field_meta_bh == old(self).field_meta_bh,
            decreases b@.len() - k,
        {
            let by = b[k];
            self.data.push(by);
            proof {
                assert(b@.take(k + 1) =~= b@.take(k as int).push(by));
                assert(mid + b@.take(k as int).push(by) =~= (mid + b@.take(k as int)).push(by));
            }
            k += 1;
        }
        proof {
            assert(b@.take(b@.len() as int) =~= b@);
        }
        Ok(off)
    }

    /// Hands one term and its posting offset to the field's dictionary.
    pub fn add_term(&mut self, key: &[u8], offset: usize) -> (r: GyResult<()>)
        requires
            crate::fst::fst_keylike(key@),
            forall|i: int|
                0 <= i < old(self).index_block.entries().len() ==> bytes_lt(
                    (#[trigger] old(self).index_block.entries()[i]).0,
                    key@,
                ),
        ensures
            r is Ok,
            final(self).index_block.entries() == old(self).index_block.entries().push(
                (key@, offset as u64),
            ),
            final(self).data == old(self).data,
            final(self).field_bhs == old(self).field_bhs,
            final(self).doc_meta_bh == old(self).doc_meta_bh,
            final(self).field_meta_bh == old(self).field_meta_bh,
    {
        self.index_block.add(key, offset as u64)
    }

    /// Seals the field's dictionary, appends its bytes, and records the
    /// field's handles.
    pub fn finish_field(&mut self) -> (r: GyResult<()>)
        ensures
            r is Ok,
            final(self).field_bhs@.len() == old(self).field_bhs@.len() + 1,
            forall|q: int|
                0 <= q < old(self).field_bhs@.len() ==> #[trigger] final(self).field_bhs@[q]
                    == old(self).field_bhs@[q],
            ({
                let fh = final(self).field_bhs@.last();
                &&& fh.fst_bh.0 == old(self).data@.len()
                &&& fh.fst_bh.0 + fh.fst_bh.1 == final(self).data@.len()
                &&& fh.filter_bh == BlockHandle(0, 0)
                &&& final(self).data@.subrange(
                    fh.fst_bh.0 as int,
                    fh.fst_bh.0 + fh.fst_bh.1,
                ) == final(self).data@.skip(fh.fst_bh.0 as int)
                &&& crate::fst::fst_sealed(final(self).data@.skip(fh.fst_bh.0 as int))
                &&& (old(self).index_block.entries().len() > 0 ==> fh.fst_bh.1 >= 2)
                &&& forall|k: Seq<u8>|
                    crate::fst::fst_keylike(k) ==> #[trigger] fst_map(
                        final(self).data@.skip(fh.fst_bh.0 as int),
                        k,
                    ) == entries_lookup(old(self).index_block.entries(), k)
            }),
            final(self).data@.len() >= old(self).data@.len(),
            final(self).data@.take(old(self).data@.len() as int) == old(self).data@,
            final(self).index_block.entries() == Seq::<(Seq<u8>, u64)>::empty(),
            final(self).doc_meta_bh == old(self).doc_meta_bh,
            final(self).field_meta_bh == old(self).field_meta_bh,
    {
        let fst_bytes = match self.index_block.finish() {
            Ok(b) => b,
            Err(e) => {
                proof {
                    assert(false);
                }
                return Err(e);
            },
        };
        match self.index_block.reset() {
            Ok(_) => {},
            Err(e) => {
                proof {
                    assert(false);
                }
                return Err(e);
            },
        }
        let off = self.data.len();
        let mut k: usize = 0;
        let ghost base = self.data@;
        while k < fst_bytes.len()
            invariant
                k <= fst_bytes@.len(),
                self.data@ == base + fst_bytes@.take(k as int),
                self.index_block.entries() == Seq::<(Seq<u8>, u64)>::empty(),
                self.field_bhs == old(self).field_bhs,
                self.doc_meta_bh == old(self).doc_meta_bh,
                self.field_meta_bh == old(self).field_meta_bh,
            decreases fst_bytes@.len() - k,
        {
            let by = fst_bytes[k];
            self.data.push(by);
            proof {
                assert(fst_bytes@.take(k + 1) =~= fst_bytes@.take(k as int).push(by));
                assert(base + fst_bytes@.take(k as int).push(by) =~= (base + fst_bytes@.take(
                    k as int,
                )).push(by));
            }
            k += 1;
        }
        proof {
            assert(fst_bytes@.take(fst_bytes@.len() as int) =~= fst_bytes@);
        }
        let fh = FieldHandle {
            fst_bh: BlockHandle(off, self.data.len() - off),
            filter_bh: BlockHandle(0, 0),
        };
        self.field_bhs.push(fh);
        proof {
            assert(self.data@.skip(off as int) =~= fst_bytes@);
            assert(self.data@.subrange(off as int, self.data@.len() as int) =~= self.data@.skip(
                off as int,
            ));
            assert(self.data@.take(base.len() as int) =~= base);
        }
        Ok(())
    }

    /// Appends the document offset table and records its handle.
    pub fn write_doc_meta(&mut self, meta: &Vec<usize>) -> (r: GyResult<()>)
        requires
            forall|i: int| 0 <= i < meta@.len() ==> (#[trigger] meta@[i]) <= u32::MAX,
        ensures
            r is Ok,
            final(self).data@ == old(self).data@ + enc_offsets(meta@),
            final(self).doc_meta_bh == BlockHandle(
                old(self).data@.len() as usize,
                enc_offsets(meta@).len() as usize,
            ),
            final(self).field_bhs == old(self).field_bhs,
            final(self).field_meta_bh == old(self).field_meta_bh,
    {
        let off = self.data.len();
        write_vu64(&mut self.data, meta.len() as u64);
        let mut k: usize = 0;
        let ghost base = self.data@;
        while k < meta.len()
            invariant
                k <= meta@.len(),
                forall|i: int| 0 <= i < meta@.len() ==> (#[trigger] meta@[i]) <= u32::MAX,
                self.data@ == base + enc_offsets_body(meta@.take(k as int)),
                self.field_bhs == old(self).field_bhs,
                self.field_meta_bh == old(self).field_meta_bh,
                self.index_block == old(self).index_block,
            decreases meta@.len() - k,
        {
            let v = meta[k];
            crate::schema::write_u32_be(&mut self.data, v as u32);
            proof {
                lemma_enc_offsets_body_push(meta@.take(k as int), v);
                assert(meta@.take(k + 1) =~= meta@.take(k as int).push(v));
            }
            k += 1;
        }
        proof {
            assert(meta@.take(meta@.len() as int) =~= meta@);
        }
        self.doc_meta_bh = BlockHandle(off, self.data.len() - off);
        proof {
            assert(self.data@ =~= old(self).data@ + enc_offsets(meta@));
        }
        Ok(())
    }

    /// Appends the per-field handle table and records its handle.
    pub fn write_field_meta(&mut self) -> (r: GyResult<()>)
        ensures
            r is Ok,
            final(self).data@ == old(self).data@ + enc_fhs(old(self).field_bhs@),
            final(self).field_meta_bh == BlockHandle(
                old(self).data@.len() as usize,
                enc_fhs(old(self).field_bhs@).len() as usize,
            ),
            final(self).field_bhs == old(self).field_bhs,
            final(self).doc_meta_bh == old(self).doc_meta_bh,
    {
        let off = self.data.len();
        write_vu64(&mut self.data, self.field_bhs.len() as u64);
        let mut k: usize = 0;
        let ghost base = self.data@;
        let ghost fhs = self.field_bhs@;
        while k < self.field_bhs.len()
            invariant
                k <= fhs.len(),
                self.field_bhs == old(self).field_bhs,
                self.field_bhs@ == fhs,
                self.data@ == base + enc_fhs_body(fhs.take(k as int)),
                self.doc_meta_bh == old(self).doc_meta_bh,
            decreases fhs.len() - k,
        {
            let fh = self.field_bhs[k];
            let mut tmp: Vec<u8> = Vec::new();
            let _ = fh.serialize(&mut tmp);
            let mut q: usize = 0;
            let ghost mid = self.data@;
            while q < tmp.len()
                invariant
                    q <= tmp@.len(),
                    self.data@ == mid + tmp@.take(q as int),
                    self.field_bhs == old(self).field_bhs,
                    self.field_bhs@ == fhs,
                    self.doc_meta_bh == old(self).doc_meta_bh,
                decreases tmp@.len() - q,
            {
                let by = tmp[q];
                self.data.push(by);
                proof {
                    assert(tmp@.take(q + 1) =~= tmp@.take(q as int).push(by));
                    assert(mid + tmp@.take(q as int).push(by) =~= (mid + tmp@.take(
                        q as int,
                    )).push(by));
                }
                q += 1;
            }
            proof {
                assert(tmp@.take(tmp@.len() as int) =~= tmp@);
                assert(tmp@ == enc_fh(fhs[k as int]));
                lemma_enc_fhs_body_push(fhs.take(k as int), fhs[k as int]);
                assert(fhs.take(k + 1) =~= fhs.take(k as int).push(fhs[k as int]));
                assert(self.data@ =~= base + enc_fhs_body(fhs.take(k + 1)));
            }
            k += 1;
        }
        proof {
            assert(fhs.take(fhs.len() as int) =~= fhs);
        }
        self.field_meta_bh = BlockHandle(off, self.data.len() - off);
        proof {
            assert(self.data@ =~= old(self).data@ + enc_fhs(fhs));
        }
        Ok(())
    }

    /// Appends the footer: the two meta handles, zero padding, and the
    /// magic bytes; exactly `FOOTER_LEN` bytes.
    #[verifier::rlimit(60)]
    pub fn close(&mut self) -> (r: GyResult<()>)
        ensures
            r is Ok,
            final(self).data@.len() == old(self).data@.len() + FOOTER_LEN,
            final(self).data@.take(old(self).data@.len() as int) == old(self).data@,
            final(self).data@.subrange(
                final(self).data@.len() - 8,
                final(self).data@.len() as int,
            ) == spec_magic(),
            (dec_bh(final(self).data@.skip(old(self).data@.len() as int)) matches Some(
                (bh1, k1),
            ) && bh1 == old(self).doc_meta_bh && (dec_bh(
                final(self).data@.skip(old(self).data@.len() + k1),
            ) matches Some((bh2, k2)) && bh2 == old(self).field_meta_bh)),
    {
        let mut footer: Vec<u8> = Vec::new();
        let _ = self.doc_meta_bh.serialize(&mut footer);
        let ghost k1len = footer@.len() as int;
        let _ = self.field_meta_bh.serialize(&mut footer);
        proof {
            crate::varint::lemma_vu64_enc_len(self.doc_meta_bh.0 as u64);
            crate::varint::lemma_vu64_enc_len(self.doc_meta_bh.1 as u64);
            crate::varint::lemma_vu64_enc_len(self.field_meta_bh.0 as u64);
            crate::varint::lemma_vu64_enc_len(self.field_meta_bh.1 as u64);
        }
        if footer.len() > FOOTER_LEN - 8 {
            proof {
                assert(false);
            }
            return Err(GyError::Serialization);
        }
        while footer.len() < FOOTER_LEN - 8
            invariant
                footer@.len() <= FOOTER_LEN - 8,
                footer@.take(enc_bh(old(self).doc_meta_bh).len() as int) == enc_bh(
                    old(self).doc_meta_bh,
                ),
                footer@.take(
                    enc_bh(old(self).doc_meta_bh).len() + enc_bh(old(self).field_meta_bh).len() as int,
                ) == enc_bh(old(self).doc_meta_bh) + enc_bh(old(self).field_meta_bh),
                enc_bh(old(self).doc_meta_bh).len() + enc_bh(old(self).field_meta_bh).len()
                    <= footer@.len(),
                self.data@ == old(self).data@,
                self.doc_meta_bh == old(self).doc_meta_bh,
                self.field_meta_bh == old(self).field_meta_bh,
            decreases FOOTER_LEN - footer@.len(),
        {
            footer.push(0u8);
            proof {
                assert(footer@.take(enc_bh(old(self).doc_meta_bh).len() as int) =~= footer@
                    .drop_last().take(enc_bh(old(self).doc_meta_bh).len() as int));
                assert(footer@.take(
                    enc_bh(old(self).doc_meta_bh).len() + enc_bh(old(self).field_meta_bh).len() as int,
                ) =~= footer@.drop_last().take(
                    enc_bh(old(self).doc_meta_bh).len() + enc_bh(old(self).field_meta_bh).len() as int,
                ));
            }
        }
        let ghost padded = footer@;
        let mut magic = magic_bytes();
        footer.append(&mut magic);
        let ghost fview = footer@;
        proof {
            let k1 = enc_bh(old(self).doc_meta_bh).len() as int;
            let k2 = enc_bh(old(self).field_meta_bh).len() as int;
            assert(fview.take(k1) =~= padded.take(k1));
            assert(fview.take(k1 + k2) =~= padded.take(k1 + k2));
        }
        let mut k: usize = 0;
        let ghost base = self.data@;
        while k < footer.len()
            invariant
                k <= footer@.len(),
                footer@ == fview,
                self.data@ == base + footer@.take(k as int),
                self.doc_meta_bh == old(self).doc_meta_bh,
                self.field_meta_bh == old(self).field_meta_bh,
            decreases footer@.len() - k,
        {
            let by = footer[k];
            self.data.push(by);
            proof {
                assert(footer@.take(k + 1) =~= footer@.take(k as int).push(by));
                assert(base + footer@.take(k as int).push(by) =~= (base + footer@.take(
                    k as int,
                )).push(by));
            }
            k += 1;
        }
        proof {
            assert(footer@.take(footer@.len() as int) =~= footer@);
            assert(self.data@.take(base.len() as int) =~= base);
            assert(self.data@.len() == base.len() + 48);
            assert(self.data@.subrange(self.data@.len() - 8, self.data@.len() as int) =~= spec_magic());
            let ftail = self.data@.skip(base.len() as int);
            assert(ftail =~= fview);
            lemma_bh_round_trip(
                old(self).doc_meta_bh,
                fview.skip(enc_bh(old(self).doc_meta_bh).len() as int),
            );
            assert(fview =~= enc_bh(old(self).doc_meta_bh) + fview.skip(
                enc_bh(old(self).doc_meta_bh).len() as int,
            ));
            let k1 = enc_bh(old(self).doc_meta_bh).len() as int;
            lemma_bh_round_trip(
                old(self).field_meta_bh,
                fview.skip(k1 + enc_bh(old(self).field_meta_bh).len()),
            );
            assert(fview.skip(k1) =~= enc_bh(old(self).field_meta_bh) + fview.skip(
                k1 + enc_bh(old(self).field_meta_bh).len(),
            ));
            assert(self.data@.skip(base.len() + k1) =~= fview.skip(k1));
        }
        Ok(())
    }
}

/// Appending one offset extends the table body by its four bytes.
proof fn lemma_enc_offsets_body_push(s: Seq<usize>, x: usize)
    ensures
        enc_offsets_body(s.push(x)) == enc_offsets_body(s) + be32(x as u32),
    decreases s.len(),
{
    let ext = s.push(x);
    assert(ext.len() == s.len() + 1);
    assert(enc_offsets_body(ext) == be32(ext[0] as u32) + enc_offsets_body(ext.drop_first()));
    if s.len() == 0 {
        assert(ext[0] == x);
        assert(ext.drop_first() =~= Seq::<usize>::empty());
        assert(enc_offsets_body(ext.drop_first()) == Seq::<u8>::empty());
        assert(enc_offsets_body(s) == Seq::<u8>::empty());
        assert(enc_offsets_body(ext) =~= enc_offsets_body(s) + be32(x as u32));
    } else {
        assert(ext.drop_first() =~= s.drop_first().push(x));
        lemma_enc_offsets_body_push(s.drop_first(), x);
        assert(ext[0] == s[0]);
        assert(enc_offsets_body(s) == be32(s[0] as u32) + enc_offsets_body(s.drop_first()));
        assert(enc_offsets_body(ext) =~= enc_offsets_body(s) + be32(x as u32));
    }
}

/// Appending one handle extends the table body by its wire form.
proof fn lemma_enc_fhs_body_push(s: Seq<FieldHandle>, x: FieldHandle)
    ensures
        enc_fhs_body(s.push(x)) == enc_fhs_body(s) + enc_fh(x),
    decreases s.len(),
{
    let ext = s.push(x);
    assert(ext.len() == s.len() + 1);
    assert(enc_fhs_body(ext) == enc_fh(ext[0]) + enc_fhs_body(ext.drop_first()));
    if s.len() == 0 {
        assert(ext[0] == x);
        assert(ext.drop_first() =~= Seq::<FieldHandle>::empty());
        assert(enc_fhs_body(ext.drop_first()) == Seq::<u8>::empty());
        assert(enc_fhs_body(s) == Seq::<u8>::empty());
        assert(enc_fhs_body(ext) =~= enc_fhs_body(s) + enc_fh(x));
    } else {
        assert(ext.drop_first() =~= s.drop_first().push(x));
        lemma_enc_fhs_body_push(s.drop_first(), x);
        assert(ext[0] == s[0]);
        assert(enc_fhs_body(s) == enc_fh(s[0]) + enc_fhs_body(s.drop_first()));
        assert(enc_fhs_body(ext) =~= enc_fhs_body(s) + enc_fh(x));
    }
}

/// Merging segments into one is not part of this release; a flush always
/// writes a fresh segment.
pub fn merge() {
}

/// What a flushed segment promises about one field's region: present terms
/// resolve through the dictionary to their length-prefixed posting bytes,
/// absent terms resolve to nothing.
pub open spec fn field_region_ok(
    bytes: Seq<u8>,
    fh: FieldHandle,
    cache: FieldCache,
) -> bool {
    &&& fh.fst_bh.0 + fh.fst_bh.1 <= bytes.len()
    &&& crate::fst::fst_sealed(bytes.subrange(fh.fst_bh.0 as int, fh.fst_bh.0 + fh.fst_bh.1))
    &&& forall|t: Seq<u8>|
        #[trigger] cache.hist().dom().contains(t) ==> ({
            let region = bytes.subrange(fh.fst_bh.0 as int, fh.fst_bh.0 + fh.fst_bh.1);
            &&& region.len() >= 2
            &&& fst_map(region, esc_key(t)) matches Some(off) && ({
                let off = fst_map(region, esc_key(t)).unwrap() as int;
                let pb = enc_records(cache.posting_of(t).records@, 0);
                &&& 0 <= off
                &&& off + vu64_enc(pb.len() as u64).len() + pb.len() <= bytes.len()
                &&& bytes.subrange(
                    off,
                    off + vu64_enc(pb.len() as u64).len() + pb.len() as int,
                ) == vu64_enc(pb.len() as u64) + pb
            })
        })
    &&& forall|t: Seq<u8>|
        !(#[trigger] cache.hist().dom().contains(t)) ==> fst_map(
            bytes.subrange(fh.fst_bh.0 as int, fh.fst_bh.0 + fh.fst_bh.1),
            esc_key(t),
        ) is None
    &&& forall|t1: Seq<u8>, t2: Seq<u8>|
        cache.hist().dom().contains(t1) && cache.hist().dom().contains(t2) && bytes_lt(t1, t2)
            ==> ((#[trigger] fst_map(
            bytes.subrange(fh.fst_bh.0 as int, fh.fst_bh.0 + fh.fst_bh.1),
            esc_key(t1),
        )) matches Some(o1) && ((#[trigger] fst_map(
            bytes.subrange(fh.fst_bh.0 as int, fh.fst_bh.0 + fh.fst_bh.1),
            esc_key(t2),
        )) matches Some(o2) && o1 < o2))
}

/// Writes one field's postings and dictionary.
#[verifier::rlimit(100)]
fn flush_one_field(
    w: &mut DiskStoreWriter,
    base: &IndexBase,
    f: usize,
    Ghost(wal0): Ghost<Seq<u8>>,
) -> (r: GyResult<()>)
    requires
        base.wf(),
        !base.is_broken(),
        f < base.field_count(),
        wal0 == base.the_wal().flushed(),
        wal0.len() <= old(w).data@.len(),
        old(w).data@.take(wal0.len() as int) == wal0,
        old(w).index_block.entries() == Seq::<(Seq<u8>, u64)>::empty(),
        old(w).field_bhs@.len() == f,
        forall|q: int|
            0 <= q < f ==> #[trigger] field_region_ok(
                old(w).data@,
                old(w).field_bhs@[q],
                base.spec_fields()[q],
            ),
    ensures
        r is Ok,
        wal0.len() <= final(w).data@.len(),
        final(w).data@.take(wal0.len() as int) == wal0,
        final(w).index_block.entries() == Seq::<(Seq<u8>, u64)>::empty(),
        final(w).field_bhs@.len() == f + 1,
        forall|q: int|
            0 <= q < f + 1 ==> #[trigger] field_region_ok(
                final(w).data@,
                final(w).field_bhs@[q],
                base.spec_fields()[q],
            ),
        final(w).doc_meta_bh == old(w).doc_meta_bh,
        final(w).field_meta_bh == old(w).field_meta_bh,
{
        let ghost cache = base.spec_fields()[f as int];
        proof {
            base.lemma_wf_parts();
            cache.lemma_wf_parts(base.the_pool());
        }
        let pairs = base.field_at(f).indexs_ref().iter();
        let np = pairs.len();
        proof {
            assert forall|i: int| 0 <= i < pairs@.len() implies cache.hist().dom().contains(
                (#[trigger] pairs@[i]).0@,
            ) && pairs@[i].1 == cache.terms_map()[pairs@[i].0@] by {
                assert(cache.terms_map().contains_pair(pairs@[i].0@, pairs@[i].1));
            };
        }
        let mut j: usize = 0;
        while j < np
            invariant
                base.wf(),
                !base.is_broken(),
                f < base.field_count(),
                cache == base.spec_fields()[f as int],
                np == pairs@.len(),
                j <= np,
                wal0 == base.the_wal().flushed(),
                wal0.len() <= w.data@.len(),
                w.data@.take(wal0.len() as int) == wal0,
                w.field_bhs@.len() == f,
                forall|q: int|
                    0 <= q < f ==> #[trigger] field_region_ok(
                        w.data@,
                        w.field_bhs@[q],
                        base.spec_fields()[q],
                    ),
                forall|i: int|
                    0 <= i < pairs@.len() ==> cache.hist().dom().contains(
                        (#[trigger] pairs@[i]).0@,
                    ) && pairs@[i].1 == cache.terms_map()[pairs@[i].0@],
                forall|t: Seq<u8>|
                    cache.hist().dom().contains(t) ==> exists|i: int|
                        0 <= i < pairs@.len() && (#[trigger] pairs@[i]).0@ == t,
                forall|i1: int, i2: int|
                    0 <= i1 < i2 < pairs@.len() ==> bytes_lt(pairs@[i1].0@, pairs@[i2].0@),
                w.doc_meta_bh == old(w).doc_meta_bh,
                w.field_meta_bh == old(w).field_meta_bh,
                w.index_block.entries().len() == j,
                forall|i: int|
                    0 <= i < j ==> (#[trigger] w.index_block.entries()[i]).0 == esc_key(
                        pairs@[i].0@,
                    ),
                forall|i: int|
                    0 <= i < j ==> ({
                        let t = (#[trigger] pairs@[i]).0@;
                        let off = w.index_block.entries()[i].1 as int;
                        let pb = enc_records(cache.posting_of(t).records@, 0);
                        &&& 0 <= off
                        &&& off + vu64_enc(pb.len() as u64).len() + pb.len() <= w.data@.len()
                        &&& w.data@.subrange(
                            off,
                            off + vu64_enc(pb.len() as u64).len() + pb.len() as int,
                        ) == vu64_enc(pb.len() as u64) + pb
                    }),
                forall|i1: int, i2: int|
                    0 <= i1 < i2 < j ==> (#[trigger] w.index_block.entries()[i1]).1 < (
                    #[trigger] w.index_block.entries()[i2]).1,
            decreases np - j,
        {
            let term = slice_to_vec(pairs[j].0.as_slice());
            let ghost t = term@;
            let idx64 = pairs[j].1;
            proof {
                base.lemma_wf_parts();
                cache.lemma_wf_parts(base.the_pool());
                assert(cache.hist().dom().contains(t));
                assert(idx64 == cache.terms_map()[t]);
            }
            if idx64 >= base.field_at(f).postings_ref().len() as u64 {
                proof {
                    assert(false);
                }
                return Err(GyError::Serialization);
            }
            let idx = idx64 as usize;
            let p = &base.field_at(f).postings_ref()[idx];
            proof {
                assert(*p == cache.posting_of(t));
                assert(crate::index::posting_inv(*p, base.the_pool(), cache.hist()[t]));
                base.the_pool().lemma_stream_walk(p.stream as int);
            }
            let pb = base.pool_ref().read_chain(p.byte_addr, p.doc_freq_addr);
            let ghost dpre = w.data@;
            let off = match w.write_posting(pb.as_slice()) {
                Ok(o) => o,
                Err(_) => {
                    proof {
                        assert(false);
                    }
                    return Err(GyError::Serialization);
                },
            };
            proof {
                assert(w.data@.subrange(
                    off as int,
                    off + vu64_enc(pb@.len() as u64).len() + pb@.len() as int,
                ) =~= vu64_enc(pb@.len() as u64) + pb@);
                assert(pb@ == enc_records(cache.posting_of(t).records@, 0));
            }
            let ekey = escape_term(term.as_slice());
            proof {
                assert forall|i: int|
                    0 <= i < w.index_block.entries().len() implies bytes_lt(
                    (#[trigger] w.index_block.entries()[i]).0,
                    ekey@,
                ) by {
                    assert(w.index_block.entries()[i].0 == esc_key(pairs@[i].0@));
                    assert(bytes_lt(pairs@[i].0@, pairs@[j as int].0@));
                    lemma_esc_lt(pairs@[i].0@, pairs@[j as int].0@);
                };
            }
            match w.add_term(ekey.as_slice(), off) {
                Ok(_) => {},
                Err(e) => {
                    proof {
                        assert(false);
                    }
                    return Err(e);
                },
            }
            proof {
                assert(w.data@.take(wal0.len() as int) =~= wal0);
                assert forall|i: int| 0 <= i < j implies (
                #[trigger] w.index_block.entries()[i]).1 < off by {
                    let t2 = pairs@[i].0@;
                    let pb2 = enc_records(cache.posting_of(t2).records@, 0);
                    crate::varint::lemma_vu64_enc_len(pb2.len() as u64);
                };
                assert forall|q: int| 0 <= q < f implies #[trigger] field_region_ok(
                    w.data@,
                    w.field_bhs@[q],
                    base.spec_fields()[q],
                ) by {
                    assert(w.data@.take(dpre.len() as int) =~= dpre);
                    lemma_field_region_stable(
                        dpre,
                        w.data@,
                        w.field_bhs@[q],
                        base.spec_fields()[q],
                    );
                };
                assert forall|i: int| 0 <= i < j + 1 implies ({
                    let t2 = (#[trigger] pairs@[i]).0@;
                    let off2 = w.index_block.entries()[i].1 as int;
                    let pb2 = enc_records(cache.posting_of(t2).records@, 0);
                    &&& 0 <= off2
                    &&& off2 + vu64_enc(pb2.len() as u64).len() + pb2.len() <= w.data@.len()
                    &&& w.data@.subrange(
                        off2,
                        off2 + vu64_enc(pb2.len() as u64).len() + pb2.len() as int,
                    ) == vu64_enc(pb2.len() as u64) + pb2
                }) by {
                    if i < j {
                        let t2 = pairs@[i].0@;
                        let off2 = w.index_block.entries()[i].1 as int;
                        let pb2 = enc_records(cache.posting_of(t2).records@, 0);
                        assert(w.data@.subrange(
                            off2,
                            off2 + vu64_enc(pb2.len() as u64).len() + pb2.len() as int,
                        ) =~= dpre.subrange(
                            off2,
                            off2 + vu64_enc(pb2.len() as u64).len() + pb2.len() as int,
                        ));
                    }
                };
            }
            j += 1;
        }
        let ghost entries_f = w.index_block.entries();
        let ghost data_pre_fst = w.data@;
        match w.finish_field() {
            Ok(_) => {},
            Err(e) => {
                proof {
                    assert(false);
                }
                return Err(e);
            },
        }
        proof {
            let fh = w.field_bhs@.last();
            let region = w.data@.subrange(fh.fst_bh.0 as int, fh.fst_bh.0 + fh.fst_bh.1);
            lemma_entries_lookup_all(entries_f, pairs@, cache, region);
            assert forall|t: Seq<u8>| #[trigger] cache.hist().dom().contains(t) implies ({
                &&& fst_map(region, esc_key(t)) matches Some(off) && ({
                    let off = fst_map(region, esc_key(t)).unwrap() as int;
                    let pb = enc_records(cache.posting_of(t).records@, 0);
                    &&& 0 <= off
                    &&& off + vu64_enc(pb.len() as u64).len() + pb.len() <= w.data@.len()
                    &&& w.data@.subrange(
                        off,
                        off + vu64_enc(pb.len() as u64).len() + pb.len() as int,
                    ) == vu64_enc(pb.len() as u64) + pb
                })
            }) by {
                let i = choose|i: int| 0 <= i < pairs@.len() && (#[trigger] pairs@[i]).0@ == t;
                lemma_esc_shape(t);
                assert(entries_f[i].0 == esc_key(t));
                assert(fst_map(region, esc_key(t)) == entries_lookup(entries_f, esc_key(t)));
                assert(entries_lookup(entries_f, esc_key(t)) == Some(entries_f[i].1));
                assert(fst_map(region, esc_key(t)) == Some(entries_f[i].1));
                let off2 = entries_f[i].1 as int;
                let pb2 = enc_records(cache.posting_of(t).records@, 0);
                assert(w.data@.subrange(
                    off2,
                    off2 + vu64_enc(pb2.len() as u64).len() + pb2.len() as int,
                ) =~= data_pre_fst.subrange(
                    off2,
                    off2 + vu64_enc(pb2.len() as u64).len() + pb2.len() as int,
                ));
            };
            assert forall|t: Seq<u8>| !(#[trigger] cache.hist().dom().contains(t)) implies
                fst_map(region, esc_key(t)) is None by {
                lemma_esc_shape(t);
                assert(fst_map(region, esc_key(t)) == entries_lookup(entries_f, esc_key(t)));
                assert forall|i2: int| 0 <= i2 < entries_f.len() implies (
                #[trigger] entries_f[i2]).0 != esc_key(t) by {
                    assert(cache.hist().dom().contains(pairs@[i2].0@));
                    if entries_f[i2].0 == esc_key(t) {
                        lemma_esc_key_injective(pairs@[i2].0@, t);
                    }
                };
                lemma_entries_lookup(entries_f, esc_key(t));
            };
            assert forall|t1: Seq<u8>, t2: Seq<u8>|
                cache.hist().dom().contains(t1) && cache.hist().dom().contains(t2) && bytes_lt(
                    t1,
                    t2,
                ) implies ((#[trigger] fst_map(region, esc_key(t1))) matches Some(o1) && ((
            #[trigger] fst_map(region, esc_key(t2))) matches Some(o2) && o1 < o2)) by {
                let i1 = choose|i: int| 0 <= i < pairs@.len() && (#[trigger] pairs@[i]).0@ == t1;
                let i2 = choose|i: int| 0 <= i < pairs@.len() && (#[trigger] pairs@[i]).0@ == t2;
                lemma_esc_shape(t1);
                lemma_esc_shape(t2);
                assert(entries_f[i1].0 == esc_key(t1));
                assert(entries_f[i2].0 == esc_key(t2));
                assert(fst_map(region, esc_key(t1)) == Some(entries_f[i1].1));
                assert(fst_map(region, esc_key(t2)) == Some(entries_f[i2].1));
                if i1 == i2 {
                    lemma_bytes_lt_irrefl(t1);
                    assert(false);
                }
                if i2 < i1 {
                    assert(bytes_lt(t2, t1));
                    lemma_bytes_lt_asym(t1, t2);
                    assert(false);
                }
                assert(i1 < i2);
                assert(entries_f[i1].1 < entries_f[i2].1);
            };
            assert(field_region_ok(w.data@, w.field_bhs@[f as int], cache));
            assert(w.data@.take(wal0.len() as int) =~= wal0);
            assert forall|q: int| 0 <= q < f implies #[trigger] field_region_ok(
                w.data@,
                w.field_bhs@[q],
                base.spec_fields()[q],
            ) by {
                lemma_field_region_stable(
                    data_pre_fst,
                    w.data@,
                    w.field_bhs@[q],
                    base.spec_fields()[q],
                );
            };
        }
    Ok(())
}

/// The closing bookkeeping of a flush: after the two meta tables and the
/// footer go in, both tables decode out of the image and every field
/// region still answers.
proof fn lemma_flush_close(
    bytes: Seq<u8>,
    data_pre_meta: Seq<u8>,
    data_pre_fmeta: Seq<u8>,
    data_pre_close: Seq<u8>,
    wal0: Seq<u8>,
    doc_offsets: Seq<usize>,
    dbh: BlockHandle,
    fbh: BlockHandle,
    fhs_final: Seq<FieldHandle>,
    fields: Seq<FieldCache>,
)
    requires
        forall|i: int| 0 <= i < doc_offsets.len() ==> (#[trigger] doc_offsets[i]) <= u32::MAX,
        data_pre_fmeta == data_pre_meta + enc_offsets(doc_offsets),
        dbh.0 == data_pre_meta.len(),
        dbh.1 == enc_offsets(doc_offsets).len(),
        data_pre_close == data_pre_fmeta + enc_fhs(fhs_final),
        fbh.0 == data_pre_fmeta.len(),
        fbh.1 == enc_fhs(fhs_final).len(),
        bytes.len() == data_pre_close.len() + FOOTER_LEN,
        bytes.take(data_pre_close.len() as int) == data_pre_close,
        wal0.len() <= data_pre_meta.len(),
        data_pre_meta.take(wal0.len() as int) == wal0,
        doc_offsets.len() <= u64::MAX,
        fhs_final.len() <= u64::MAX,
        fhs_final.len() == fields.len(),
        forall|q: int|
            0 <= q < fields.len() ==> #[trigger] field_region_ok(
                data_pre_meta,
                fhs_final[q],
                fields[q],
            ),
    ensures
        wal0.len() <= bytes.len(),
        bytes.take(wal0.len() as int) == wal0,
        dbh.0 + dbh.1 <= bytes.len(),
        dec_offsets(bytes.subrange(dbh.0 as int, dbh.0 + dbh.1)) matches Some(pr) && pr.0
            == doc_offsets,
        fbh.0 + fbh.1 <= bytes.len(),
        dec_fhs(bytes.subrange(fbh.0 as int, fbh.0 + fbh.1)) matches Some(pr2) && pr2.0
            == fhs_final,
        forall|q: int|
            0 <= q < fields.len() ==> #[trigger] field_region_ok(bytes, fhs_final[q], fields[q]),
{
    assert(bytes.take(wal0.len() as int) =~= wal0);
    assert(data_pre_close.take(data_pre_fmeta.len() as int) =~= data_pre_fmeta);
    // the doc-offset table decodes back
    lemma_offsets_round_trip(doc_offsets, Seq::<u8>::empty());
    assert(enc_offsets(doc_offsets) + Seq::<u8>::empty() =~= enc_offsets(doc_offsets));
    assert forall|i: int| 0 <= i < dbh.1 implies bytes[dbh.0 + i] == enc_offsets(doc_offsets)[i] by {
        assert(bytes[dbh.0 + i] == data_pre_close[dbh.0 + i]);
        assert(data_pre_close[dbh.0 + i] == data_pre_fmeta[dbh.0 + i]);
        assert(data_pre_fmeta[dbh.0 + i] == enc_offsets(doc_offsets)[i]);
    };
    assert(bytes.subrange(dbh.0 as int, dbh.0 + dbh.1) =~= enc_offsets(doc_offsets));
    // the field-handle table decodes back
    lemma_fhs_round_trip(fhs_final, Seq::<u8>::empty());
    assert(enc_fhs(fhs_final) + Seq::<u8>::empty() =~= enc_fhs(fhs_final));
    assert forall|i: int| 0 <= i < fbh.1 implies bytes[fbh.0 + i] == enc_fhs(fhs_final)[i] by {
        assert(bytes[fbh.0 + i] == data_pre_close[fbh.0 + i]);
        assert(data_pre_close[fbh.0 + i] == enc_fhs(fhs_final)[i]);
    };
    assert(bytes.subrange(fbh.0 as int, fbh.0 + fbh.1) =~= enc_fhs(fhs_final));
    // every field region still answers
    assert forall|q: int| 0 <= q < fields.len() implies #[trigger] field_region_ok(
        bytes,
        fhs_final[q],
        fields[q],
    ) by {
        assert(bytes.take(data_pre_meta.len() as int) =~= data_pre_meta);
        lemma_field_region_stable(data_pre_meta, bytes, fhs_final[q], fields[q]);
    };
}

/// Serialises the whole in-memory index into one segment image: the log's
/// documents stay at the front; each field's postings and dictionary, the
/// document offsets, the field handles and the footer follow.
#[verifier::rlimit(100)]
pub fn flush_index(reader: &IndexReader<'_>) -> (r: GyResult<Vec<u8>>)
    requires
        reader.reader.wf(),
        !reader.reader.is_broken(),
    ensures
        (r is Ok <==> forall|i: int|
            0 <= i < reader.reader.spec_doc_offset().len() ==> (
            #[trigger] reader.reader.spec_doc_offset()[i]) <= u32::MAX),
        match r {
            Ok(bytes) => {
                let base = reader.reader;
                &&& bytes@.len() >= FOOTER_LEN
                &&& bytes@.subrange(bytes@.len() - 8, bytes@.len() as int) == spec_magic()
                &&& base.the_wal().flushed().len() <= bytes@.len()
                &&& bytes@.take(base.the_wal().flushed().len() as int) == base.the_wal().flushed()
                &&& ({
                    let fpos = bytes@.len() - FOOTER_LEN;
                    &&& dec_bh(bytes@.skip(fpos)) matches Some((dbh, k1)) && ({
                        let dbh = dec_bh(bytes@.skip(fpos)).unwrap().0;
                        let k1 = dec_bh(bytes@.skip(fpos)).unwrap().1;
                        &&& dbh.0 + dbh.1 <= bytes@.len()
                        &&& (dec_offsets(bytes@.subrange(dbh.0 as int, dbh.0 + dbh.1))
                            matches Some((offs, used)) && offs == base.spec_doc_offset())
                        &&& dec_bh(bytes@.skip(fpos + k1)) matches Some((fbh, k2)) && ({
                            let fbh = dec_bh(bytes@.skip(fpos + k1)).unwrap().0;
                            &&& fbh.0 + fbh.1 <= bytes@.len()
                            &&& (dec_fhs(bytes@.subrange(fbh.0 as int, fbh.0 + fbh.1))
                                matches Some((fhs, used2)) && ({
                                &&& fhs.len() == base.field_count()
                                &&& forall|f: int|
                                    0 <= f < base.field_count()
                                        ==> #[trigger] field_region_ok(
                                        bytes@,
                                        fhs[f],
                                        base.spec_fields()[f],
                                    )
                            }))
                        })
                    })
                })
            },
            Err(e) => e == GyError::Serialization,
        },
{
    let base = reader.reader;
    proof {
        base.lemma_wf_parts();
    }
    let wal_bytes = slice_to_vec(base.wal_ref().flushed_slice());
    let ghost wal0 = base.the_wal().flushed();
    let mut w = DiskStoreWriter::with_offset(wal_bytes);
    let nf = base.field_count_exec();
    let mut f: usize = 0;
    while f < nf
        invariant
            reader.reader == base,
            base.wf(),
            !base.is_broken(),
            nf == base.field_count(),
            nf == base.spec_fields().len(),
            f <= nf,
            wal0 == base.the_wal().flushed(),
            wal0.len() <= w.data@.len(),
            w.data@.take(wal0.len() as int) == wal0,
            w.index_block.entries() == Seq::<(Seq<u8>, u64)>::empty(),
            w.field_bhs@.len() == f,
            forall|q: int|
                0 <= q < f ==> #[trigger] field_region_ok(
                    w.data@,
                    w.field_bhs@[q],
                    base.spec_fields()[q],
                ),
        decreases nf - f,
    {
        match flush_one_field(&mut w, base, f, Ghost(wal0)) {
            Ok(_) => {},
            Err(e) => {
                proof {
                    assert(false);
                }
                return Err(e);
            },
        }
        f += 1;
    }
    // the document offset table
    let doc_offsets = base.doc_offsets_vec();
    let mut v: usize = 0;
    while v < doc_offsets.len()
        invariant
            reader.reader == base,
            doc_offsets@ == base.spec_doc_offset(),
            v <= doc_offsets@.len(),
            forall|i: int| 0 <= i < v ==> (#[trigger] doc_offsets@[i]) <= u32::MAX,
        decreases doc_offsets@.len() - v,
    {
        if doc_offsets[v] > u32::MAX as usize {
            proof {
                assert(reader.reader.spec_doc_offset()[v as int] > u32::MAX);
            }
            return Err(GyError::Serialization);
        }
        v += 1;
    }
    let ghost data_pre_meta = w.data@;
    let _ = w.write_doc_meta(&doc_offsets);
    let ghost dbh = w.doc_meta_bh;
    let ghost data_pre_fmeta = w.data@;
    let ghost fhs_final = w.field_bhs@;
    let _ = w.write_field_meta();
    let ghost fbh = w.field_meta_bh;
    let ghost data_pre_close = w.data@;
    match w.close() {
        Ok(_) => {},
        Err(e) => {
            proof {
                assert(false);
            }
            return Err(e);
        },
    }
    proof {
        vstd::std_specs::vec::axiom_spec_len(&w.data);
        assert(w.data@.take(data_pre_close.len() as int) == data_pre_close);
        lemma_flush_close(
            w.data@,
            data_pre_meta,
            data_pre_fmeta,
            data_pre_close,
            wal0,
            doc_offsets@,
            dbh,
            fbh,
            fhs_final,
            base.spec_fields(),
        );
        assert(doc_offsets@ == base.spec_doc_offset());
    }
    Ok(w.data)
}

/// A field-region promise survives appends: the region and the postings it
/// points at sit below the old end.
proof fn lemma_field_region_stable(
    d1: Seq<u8>,
    d2: Seq<u8>,
    fh: FieldHandle,
    cache: FieldCache,
)
    requires
        field_region_ok(d1, fh, cache),
        d2.len() >= d1.len(),
        d2.take(d1.len() as int) == d1,
    ensures
        field_region_ok(d2, fh, cache),
{
    assert(d2.subrange(fh.fst_bh.0 as int, fh.fst_bh.0 + fh.fst_bh.1) =~= d1.subrange(
        fh.fst_bh.0 as int,
        fh.fst_bh.0 + fh.fst_bh.1,
    ));
    assert forall|t: Seq<u8>| #[trigger] cache.hist().dom().contains(t) implies ({
        let region = d2.subrange(fh.fst_bh.0 as int, fh.fst_bh.0 + fh.fst_bh.1);
        &&& fst_map(region, esc_key(t)) matches Some(off) && ({
            let off = fst_map(region, esc_key(t)).unwrap() as int;
            let pb = enc_records(cache.posting_of(t).records@, 0);
            &&& 0 <= off
            &&& off + vu64_enc(pb.len() as u64).len() + pb.len() <= d2.len()
            &&& d2.subrange(off, off + vu64_enc(pb.len() as u64).len() + pb.len() as int)
                == vu64_enc(pb.len() as u64) + pb
        })
    }) by {
        let region1 = d1.subrange(fh.fst_bh.0 as int, fh.fst_bh.0 + fh.fst_bh.1);
        let off = fst_map(region1, esc_key(t)).unwrap() as int;
        let pb = enc_records(cache.posting_of(t).records@, 0);
        assert(d2.subrange(off, off + vu64_enc(pb.len() as u64).len() + pb.len() as int) =~= d1
            .subrange(off, off + vu64_enc(pb.len() as u64).len() + pb.len() as int));
    };
    assert forall|t1: Seq<u8>, t2: Seq<u8>|
        cache.hist().dom().contains(t1) && cache.hist().dom().contains(t2) && bytes_lt(t1, t2)
            implies ((#[trigger] fst_map(
            d2.subrange(fh.fst_bh.0 as int, fh.fst_bh.0 + fh.fst_bh.1),
            esc_key(t1),
        )) matches Some(o1) && ((#[trigger] fst_map(
            d2.subrange(fh.fst_bh.0 as int, fh.fst_bh.0 + fh.fst_bh.1),
            esc_key(t2),
        )) matches Some(o2) && o1 < o2)) by {
        let region1 = d1.subrange(fh.fst_bh.0 as int, fh.fst_bh.0 + fh.fst_bh.1);
        assert(fst_map(region1, esc_key(t1)) matches Some(o1) && (fst_map(
            region1,
            esc_key(t2),
        ) matches Some(o2) && o1 < o2));
    };
}

/// After a field's terms are all written, the sealed dictionary's answers
/// match the entry list.
proof fn lemma_entries_lookup_all(
    entries: Seq<(Seq<u8>, u64)>,
    pairs: Seq<(Vec<u8>, u64)>,
    cache: FieldCache,
    region: Seq<u8>,
)
    requires
        entries.len() == pairs.len(),
        forall|i: int| 0 <= i < entries.len() ==> (#[trigger] entries[i]).0 == esc_key(pairs[i].0@),
        forall|i1: int, i2: int|
            0 <= i1 < i2 < pairs.len() ==> bytes_lt(pairs[i1].0@, pairs[i2].0@),
    ensures
        forall|i: int, j: int|
            0 <= i < j < entries.len() ==> bytes_lt(
                (#[trigger] entries[i]).0,
                (#[trigger] entries[j]).0,
            ),
        forall|j: int|
            0 <= j < entries.len() && true ==> entries_lookup(entries, (#[trigger] entries[j]).0)
                == Some(entries[j].1),
{
    assert forall|i: int, j: int| 0 <= i < j < entries.len() implies bytes_lt(
        (#[trigger] entries[i]).0,
        (#[trigger] entries[j]).0,
    ) by {
        assert(bytes_lt(pairs[i].0@, pairs[j].0@));
        lemma_esc_lt(pairs[i].0@, pairs[j].0@);
    };
    assert forall|j: int| 0 <= j < entries.len() implies entries_lookup(
        entries,
        (#[trigger] entries[j]).0,
    ) == Some(entries[j].1) by {
        lemma_entries_lookup(entries, entries[j].0);
    };
}

/// Decoding a whole posting block: record after record, each document id
/// the running sum of the deltas.
pub open spec fn dec_records_list(b: Seq<u8>, last: DocID) -> Option<Seq<(DocID, u32)>>
    decreases b.len(),
{
    if b.len() == 0 {
        Some(Seq::empty())
    } else {
        match crate::schema::dec_doc_freq(b) {
            None => None,
            Some(((delta, freq), k)) => {
                if k < 1 || k > b.len() {
                    None
                } else {
                    let doc = last.wrapping_add(delta);
                    match dec_records_list(b.skip(k), doc) {
                        None => None,
                        Some(rest) => Some(seq![(doc, freq)] + rest),
                    }
                }
            },
        }
    }
}

/// Decoding an encoded posting block gives back its records.
pub proof fn lemma_enc_records_decodes(rs: Seq<(DocID, u32)>, base: DocID)
    requires
        crate::index::recs_ok(rs),
        rs.len() > 0 ==> base <= rs[0].0,
        base < 0x8000_0000_0000_0000,
    ensures
        dec_records_list(enc_records(rs, base), base) == Some(rs),
    decreases rs.len(),
{
    if rs.len() > 0 {
        let b = enc_records(rs, base);
        let delta = (rs[0].0 - base) as u64;
        let freq = rs[0].1;
        crate::schema::lemma_doc_freq_round_trip(
            delta,
            freq,
            enc_records(rs.drop_first(), rs[0].0),
        );
        assert(b == crate::schema::enc_doc_freq(delta, freq) + enc_records(
            rs.drop_first(),
            rs[0].0,
        ));
        let k = crate::schema::enc_doc_freq(delta, freq).len() as int;
        assert(b.skip(k) =~= enc_records(rs.drop_first(), rs[0].0));
        assert(base.wrapping_add(delta) == rs[0].0);
        assert(forall|i: int, j: int|
            0 <= i < j < rs.drop_first().len() ==> (#[trigger] rs.drop_first()[i]).0 < (
            #[trigger] rs.drop_first()[j]).0);
        assert(forall|i: int|
            0 <= i < rs.drop_first().len() ==> (#[trigger] rs.drop_first()[i]).0
                < 0x8000_0000_0000_0000 && (#[trigger] rs.drop_first()[i]).1 >= 1);
        if rs.len() > 1 {
            assert(rs.drop_first()[0] == rs[1]);
            assert(rs[0].0 < rs[1].0);
        }
        lemma_enc_records_decodes(rs.drop_first(), rs[0].0);
        assert(seq![rs[0]] + rs.drop_first() =~= rs);
        assert(k >= 1) by {
            crate::varint::lemma_vu64_enc_len(delta << 1 | 1);
            crate::varint::lemma_vu64_enc_len(delta << 1);
        };
    }
}

/// Decodes every record of one posting block.
fn decode_posting_block(b: &[u8]) -> (r: GyResult<Vec<DocFreq>>)
    ensures
        match r {
            Ok(v) => {
                &&& dec_records_list(b@, 0) matches Some(rs)
                &&& rs.len() == v@.len()
                &&& forall|i: int|
                    0 <= i < v@.len() ==> ((#[trigger] v@[i]).0, v@[i].1) == dec_records_list(
                        b@,
                        0,
                    ).unwrap()[i]
            },
            Err(e) => e == GyError::UnexpectedEof && dec_records_list(b@, 0) is None,
        },
{
    let mut out: Vec<DocFreq> = Vec::new();
    let mut pos: usize = 0;
    let mut last: DocID = 0;
    proof {
        assert(b@.skip(0) =~= b@);
    }
    loop
        invariant
            pos <= b@.len(),
            match dec_records_list(b@.skip(pos as int), last) {
                None => dec_records_list(b@, 0) is None,
                Some(rest) => dec_records_list(b@, 0) matches Some(all) && all.len() == out@.len()
                    + rest.len() && (forall|i: int|
                    0 <= i < out@.len() ==> ((#[trigger] out@[i]).0, out@[i].1) == all[i]) && (
                forall|i: int|
                    0 <= i < rest.len() ==> #[trigger] rest[i] == all[out@.len() + i]),
            },
        decreases b@.len() - pos,
    {
        let ghost rem = b@.skip(pos as int);
        if pos == b.len() {
            proof {
                assert(rem =~= Seq::<u8>::empty());
            }
            return Ok(out);
        }
        match DocFreq::binary_deserialize(b, pos) {
            Ok((df, end)) => {
                proof {
                    assert(b@.subrange(pos as int, b@.len() as int) == rem);
                }
                let doc = last.wrapping_add(df.0);
                proof {
                    assert(b@.skip(end as int) =~= rem.skip(end - pos as int));
                }
                let freq = df.1;
                out.push(DocFreq(doc, freq));
                proof {
                    assert(dec_records_list(rem, last) matches Some(r2) ==> r2[0] == (doc, freq)
                        && r2.drop_first() =~= dec_records_list(
                        rem.skip(end - pos as int),
                        doc,
                    ).unwrap());
                }
                pos = end;
                last = doc;
            },
            Err(_) => {
                return Err(GyError::UnexpectedEof);
            },
        }
    }
}

/// Walks one on-disk posting, yielding each document and its term count
/// with the delta encoding already resolved.
pub struct DiskPostingReader {
    pub last_docid: DocID,
    all: Vec<DocFreq>,
    i: usize,
}

impl DiskPostingReader {
    /// The decoded records.
    pub closed spec fn spec_all(&self) -> Seq<DocFreq> {
        self.all@
    }

    pub closed spec fn spec_at(&self) -> int {
        self.i as int
    }

    /// The next record, or `None` past the end.
    pub fn next(&mut self) -> (r: Option<DocFreq>)
        ensures
            final(self).spec_all() == old(self).spec_all(),
            match r {
                Some(df) => {
                    &&& old(self).spec_at() < old(self).spec_all().len()
                    &&& df.0 == old(self).spec_all()[old(self).spec_at()].0
                    &&& df.1 == old(self).spec_all()[old(self).spec_at()].1
                    &&& final(self).spec_at() == old(self).spec_at() + 1
                },
                None => {
                    &&& old(self).spec_at() >= old(self).spec_all().len()
                    &&& final(self).spec_at() == old(self).spec_at()
                },
            },
    {
        if self.i >= self.all.len() {
            return None;
        }
        let df = &self.all[self.i];
        let out = DocFreq(df.0, df.1);
        self.i += 1;
        Some(out)
    }
}

/// Whether a length-prefixed posting block decodes at `off` in `data`.
pub open spec fn posting_decodes(data: Seq<u8>, off: int) -> bool {
    &&& 0 <= off <= data.len()
    &&& dec_posting_at(data, off) is Some
}

/// The records of the length-prefixed posting block at `off` in `data`.
pub open spec fn dec_posting_at(data: Seq<u8>, off: int) -> Option<Seq<(DocID, u32)>> {
    match vu64_dec(data.skip(off)) {
        None => None,
        Some((plen, hlen)) => {
            if off + hlen + plen <= data.len() {
                dec_records_list(data.subrange(off + hlen, off + hlen + plen), 0)
            } else {
                None
            }
        },
    }
}

/// What `open` checks of a segment image: the magic, the two footer
/// handles, and both meta tables in range and well formed.
pub open spec fn segment_parses(data: Seq<u8>) -> bool {
    &&& data.len() >= FOOTER_LEN
    &&& data.subrange(data.len() - 8, data.len() as int) == spec_magic()
    &&& dec_bh(data.skip(data.len() - FOOTER_LEN)) is Some
    &&& ({
        let dbh = dec_bh(data.skip(data.len() - FOOTER_LEN)).unwrap().0;
        let k1 = dec_bh(data.skip(data.len() - FOOTER_LEN)).unwrap().1;
        &&& dec_bh(data.skip(data.len() - FOOTER_LEN + k1)) is Some
        &&& ({
            let fbh = dec_bh(data.skip(data.len() - FOOTER_LEN + k1)).unwrap().0;
            &&& dbh.0 + dbh.1 <= data.len()
            &&& fbh.0 + fbh.1 <= data.len()
            &&& dec_offsets(data.subrange(dbh.0 as int, dbh.0 + dbh.1)) is Some
            &&& dec_fhs(data.subrange(fbh.0 as int, fbh.0 + fbh.1)) is Some
        })
    })
}

/// Reads an immutable segment: parses the footer and the two meta blocks,
/// then serves term and document lookups from the raw bytes.
pub struct DiskStoreReader {
    pub data: Vec<u8>,
    pub fields_meta: Vec<FieldHandle>,
    pub doc_meta: Vec<usize>,
}

impl DiskStoreReader {
    /// The raw segment bytes.
    pub open spec fn bytes(&self) -> Seq<u8> {
        self.data@
    }

    /// Opens a segment image: checks the trailing magic, then reads the
    /// document-offset table and the per-field handles. Succeeds exactly
    /// on images whose footer and meta tables parse, and hands back those
    /// tables decoded.
    pub fn open(data: Vec<u8>) -> (r: GyResult<DiskStoreReader>)
        ensures
            r is Ok <==> segment_parses(data@),
            match r {
                Ok(sr) => {
                    &&& sr.bytes() == data@
                    &&& data@.len() >= FOOTER_LEN
                    &&& data@.subrange(data@.len() - 8, data@.len() as int) == spec_magic()
                    &&& ({
                        let dbh = dec_bh(data@.skip(data@.len() - FOOTER_LEN)).unwrap().0;
                        let k1 = dec_bh(data@.skip(data@.len() - FOOTER_LEN)).unwrap().1;
                        let fbh = dec_bh(data@.skip(data@.len() - FOOTER_LEN + k1)).unwrap().0;
                        &&& sr.doc_meta@ == dec_offsets(
                            data@.subrange(dbh.0 as int, dbh.0 + dbh.1),
                        ).unwrap().0
                        &&& sr.fields_meta@ == dec_fhs(
                            data@.subrange(fbh.0 as int, fbh.0 + fbh.1),
                        ).unwrap().0
                    })
                },
                Err(e) => {
                    &&& (e == GyError::BadMagicNumber <==> data@.len() >= FOOTER_LEN && data@
                        .subrange(data@.len() - 8, data@.len() as int) != spec_magic())
                    &&& (e == GyError::UnexpectedEof <==> data@.len() < FOOTER_LEN)
                    &&& (e == GyError::BadMagicNumber || e == GyError::UnexpectedEof || e
                        == GyError::Serialization)
                },
            },
    {
        if data.len() < FOOTER_LEN {
            return Err(GyError::UnexpectedEof);
        }
        let n = data.len();
        let magic = magic_bytes();
        let tail8 = slice_subrange(data.as_slice(), n - 8, n);
        if !crate::schema::bytes_eq(tail8, magic.as_slice()) {
            proof {
                assert(tail8@ =~= data@.subrange(data@.len() - 8, data@.len() as int));
            }
            return Err(GyError::BadMagicNumber);
        }
        proof {
            assert(tail8@ =~= data@.subrange(data@.len() - 8, data@.len() as int));
        }
        let footer_pos = n - FOOTER_LEN;
        proof {
            assert(data@.subrange(footer_pos as int, data@.len() as int) =~= data@.skip(
                data@.len() - FOOTER_LEN,
            ));
        }
        let (doc_meta_bh, p1) = match BlockHandle::deserialize(data.as_slice(), footer_pos) {
            Ok(x) => x,
            Err(_) => {
                return Err(GyError::Serialization);
            },
        };
        proof {
            assert(data@.subrange(p1 as int, data@.len() as int) =~= data@.skip(
                data@.len() - FOOTER_LEN + (p1 - footer_pos),
            ));
        }
        let (field_meta_bh, _p2) = match BlockHandle::deserialize(data.as_slice(), p1) {
            Ok(x) => x,
            Err(_) => {
                return Err(GyError::Serialization);
            },
        };
        if doc_meta_bh.1 > n || doc_meta_bh.0 > n - doc_meta_bh.1 {
            return Err(GyError::Serialization);
        }
        if field_meta_bh.1 > n || field_meta_bh.0 > n - field_meta_bh.1 {
            return Err(GyError::Serialization);
        }
        let doc_region = slice_subrange(
            data.as_slice(),
            doc_meta_bh.0,
            doc_meta_bh.0 + doc_meta_bh.1,
        );
        let doc_meta = match read_offsets(doc_region) {
            Ok(v) => v,
            Err(e) => {
                return Err(GyError::Serialization);
            },
        };
        let field_region = slice_subrange(
            data.as_slice(),
            field_meta_bh.0,
            field_meta_bh.0 + field_meta_bh.1,
        );
        let fields_meta = match read_field_handles(field_region) {
            Ok(v) => v,
            Err(e) => {
                return Err(GyError::Serialization);
            },
        };
        Ok(DiskStoreReader { data, fields_meta, doc_meta })
    }

    /// Every field region the handle table points at carries a sealed
    /// dictionary. This holds of every image `flush_index` writes; of
    /// bytes from elsewhere it is the caller's claim, and term lookups
    /// demand it.
    pub open spec fn sealed_segment(&self) -> bool {
        forall|f: int|
            0 <= f < self.fields_meta@.len() ==> ({
                let fh = #[trigger] self.fields_meta@[f];
                fh.fst_bh.0 + fh.fst_bh.1 <= self.data@.len() && fh.fst_bh.1 >= 2
                    ==> crate::fst::fst_sealed(
                    self.data@.subrange(fh.fst_bh.0 as int, fh.fst_bh.0 + fh.fst_bh.1),
                )
            })
    }

    /// A term-dictionary reader over one field: exactly the fields the
    /// handle table lists, with their dictionary region in range.
    pub fn field_reader(&self, field_id: u32) -> (r: GyResult<DiskFieldReader<'_>>)
        requires
            self.sealed_segment(),
        ensures
            r is Ok <==> field_id < self.fields_meta@.len() && ({
                let fh = self.fields_meta@[field_id as int];
                fh.fst_bh.0 + fh.fst_bh.1 <= self.bytes().len()
            }),
            match r {
                Ok(fr) => {
                    let fh = self.fields_meta@[field_id as int];
                    &&& fr.wf()
                    &&& fr.region@ == self.bytes().subrange(
                        fh.fst_bh.0 as int,
                        fh.fst_bh.0 + fh.fst_bh.1,
                    )
                    &&& fr.data@ == self.bytes()
                },
                Err(e) => e == GyError::TermNotFound,
            },
    {
        if field_id as usize >= self.fields_meta.len() {
            return Err(GyError::TermNotFound);
        }
        let fh = &self.fields_meta[field_id as usize];
        let n = self.data.len();
        if fh.fst_bh.1 > n || fh.fst_bh.0 > n - fh.fst_bh.1 {
            return Err(GyError::TermNotFound);
        }
        let region = slice_subrange(self.data.as_slice(), fh.fst_bh.0, fh.fst_bh.0 + fh.fst_bh.1);
        Ok(DiskFieldReader {
            fst: FstReader::load(region),
            region,
            data: self.data.as_slice(),
        })
    }

    /// Resolves a term to its posting and decodes it: succeeds exactly
    /// when the term's field has an in-range dictionary that maps the
    /// escaped term to a decodable posting block, and then yields that
    /// block's records from the start.
    pub fn search(&self, term: &Term) -> (r: GyResult<DiskPostingReader>)
        requires
            self.sealed_segment(),
        ensures
            r is Ok <==> term.field_id.0 < self.fields_meta@.len() && ({
                let fh = self.fields_meta@[term.field_id.0 as int];
                let region = self.bytes().subrange(fh.fst_bh.0 as int, fh.fst_bh.0 + fh.fst_bh.1);
                &&& fh.fst_bh.0 + fh.fst_bh.1 <= self.bytes().len()
                &&& region.len() >= 2
                &&& fst_map(region, esc_key(term.bytes@)) matches Some(off) && posting_decodes(
                    self.bytes(),
                    off as int,
                )
            }),
            match r {
                Ok(pr) => {
                    let fh = self.fields_meta@[term.field_id.0 as int];
                    let region = self.bytes().subrange(
                        fh.fst_bh.0 as int,
                        fh.fst_bh.0 + fh.fst_bh.1,
                    );
                    let off = fst_map(region, esc_key(term.bytes@)).unwrap() as int;
                    &&& pr.spec_at() == 0
                    &&& dec_posting_at(self.bytes(), off) matches Some(rs) && rs.len()
                        == pr.spec_all().len() && (forall|i: int|
                        0 <= i < rs.len() ==> ((#[trigger] pr.spec_all()[i]).0,
                        pr.spec_all()[i].1) == rs[i])
                },
                Err(e) => e == GyError::TermNotFound || e == GyError::UnexpectedEof,
            },
    {
        let fr = match self.field_reader(term.field_id.0) {
            Ok(fr) => fr,
            Err(e) => {
                return Err(e);
            },
        };
        fr.get(term.bytes_value())
    }

    /// Reads document `doc_id` back: succeeds exactly when the offset
    /// table lists the document, points into the image, and a document
    /// decodes there; `DocumentNotFound` exactly past the table.
    pub fn doc(&self, doc_id: DocID) -> (r: GyResult<Document>)
        ensures
            r is Ok <==> doc_id < self.doc_meta@.len() && self.doc_meta@[doc_id as int]
                <= self.bytes().len() && crate::schema::dec_doc(
                self.bytes().skip(self.doc_meta@[doc_id as int] as int),
            ) is Some,
            match r {
                Ok(d) => doc_id < self.doc_meta@.len() && (crate::schema::dec_doc(
                    self.bytes().skip(self.doc_meta@[doc_id as int] as int),
                ) matches Some((dv, n)) && dv == d@),
                Err(e) => {
                    &&& (e == GyError::DocumentNotFound <==> doc_id >= self.doc_meta@.len())
                    &&& (e == GyError::DocumentNotFound || e == GyError::UnexpectedEof || e
                        == GyError::InvalidValueType || e == GyError::Serialization)
                },
            },
    {
        if doc_id >= self.doc_meta.len() as u64 {
            return Err(GyError::DocumentNotFound);
        }
        let off = self.doc_meta[doc_id as usize];
        if off > self.data.len() {
            return Err(GyError::UnexpectedEof);
        }
        proof {
            assert(self.data@.subrange(off as int, self.data@.len() as int) =~= self.bytes().skip(
                off as int,
            ));
        }
        match Document::binary_deserialize(self.data.as_slice(), off) {
            Ok((d, _)) => Ok(d),
            Err(_) => Err(GyError::Serialization),
        }
    }
}

/// Looks terms up in one field of a segment.
pub struct DiskFieldReader<'a> {
    pub fst: FstReader<'a>,
    pub region: &'a [u8],
    pub data: &'a [u8],
}

impl<'a> DiskFieldReader<'a> {
    /// The dictionary reads from exactly `region`, and where `region` is
    /// more than the single byte an empty dictionary is, it was sealed by
    /// the builder.
    pub open spec fn wf(&self) -> bool {
        &&& crate::fst::fst_reader_bytes(&self.fst) == self.region@
        &&& (self.region@.len() >= 2 ==> crate::fst::fst_sealed(self.region@))
    }

    /// The posting of `term`: looks its offset up in the dictionary, reads
    /// the length prefix there, and decodes the records. Succeeds exactly
    /// when the dictionary maps the escaped term to a decodable posting
    /// block; an empty dictionary holds no term.
    pub fn get(&self, term: &[u8]) -> (r: GyResult<DiskPostingReader>)
        requires
            self.wf(),
        ensures
            r is Ok <==> self.region@.len() >= 2 && (fst_map(self.region@, esc_key(term@))
                matches Some(off) && posting_decodes(self.data@, off as int)),
            (self.region@.len() < 2 || fst_map(self.region@, esc_key(term@)) is None) ==> r
                == GyResult::<DiskPostingReader>::Err(GyError::TermNotFound),
            match r {
                Ok(pr) => {
                    let off = fst_map(self.region@, esc_key(term@)).unwrap() as int;
                    &&& pr.spec_at() == 0
                    &&& dec_posting_at(self.data@, off) matches Some(rs) && rs.len()
                        == pr.spec_all().len() && (forall|i: int|
                        0 <= i < rs.len() ==> ((#[trigger] pr.spec_all()[i]).0,
                        pr.spec_all()[i].1) == rs[i])
                },
                Err(e) => e == GyError::TermNotFound || e == GyError::UnexpectedEof,
            },
    {
        if self.region.len() < 2 {
            return Err(GyError::TermNotFound);
        }
        let ekey = escape_term(term);
        let off64 = match self.fst.get(ekey.as_slice()) {
            Ok(o) => o,
            Err(e) => {
                return Err(e);
            },
        };
        if off64 > self.data.len() as u64 {
            return Err(GyError::UnexpectedEof);
        }
        let off = off64 as usize;
        let (plen, hend) = match read_vu64(self.data, off) {
            Ok(x) => x,
            Err(e) => {
                proof {
                    assert(self.data@.subrange(off as int, self.data@.len() as int)
                        =~= self.data@.skip(off as int));
                }
                return Err(e);
            },
        };
        proof {
            assert(self.data@.subrange(off as int, self.data@.len() as int) =~= self.data@.skip(
                off as int,
            ));
        }
        if plen > (self.data.len() - hend) as u64 {
            return Err(GyError::UnexpectedEof);
        }
        let pstart = hend;
        let pend = hend + plen as usize;
        let block = slice_subrange(self.data, pstart, pend);
        proof {
            let offg = off as int;
            let hlen = hend - offg;
            assert(block@ =~= self.data@.subrange(offg + hlen, offg + hlen + plen));
        }
        let all = match decode_posting_block(block) {
            Ok(v) => v,
            Err(e) => {
                return Err(e);
            },
        };
        let r = DiskPostingReader { last_docid: 0, all, i: 0 };
        Ok(r)
    }
}

/// Reads a four-byte-offset table from the front of `region`.
fn read_offsets(region: &[u8]) -> (r: GyResult<Vec<usize>>)
    ensures
        match r {
            Ok(v) => dec_offsets(region@) matches Some((s, _)) && v@ == s,
            Err(e) => e == GyError::UnexpectedEof && dec_offsets(region@) is None,
        },
{
    let (n64, p0) = match read_vu64(region, 0) {
        Ok(x) => x,
        Err(e) => {
            proof {
                assert(region@.subrange(0, region@.len() as int) =~= region@);
            }
            return Err(GyError::UnexpectedEof);
        },
    };
    proof {
        assert(region@.subrange(0, region@.len() as int) =~= region@);
    }
    let mut out: Vec<usize> = Vec::new();
    let mut pos = p0;
    let mut k: u64 = 0;
    while k < n64
        invariant
            p0 <= pos <= region@.len(),
            k <= n64,
            vu64_dec(region@) == Some((n64, p0 as int)),
            out@.len() == k,
            match dec_offsets_body(region@.skip(pos as int), (n64 - k) as u64) {
                None => dec_offsets_body(region@.skip(p0 as int), n64) is None,
                Some((s2, m)) => dec_offsets_body(region@.skip(p0 as int), n64) matches Some(
                    (s, m0),
                ) && s =~= out@ + s2,
            },
        decreases n64 - k,
    {
        let ghost rem = region@.skip(pos as int);
        if region.len() < 4 || pos > region.len() - 4 {
            proof {
                assert(rem.len() < 4);
                assert(dec_offsets_body(rem, (n64 - k) as u64) is None);
            }
            return Err(GyError::UnexpectedEof);
        }
        let (v32, p2) = match crate::schema::read_u32_be(region, pos) {
            Ok(x) => x,
            Err(_) => {
                proof {
                    assert(false);
                }
                return Err(GyError::UnexpectedEof);
            },
        };
        proof {
            assert(region@.subrange(pos as int, region@.len() as int) == rem);
            assert(region@.skip(p2 as int) =~= rem.skip(4));
            assert(be32_val(rem) == v32);
        }
        out.push(v32 as usize);
        pos = p2;
        k = k + 1;
        proof {
            assert(match dec_offsets_body(region@.skip(pos as int), (n64 - k) as u64) {
                None => true,
                Some((s2, m)) => seq![v32 as usize] + s2 =~= dec_offsets_body(
                    rem,
                    (n64 - k + 1) as u64,
                ).unwrap().0,
            });
        }
    }
    proof {
        assert(region@.skip(pos as int).len() >= 0);
        assert(dec_offsets_body(region@.skip(pos as int), 0) == Some(
            (Seq::<usize>::empty(), 0int),
        ));
        assert(out@ + Seq::<usize>::empty() =~= out@);
    }
    Ok(out)
}

/// Reads the per-field handle table from the front of `region`.
fn read_field_handles(b: &[u8]) -> (r: GyResult<Vec<FieldHandle>>)
    ensures
        match r {
            Ok(v) => dec_fhs(b@) matches Some((s, _)) && v@ == s,
            Err(e) => e == GyError::UnexpectedEof && dec_fhs(b@) is None,
        },
{
    let (n64, p0) = match read_vu64(b, 0) {
        Ok(x) => x,
        Err(e) => {
            proof {
                assert(b@.subrange(0, b@.len() as int) =~= b@);
            }
            return Err(GyError::UnexpectedEof);
        },
    };
    proof {
        assert(b@.subrange(0, b@.len() as int) =~= b@);
    }
    let mut out: Vec<FieldHandle> = Vec::new();
    let mut pos = p0;
    let mut k: u64 = 0;
    while k < n64
        invariant
            p0 <= pos <= b@.len(),
            k <= n64,
            vu64_dec(b@) == Some((n64, p0 as int)),
            out@.len() == k,
            match dec_fhs_body(b@.skip(pos as int), (n64 - k) as u64) {
                None => dec_fhs_body(b@.skip(p0 as int), n64) is None,
                Some((s2, m)) => dec_fhs_body(b@.skip(p0 as int), n64) matches Some(
                    (s, m0),
                ) && s =~= out@ + s2,
            },
        decreases n64 - k,
    {
        let ghost rem = b@.skip(pos as int);
        let (fh, p2) = match FieldHandle::deserialize(b, pos) {
            Ok(x) => x,
            Err(e) => {
                proof {
                    assert(b@.subrange(pos as int, b@.len() as int) == rem);
                    assert(dec_fhs_body(rem, (n64 - k) as u64) is None);
                }
                return Err(GyError::UnexpectedEof);
            },
        };
        proof {
            assert(b@.subrange(pos as int, b@.len() as int) == rem);
            assert(b@.skip(p2 as int) =~= rem.skip(p2 - pos as int));
            assert(dec_fh(rem) == Some((fh, p2 - pos as int)));
        }
        out.push(fh);
        pos = p2;
        k = k + 1;
        proof {
            assert(match dec_fhs_body(b@.skip(pos as int), (n64 - k) as u64) {
                None => true,
                Some((s2, m)) => seq![fh] + s2 =~= dec_fhs_body(
                    rem,
                    (n64 - k + 1) as u64,
                ).unwrap().0,
            });
        }
    }
    proof {
        assert(dec_fhs_body(b@.skip(pos as int), 0) == Some((Seq::<FieldHandle>::empty(), 0int)));
        assert(out@ + Seq::<FieldHandle>::empty() =~= out@);
    }
    Ok(out)
}

} // verus!
