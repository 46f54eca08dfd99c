//! The on-disk term dictionary: a finite-state transducer mapping byte-string
//! keys, fed in ascending order, to unsigned values.
//!
//! The transducer itself is built and queried by the `furze` crate; these
//! wrappers state what those calls return.
use crate::{GyError, GyResult};
use vstd::prelude::*;

verus! {

/// Strict lexicographic order on byte strings.
pub open spec fn bytes_lt(a: Seq<u8>, b: Seq<u8>) -> bool
    decreases a.len() + b.len(),
{
    if b.len() == 0 {
        false
    } else if a.len() == 0 {
        true
    } else if a[0] < b[0] {
        true
    } else if a[0] > b[0] {
        false
    } else {
        bytes_lt(a.drop_first(), b.drop_first())
    }
}

/// The value a key maps to in the entry list, if any.
pub open spec fn entries_lookup(es: Seq<(Seq<u8>, u64)>, k: Seq<u8>) -> Option<u64>
    decreases es.len(),
{
    if es.len() == 0 {
        None
    } else if es.last().0 == k {
        Some(es.last().1)
    } else {
        entries_lookup(es.drop_last(), k)
    }
}

/// What looking `key` up in the encoded dictionary `bytes` yields. The
/// encoding determines every lookup, so this is a function of the two.
pub uninterp spec fn fst_map(bytes: Seq<u8>, key: Seq<u8>) -> Option<u64>;

/// Whether `bytes` are a dictionary the builder sealed. Only such bytes
/// may go back to the decoder; of its walk over anything else nothing is
/// claimed.
pub uninterp spec fn fst_sealed(bytes: Seq<u8>) -> bool;

/// The shape of every key the dictionary is built from and asked about:
/// digit symbols `2..=9`, closed by a single `1`. The decoder's walk over
/// a trie of such keys consumes its one `1` only as its last step, so it
/// never stands on an entry's final state with symbols left — the one
/// position from which it would read an entry's siblings in place as
/// children and answer wrongly.
pub open spec fn fst_keylike(k: Seq<u8>) -> bool {
    &&& k.len() > 0
    &&& k.last() == 1
    &&& forall|i: int| 0 <= i < k.len() - 1 ==> 2 <= (#[trigger] k[i]) <= 9
}

/// The `(key, value)` entries a builder has taken so far, in order.
pub uninterp spec fn fst_builder_entries(b: &FstBuilder) -> Seq<(Seq<u8>, u64)>;

/// The serialised dictionary a builder has produced.
pub uninterp spec fn fst_builder_bytes(b: &FstBuilder) -> Seq<u8>;

/// The bytes a loaded dictionary reads from.
pub uninterp spec fn fst_reader_bytes(r: &FstReader) -> Seq<u8>;

/// Builds the term dictionary. Holds `furze::Builder`, which Verus does
/// not read; the methods below say what its calls do.
#[verifier::external_body]
pub struct FstBuilder {
    fst: furze::Builder<Vec<u8>>,
}

impl FstBuilder {
    /// Relies on `furze::Builder::new`: a fresh builder holds no entries.
    #[verifier::external_body]
    pub fn new() -> (r: FstBuilder)
        ensures
            fst_builder_entries(&r) == Seq::<(Seq<u8>, u64)>::empty(),
    {
        FstBuilder { fst: furze::Builder::new(Vec::with_capacity(4 * 1024 * 1024)) }
    }

    /// Relies on `furze::Builder::add`: with keys handed over in strictly
    /// ascending order, each call records one more entry; the builder only
    /// writes into a byte vector, so the call cannot fail. Keys must be
    /// key-shaped (`fst_keylike`): their nine-symbol alphabet keeps every
    /// trie node below the child count at which the sealed form switches
    /// to the array layout whose search does not return on some absent
    /// keys, and the single closing `1` keeps any key from being a proper
    /// prefix of another.
    #[verifier::external_body]
    pub fn add(&mut self, key: &[u8], val: u64) -> (r: GyResult<()>)
        requires
            fst_keylike(key@),
            forall|i: int|
                0 <= i < fst_builder_entries(old(self)).len() ==> bytes_lt(
                    #[trigger] fst_builder_entries(old(self))[i].0,
                    key@,
                ),
        ensures
            r is Ok,
            fst_builder_entries(final(self)) == fst_builder_entries(old(self)).push((key@, val)),
    {
        match self.fst.add(key, val) {
            Ok(_) => Ok(()),
            Err(_) => Err(GyError::Serialization),
        }
    }

    /// Relies on `furze::Builder::finish`: it seals the transducer, whose
    /// byte form then answers exactly the recorded entries for every
    /// key-shaped query. Over key-shaped entries the symbol `1` labels
    /// only entry-final, childless states, so a key-shaped walk follows
    /// real arcs the whole way: each digit lands on a state with a child
    /// node to move to, and the single `1` is consumed last — never the
    /// in-place continuation past an entry's end, nor (nine symbols) the
    /// wide-node search, on which the decoder misanswers or does not
    /// return. Of queries of any other shape nothing is claimed. Writing
    /// goes into a byte vector, so the call cannot fail; a sealed
    /// non-empty dictionary is longer than the single byte an empty one
    /// is.
    #[verifier::external_body]
    pub fn finish(&mut self) -> (r: GyResult<()>)
        ensures
            r is Ok,
            fst_sealed(fst_builder_bytes(final(self))),
            fst_builder_entries(old(self)).len() > 0 ==> fst_builder_bytes(final(self)).len()
                >= 2,
            forall|k: Seq<u8>|
                fst_keylike(k) ==> #[trigger] fst_map(fst_builder_bytes(final(self)), k)
                    == entries_lookup(fst_builder_entries(old(self)), k),
    {
        match self.fst.finish() {
            Ok(_) => Ok(()),
            Err(_) => Err(GyError::Serialization),
        }
    }

    /// Relies on `furze::Builder::get`: it exposes the bytes written so
    /// far.
    #[verifier::external_body]
    pub fn get_ref(&self) -> (r: &[u8])
        ensures
            r@ == fst_builder_bytes(self),
    {
        self.fst.get().as_slice()
    }

    /// Relies on `furze::Builder::reset`: it empties the builder, writing
    /// only into its byte vector, so the call cannot fail.
    #[verifier::external_body]
    pub fn reset(&mut self) -> (r: GyResult<()>)
        ensures
            r is Ok,
            fst_builder_entries(final(self)) == Seq::<(Seq<u8>, u64)>::empty(),
    {
        match self.fst.reset() {
            Ok(_) => Ok(()),
            Err(_) => Err(GyError::Serialization),
        }
    }
}

/// Queries an encoded term dictionary. Holds `furze::FST` over a borrowed
/// byte slice.
#[verifier::external_body]
pub struct FstReader<'a> {
    fst: furze::FST<&'a [u8]>,
}

impl<'a> FstReader<'a> {
    /// Relies on `furze::FST::load`: it reads from exactly the given bytes.
    #[verifier::external_body]
    pub fn load(b: &'a [u8]) -> (r: FstReader<'a>)
        ensures
            fst_reader_bytes(&r) == b@,
    {
        FstReader { fst: furze::FST::load(b) }
    }

    /// Relies on `furze::FST::get` (through `furze`'s decoder): the
    /// result is a function of the loaded bytes and the key, named
    /// `fst_map`; what that name answers on a sealed dictionary is stated
    /// at `finish`, for key-shaped queries. The `requires` keep out the
    /// inputs on which the decoder might not return: an empty dictionary,
    /// whose single byte it reads past; any node wide enough for its
    /// array search, whose bound underflows on keys below the node's
    /// smallest label — never built from key-shaped entries; and queries
    /// not key-shaped, whose walk can run past an entry's end and parse
    /// arbitrary earlier bytes as a node.
    #[verifier::external_body]
    pub fn get(&self, key: &[u8]) -> (r: GyResult<u64>)
        requires
            fst_sealed(fst_reader_bytes(self)),
            fst_reader_bytes(self).len() >= 2,
            fst_keylike(key@),
        ensures
            match fst_map(fst_reader_bytes(self), key@) {
                Some(v) => r == GyResult::<u64>::Ok(v),
                None => r == GyResult::<u64>::Err(GyError::TermNotFound),
            },
    {
        match self.fst.get(key) {
            Ok(u) => Ok(u),
            Err(_) => Err(GyError::TermNotFound),
        }
    }
}

} // verus!
