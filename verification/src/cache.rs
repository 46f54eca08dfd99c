//! The slab byte pool.
//!
//! The pool owns a growing vector of fixed-size pages. Streams of bytes are
//! laid out as chains of variable-sized blocks inside the pages: each block
//! ends with a four-byte slot that holds the absolute address of the next
//! block, and block sizes follow a fixed schedule so that a chain's block
//! sizes are determined by its length alone. One writer appends; written
//! bytes are never changed again, so readers can walk a chain at any time.
use crate::schema::{be32, be32_val};
use crate::{GyError, GyResult};
use vstd::prelude::*;

verus! {

/// Size of one pool page.
pub const BYTE_BLOCK_SIZE: usize = 32768;

/// Width of the forward-pointer slot at the end of each block.
pub const POINTER_LEN: usize = 4;

pub type Addr = usize;

/// The block size for each size-class level: 9 bytes at level 0, one more
/// per level, 18 at the top.
pub open spec fn spec_block_size(l: int) -> int {
    if l <= 0 {
        9
    } else if l >= 9 {
        18
    } else {
        9 + l
    }
}

/// The data bytes a block holds: everything but the pointer slot.
pub open spec fn spec_block_cap(l: int) -> int {
    spec_block_size(l) - 4
}

/// The size-class level that follows `l`, saturating at the top.
pub open spec fn spec_level_next(l: int) -> int {
    if l >= 8 {
        9
    } else {
        l + 1
    }
}

pub fn block_size(level: usize) -> (r: usize)
    requires
        level <= 9,
    ensures
        r == spec_block_size(level as int),
{
    9 + level
}

pub fn level_next(level: usize) -> (r: usize)
    requires
        level <= 9,
    ensures
        r == spec_level_next(level as int),
{
    if level >= 8 {
        9
    } else {
        level + 1
    }
}

/// The forward pointer stored at `p`: four big-endian bytes.
pub open spec fn ptr_at(flat: Seq<u8>, p: int) -> int {
    be32_val(flat.subrange(p, p + 4)) as int
}

/// What walking a block chain yields: its data bytes, and where its last
/// block starts and at which level.
pub ghost struct ChainView {
    pub bytes: Seq<u8>,
    pub tail: int,
    pub tail_level: int,
}

/// Walks the chain that starts at `s` on level `l` until the write position
/// `pos`, which must lie in the last block. Yields `None` when the chain is
/// malformed.
pub open spec fn walk(flat: Seq<u8>, s: int, l: int, pos: int) -> Option<ChainView>
    decreases pos - s,
{
    if !(0 <= l <= 9) || s < 0 || pos < s || s + spec_block_size(l) > flat.len() {
        None
    } else if pos - s <= spec_block_cap(l) {
        Some(ChainView { bytes: flat.subrange(s, pos), tail: s, tail_level: l })
    } else {
        let ptr = ptr_at(flat, s + spec_block_cap(l));
        if s + spec_block_size(l) <= ptr <= pos {
            match walk(flat, ptr, spec_level_next(l), pos) {
                None => None,
                Some(cv) => Some(
                    ChainView {
                        bytes: flat.subrange(s, s + spec_block_cap(l)) + cv.bytes,
                        tail: cv.tail,
                        tail_level: cv.tail_level,
                    },
                ),
            }
        } else {
            None
        }
    }
}

/// Whether byte index `i` lies in one of the chain's blocks.
pub open spec fn in_span(flat: Seq<u8>, s: int, l: int, pos: int, i: int) -> bool
    decreases pos - s,
{
    if !(0 <= l <= 9) || s < 0 || pos < s || s + spec_block_size(l) > flat.len() {
        false
    } else if pos - s <= spec_block_cap(l) {
        s <= i < s + spec_block_size(l)
    } else {
        let ptr = ptr_at(flat, s + spec_block_cap(l));
        if s + spec_block_size(l) <= ptr <= pos {
            (s <= i < s + spec_block_size(l)) || in_span(flat, ptr, spec_level_next(l), pos, i)
        } else {
            false
        }
    }
}

/// A well-formed chain's blocks lie between its start and the end of the
/// pool, and its tail block is one of them.
pub proof fn lemma_walk_basics(flat: Seq<u8>, s: int, l: int, pos: int)
    requires
        walk(flat, s, l, pos) is Some,
    ensures
        ({
            let cv = walk(flat, s, l, pos).unwrap();
            &&& s <= cv.tail <= pos
            &&& cv.tail + spec_block_size(cv.tail_level) <= flat.len()
            &&& 0 <= cv.tail_level <= 9
            &&& pos - cv.tail <= spec_block_cap(cv.tail_level)
            &&& pos <= flat.len()
            &&& forall|i: int| in_span(flat, s, l, pos, i) ==> s <= i < flat.len()
            &&& forall|i: int| cv.tail <= i < cv.tail + spec_block_size(cv.tail_level) ==> in_span(
                flat,
                s,
                l,
                pos,
                i,
            )
        }),
    decreases pos - s,
{
    let cv = walk(flat, s, l, pos).unwrap();
    if pos - s <= spec_block_cap(l) {
        assert(s <= cv.tail <= pos);
        assert(cv.tail + spec_block_size(cv.tail_level) <= flat.len());
        assert(forall|i: int| in_span(flat, s, l, pos, i) ==> s <= i < flat.len());
        assert(forall|i: int|
            cv.tail <= i < cv.tail + spec_block_size(cv.tail_level) ==> in_span(flat, s, l, pos, i));
    } else {
        let ptr = ptr_at(flat, s + spec_block_cap(l));
        lemma_walk_basics(flat, ptr, spec_level_next(l), pos);
        let sub = walk(flat, ptr, spec_level_next(l), pos).unwrap();
        assert(cv.tail == sub.tail && cv.tail_level == sub.tail_level);
        assert(s <= cv.tail <= pos);
        assert(cv.tail + spec_block_size(cv.tail_level) <= flat.len());
        assert forall|i: int| in_span(flat, s, l, pos, i) implies s <= i < flat.len() by {
            if !(s <= i < s + spec_block_size(l)) {
                assert(in_span(flat, ptr, spec_level_next(l), pos, i));
            }
        };
        assert forall|i: int|
            cv.tail <= i < cv.tail + spec_block_size(cv.tail_level) implies in_span(
            flat,
            s,
            l,
            pos,
            i,
        ) by {
            assert(in_span(flat, ptr, spec_level_next(l), pos, i));
        };
    }
}

/// Walking reads nothing outside the chain's blocks: a pool that agrees on
/// those bytes yields the same walk.
pub proof fn lemma_walk_frame(f1: Seq<u8>, f2: Seq<u8>, s: int, l: int, pos: int)
    requires
        walk(f1, s, l, pos) is Some,
        f2.len() >= f1.len(),
        forall|i: int| in_span(f1, s, l, pos, i) ==> f2[i] == f1[i],
    ensures
        walk(f2, s, l, pos) == walk(f1, s, l, pos),
        forall|i: int| in_span(f2, s, l, pos, i) == in_span(f1, s, l, pos, i),
    decreases pos - s,
{
    if pos - s <= spec_block_cap(l) {
        assert(f2.subrange(s, pos) =~= f1.subrange(s, pos));
    } else {
        let cap = spec_block_cap(l);
        assert(f2.subrange(s + cap, s + cap + 4) =~= f1.subrange(s + cap, s + cap + 4));
        let ptr = ptr_at(f1, s + cap);
        assert(ptr_at(f2, s + cap) == ptr);
        assert forall|i: int| in_span(f1, ptr, spec_level_next(l), pos, i) implies f2[i] == f1[i] by {
            assert(in_span(f1, s, l, pos, i));
        };
        lemma_walk_frame(f1, f2, ptr, spec_level_next(l), pos);
        assert(f2.subrange(s, s + cap) =~= f1.subrange(s, s + cap));
        assert forall|i: int| in_span(f2, s, l, pos, i) == in_span(f1, s, l, pos, i) by {
            assert(in_span(f1, s, l, pos, i) == ((s <= i < s + spec_block_size(l)) || in_span(
                f1,
                ptr,
                spec_level_next(l),
                pos,
                i,
            )));
            assert(in_span(f2, s, l, pos, i) == ((s <= i < s + spec_block_size(l)) || in_span(
                f2,
                ptr,
                spec_level_next(l),
                pos,
                i,
            )));
        };
    }
}

/// Writing one byte at the tail's write position extends the chain's bytes
/// by that byte and leaves its blocks as they were.
pub proof fn lemma_walk_extend_byte(f1: Seq<u8>, f2: Seq<u8>, s: int, l: int, pos: int, v: u8)
    requires
        walk(f1, s, l, pos) is Some,
        pos - walk(f1, s, l, pos).unwrap().tail < spec_block_cap(
            walk(f1, s, l, pos).unwrap().tail_level,
        ),
        f2 == f1.update(pos, v),
    ensures
        walk(f2, s, l, pos + 1) == Some(
            ChainView {
                bytes: walk(f1, s, l, pos).unwrap().bytes.push(v),
                tail: walk(f1, s, l, pos).unwrap().tail,
                tail_level: walk(f1, s, l, pos).unwrap().tail_level,
            },
        ),
        forall|i: int| in_span(f2, s, l, pos + 1, i) == in_span(f1, s, l, pos, i),
    decreases pos - s,
{
    lemma_walk_basics(f1, s, l, pos);
    if pos - s <= spec_block_cap(l) {
        assert(f2.subrange(s, pos + 1) =~= f1.subrange(s, pos).push(v));
        assert(forall|i: int| in_span(f2, s, l, pos + 1, i) == in_span(f1, s, l, pos, i));
    } else {
        let cap = spec_block_cap(l);
        let ptr = ptr_at(f1, s + cap);
        assert(f2.subrange(s + cap, s + cap + 4) =~= f1.subrange(s + cap, s + cap + 4));
        assert(ptr_at(f2, s + cap) == ptr);
        lemma_walk_extend_byte(f1, f2, ptr, spec_level_next(l), pos, v);
        assert(f2.subrange(s, s + cap) =~= f1.subrange(s, s + cap));
        assert(walk(f2, s, l, pos + 1).unwrap().bytes =~= walk(f1, s, l, pos).unwrap().bytes.push(
            v,
        ));
        assert forall|i: int| in_span(f2, s, l, pos + 1, i) == in_span(f1, s, l, pos, i) by {
            assert(in_span(f1, s, l, pos, i) == ((s <= i < s + spec_block_size(l)) || in_span(
                f1,
                ptr,
                spec_level_next(l),
                pos,
                i,
            )));
            assert(in_span(f2, s, l, pos + 1, i) == ((s <= i < s + spec_block_size(l)) || in_span(
                f2,
                ptr,
                spec_level_next(l),
                pos + 1,
                i,
            )));
        };
    }
}

/// Linking a fresh block to a full tail keeps the chain's bytes and makes
/// the fresh block the new, empty tail.
pub proof fn lemma_walk_link(f1: Seq<u8>, f2: Seq<u8>, s: int, l: int, pos: int, r: int)
    requires
        walk(f1, s, l, pos) is Some,
        pos - walk(f1, s, l, pos).unwrap().tail == spec_block_cap(
            walk(f1, s, l, pos).unwrap().tail_level,
        ),
        f2.len() >= f1.len(),
        forall|i: int|
            in_span(f1, s, l, pos, i) && !(pos <= i < pos + 4) ==> f2[i] == f1[i],
        ptr_at(f2, pos) == r,
        r >= walk(f1, s, l, pos).unwrap().tail + spec_block_size(
            walk(f1, s, l, pos).unwrap().tail_level,
        ),
        r + spec_block_size(spec_level_next(walk(f1, s, l, pos).unwrap().tail_level)) <= f2.len(),
    ensures
        walk(f2, s, l, r) == Some(
            ChainView {
                bytes: walk(f1, s, l, pos).unwrap().bytes,
                tail: r,
                tail_level: spec_level_next(walk(f1, s, l, pos).unwrap().tail_level),
            },
        ),
        forall|i: int|
            in_span(f2, s, l, r, i) <==> in_span(f1, s, l, pos, i) || (r <= i < r
                + spec_block_size(spec_level_next(walk(f1, s, l, pos).unwrap().tail_level))),
    decreases pos - s,
{
    lemma_walk_basics(f1, s, l, pos);
    let cv = walk(f1, s, l, pos).unwrap();
    if pos - s <= spec_block_cap(l) {
        // this block is the full tail; the new block hangs off its slot
        assert(cv.tail == s && cv.tail_level == l);
        assert(pos == s + spec_block_cap(l));
        assert(f2.subrange(s, s + spec_block_cap(l)) =~= f1.subrange(s, pos));
        assert(walk(f2, r, spec_level_next(l), r) == Some(
            ChainView {
                bytes: f2.subrange(r, r),
                tail: r,
                tail_level: spec_level_next(l),
            },
        ));
        assert(f2.subrange(r, r) =~= Seq::<u8>::empty());
        assert(walk(f2, s, l, r).unwrap().bytes =~= cv.bytes);
        let nl = spec_level_next(l);
        assert forall|i: int|
            in_span(f2, s, l, r, i) <==> in_span(f1, s, l, pos, i) || (r <= i < r
                + spec_block_size(nl)) by {
            assert(in_span(f2, s, l, r, i) == ((s <= i < s + spec_block_size(l)) || in_span(
                f2,
                r,
                nl,
                r,
                i,
            )));
        };
    } else {
        let cap = spec_block_cap(l);
        let ptr = ptr_at(f1, s + cap);
        assert(pos >= s + spec_block_size(l));
        assert(f2.subrange(s + cap, s + cap + 4) =~= f1.subrange(s + cap, s + cap + 4));
        assert(ptr_at(f2, s + cap) == ptr);
        lemma_walk_link(f1, f2, ptr, spec_level_next(l), pos, r);
        assert(f2.subrange(s, s + cap) =~= f1.subrange(s, s + cap));
        assert(walk(f2, s, l, r).unwrap().bytes =~= cv.bytes);
        let nl2 = spec_level_next(cv.tail_level);
        assert forall|i: int|
            in_span(f2, s, l, r, i) <==> in_span(f1, s, l, pos, i) || (r <= i < r
                + spec_block_size(nl2)) by {
            assert(in_span(f1, s, l, pos, i) == ((s <= i < s + spec_block_size(l)) || in_span(
                f1,
                ptr,
                spec_level_next(l),
                pos,
                i,
            )));
            assert(in_span(f2, s, l, r, i) == ((s <= i < s + spec_block_size(l)) || in_span(
                f2,
                ptr,
                spec_level_next(l),
                r,
                i,
            )));
        };
    }
}

/// Where one byte stream stands: its first block, its write position, and
/// the start and level of the block being written.
#[derive(Debug, Clone, Copy)]
pub struct StreamState {
    pub start: usize,
    pub pos: usize,
    pub level: usize,
    pub tail: usize,
}

/// A stream is a well-formed chain whose blocks all lie below the pool's
/// allocation cursor.
pub open spec fn stream_ok(flat: Seq<u8>, cur: int, st: StreamState) -> bool {
    &&& walk(flat, st.start as int, 0, st.pos as int) matches Some(cv) && cv.tail == st.tail
        && cv.tail_level == st.level
    &&& forall|i: int| in_span(flat, st.start as int, 0, st.pos as int, i) ==> 0 <= i < cur
}

/// No byte belongs to the blocks of two different streams.
pub open spec fn streams_disjoint(flat: Seq<u8>, ss: Seq<StreamState>) -> bool {
    forall|a: int, b: int, i: int|
        0 <= a < ss.len() && 0 <= b < ss.len() && a != b ==> !(#[trigger] in_span(
            flat,
            ss[a].start as int,
            0,
            ss[a].pos as int,
            i,
        ) && #[trigger] in_span(flat, ss[b].start as int, 0, ss[b].pos as int, i))
}

/// The pool: pages of fixed size, an allocation cursor, and the streams
/// carved out of them.
pub struct ByteBlockPool {
    pub buffers: Vec<Vec<u8>>,
    buffer_pos: usize,
    used_pos: usize,
    streams: Vec<StreamState>,
}

impl ByteBlockPool {
    /// All pages laid end to end.
    pub closed spec fn flat(&self) -> Seq<u8> {
        Seq::new(
            (self.buffers@.len() * BYTE_BLOCK_SIZE) as nat,
            |i: int| self.buffers@[i / (BYTE_BLOCK_SIZE as int)]@[i % (BYTE_BLOCK_SIZE as int)],
        )
    }

    /// The allocation cursor: everything below it has been handed out.
    pub closed spec fn cursor(&self) -> int {
        self.used_pos + self.buffer_pos
    }

    pub closed spec fn streams_view(&self) -> Seq<StreamState> {
        self.streams@
    }

    pub open spec fn stream_count(&self) -> int {
        self.streams_view().len() as int
    }

    pub open spec fn stream_at(&self, h: int) -> StreamState {
        self.streams_view()[h]
    }

    pub open spec fn stream_start(&self, h: int) -> int {
        self.stream_at(h).start as int
    }

    pub open spec fn stream_pos(&self, h: int) -> int {
        self.stream_at(h).pos as int
    }

    /// The bytes written to stream `h` so far.
    pub open spec fn stream_bytes(&self, h: int) -> Seq<u8> {
        walk(self.flat(), self.stream_start(h), 0, self.stream_pos(h)).unwrap().bytes
    }

    /// Pages all have the page size, the cursor sits in the last page, and
    /// the pool stays below the reach of a four-byte pointer.
    pub closed spec fn pages_wf(&self) -> bool {
        &&& forall|p: int|
            0 <= p < self.buffers@.len() ==> (#[trigger] self.buffers@[p])@.len()
                == BYTE_BLOCK_SIZE
        &&& (self.buffers@.len() == 0 ==> self.used_pos == 0 && self.buffer_pos == 0)
        &&& (self.buffers@.len() > 0 ==> self.used_pos == (self.buffers@.len() - 1)
            * BYTE_BLOCK_SIZE && self.buffer_pos <= BYTE_BLOCK_SIZE)
        &&& self.flat().len() <= u32::MAX
        &&& forall|i: int| self.cursor() <= i < self.flat().len() ==> self.flat()[i] == 0
    }

    /// The pool invariant: sound pages, every stream a well-formed chain
    /// below the cursor, and no block shared between streams.
    pub closed spec fn wf(&self) -> bool {
        &&& self.pages_wf()
        &&& self.cursor() <= self.flat().len()
        &&& forall|h: int|
            0 <= h < self.streams@.len() ==> stream_ok(
                self.flat(),
                self.cursor(),
                #[trigger] self.streams@[h],
            )
        &&& streams_disjoint(self.flat(), self.streams@)
    }

    pub fn new() -> (r: ByteBlockPool)
        ensures
            r.wf(),
            r.stream_count() == 0,
            r.flat().len() == 0,
            r.cursor() == 0,
    {
        let r = ByteBlockPool {
            buffers: Vec::new(),
            buffer_pos: 0,
            used_pos: 0,
            streams: Vec::new(),
        };
        proof {
            assert(r.flat() =~= Seq::<u8>::empty());
        }
        r
    }

    /// Reads the byte at `addr`.
    fn get_byte(&self, addr: usize) -> (r: u8)
        requires
            self.pages_wf(),
            addr < self.flat().len(),
        ensures
            r == self.flat()[addr as int],
    {
        let p = addr / BYTE_BLOCK_SIZE;
        let o = addr % BYTE_BLOCK_SIZE;
        self.buffers[p][o]
    }

    /// Writes the byte at `addr`; only handed-out bytes are written.
    fn set_byte(&mut self, addr: usize, v: u8)
        requires
            old(self).pages_wf(),
            addr < old(self).cursor(),
            old(self).cursor() <= old(self).flat().len(),
        ensures
            final(self).pages_wf(),
            final(self).flat() == old(self).flat().update(addr as int, v),
            final(self).flat().len() == old(self).flat().len(),
            final(self).cursor() == old(self).cursor(),
            final(self).streams_view() == old(self).streams_view(),
            final(self).buffers@.len() == old(self).buffers@.len(),
    {
        let p = addr / BYTE_BLOCK_SIZE;
        let o = addr % BYTE_BLOCK_SIZE;
        self.buffers[p][o] = v;
        proof {
            let b = BYTE_BLOCK_SIZE as int;
            assert forall|i: int| 0 <= i < final(self).flat().len() implies final(self).flat()[i]
                == old(self).flat().update(addr as int, v)[i] by {
                vstd::arithmetic::div_mod::lemma_fundamental_div_mod(i, b);
                vstd::arithmetic::div_mod::lemma_fundamental_div_mod(addr as int, b);
            };
            assert(final(self).flat() =~= old(self).flat().update(addr as int, v));
        }
    }

    /// Starts a fresh page.
    fn expand_buffer(&mut self)
        requires
            old(self).pages_wf(),
            old(self).flat().len() + BYTE_BLOCK_SIZE <= u32::MAX,
        ensures
            final(self).pages_wf(),
            final(self).flat().len() == old(self).flat().len() + BYTE_BLOCK_SIZE,
            forall|i: int|
                0 <= i < old(self).flat().len() ==> final(self).flat()[i] == old(self).flat()[i],
            forall|i: int|
                old(self).flat().len() <= i < final(self).flat().len() ==> final(self).flat()[i]
                    == 0,
            final(self).cursor() == old(self).flat().len(),
            final(self).streams_view() == old(self).streams_view(),
    {
        let page: Vec<u8> = alloc_zeroed_page();
        let had = self.buffers.len();
        self.buffers.push(page);
        self.buffer_pos = 0;
        if had > 0 {
            self.used_pos = had * BYTE_BLOCK_SIZE;
        }
        proof {
            let b = BYTE_BLOCK_SIZE as int;
            assert forall|i: int| 0 <= i < old(self).flat().len() implies final(self).flat()[i]
                == old(self).flat()[i] by {
                vstd::arithmetic::div_mod::lemma_fundamental_div_mod(i, b);
            };
        }
    }

    /// Carves `size` bytes off the current page, opening a new page when
    /// they do not fit.
    pub fn new_bytes(&mut self, size: usize) -> (r: Addr)
        requires
            old(self).pages_wf(),
            0 < size <= BYTE_BLOCK_SIZE,
            old(self).cursor() <= old(self).flat().len(),
            old(self).flat().len() + BYTE_BLOCK_SIZE <= u32::MAX,
        ensures
            final(self).pages_wf(),
            r + size <= u32::MAX,
            r >= old(self).cursor(),
            r + size == final(self).cursor(),
            final(self).cursor() <= final(self).flat().len(),
            final(self).flat().len() >= old(self).flat().len(),
            forall|i: int|
                0 <= i < old(self).flat().len() ==> final(self).flat()[i] == old(self).flat()[i],
            forall|i: int|
                old(self).flat().len() <= i < final(self).flat().len() ==> final(self).flat()[i]
                    == 0,
            final(self).streams_view() == old(self).streams_view(),
            r % BYTE_BLOCK_SIZE + size <= BYTE_BLOCK_SIZE,
            (final(self).flat().len() == old(self).flat().len() <==> old(self).flat().len() > 0
                && old(self).cursor() + size <= old(self).flat().len()),
            final(self).flat().len() <= old(self).flat().len() + BYTE_BLOCK_SIZE,
            (old(self).flat().len() > 0 && old(self).cursor() + size <= old(self).flat().len()
                ==> r == old(self).cursor()),
            (!(old(self).flat().len() > 0 && old(self).cursor() + size <= old(self).flat().len())
                ==> r == old(self).flat().len()),
    {
        proof {
            let b = BYTE_BLOCK_SIZE as int;
            if self.buffers@.len() > 0 {
                assert(self.flat().len() == self.buffers@.len() * b);
                assert(self.used_pos == (self.buffers@.len() - 1) * b);
                assert((self.buffers@.len() - 1) * b + b == self.buffers@.len() * b)
                    by (nonlinear_arith);
            }
        }
        if self.buffers.len() == 0 || self.buffer_pos + size > BYTE_BLOCK_SIZE {
            self.expand_buffer();
        }
        proof {
            let b = BYTE_BLOCK_SIZE as int;
            assert(self.flat().len() == self.buffers@.len() * b);
            assert(self.used_pos == (self.buffers@.len() - 1) * b);
            assert((self.buffers@.len() - 1) * b + b == self.buffers@.len() * b)
                by (nonlinear_arith);
            assert(self.buffer_pos < b);
            assert((((self.buffers@.len() - 1) * b + self.buffer_pos) % b) == self.buffer_pos)
                by (nonlinear_arith)
                requires
                    self.buffers@.len() >= 1,
                    0 <= self.buffer_pos < b,
                    b == 32768,
            ;
        }
        let r = self.used_pos + self.buffer_pos;
        self.buffer_pos = self.buffer_pos + size;
        r
    }

    /// Allocates one block of the given level; writes its level tag into
    /// the block's pointer slot, and, when `prev` names the slot of a full
    /// block, links that block to the new one.
    pub fn alloc_bytes(&mut self, level: usize, prev: Option<usize>) -> (r: Addr)
        requires
            old(self).pages_wf(),
            level <= 9,
            old(self).cursor() <= old(self).flat().len(),
            old(self).flat().len() + BYTE_BLOCK_SIZE <= u32::MAX,
            prev matches Some(p) ==> p + 4 <= old(self).cursor(),
        ensures
            final(self).pages_wf(),
            final(self).streams_view() == old(self).streams_view(),
            r >= old(self).cursor(),
            r + spec_block_size(level as int) == final(self).cursor(),
            final(self).cursor() <= final(self).flat().len() <= u32::MAX,
            final(self).flat().len() >= old(self).flat().len(),
            forall|i: int|
                0 <= i < old(self).cursor() && !(prev matches Some(p) && p <= i < p + 4)
                    ==> final(self).flat()[i] == old(self).flat()[i],
            prev matches Some(p) ==> ptr_at(final(self).flat(), p as int) == r,
            final(self).flat()[r + spec_block_size(level as int) - 4] == (16u8 | level as u8),
            forall|i: int|
                r <= i < r + spec_block_size(level as int) - 4 ==> final(self).flat()[i] == 0,
            r % BYTE_BLOCK_SIZE + spec_block_size(level as int) <= BYTE_BLOCK_SIZE,
    {
        let size = block_size(level);
        let r = self.new_bytes(size);
        self.set_byte(r + size - 4, 16u8 | (level as u8));
        if let Some(p) = prev {
            let r32 = r as u32;
            self.set_byte(p, (r32 >> 24) as u8);
            self.set_byte(p + 1, (r32 >> 16) as u8);
            self.set_byte(p + 2, (r32 >> 8) as u8);
            self.set_byte(p + 3, r32 as u8);
            proof {
                assert(final(self).flat().subrange(p as int, p + 4) =~= crate::schema::be32(r32));
                crate::schema::lemma_be32_round_trip(r32);
                assert(r32 == r);
                assert(ptr_at(final(self).flat(), p as int) == r);
            }
        }
        r
    }
}

impl ByteBlockPool {
    /// Whether one more page would still keep every address below the
    /// reach of a four-byte pointer.
    fn has_room(&self) -> (r: bool)
        requires
            self.pages_wf(),
        ensures
            r == (self.flat().len() + BYTE_BLOCK_SIZE <= u32::MAX),
    {
        let n = self.buffers.len();
        proof {
            assert((n < 131071) == (n * 32768 + 32768 <= 4294967295)) by (nonlinear_arith);
        }
        n < 131071
    }

    /// Opens a new, empty stream and returns its handle.
    pub fn new_stream(&mut self) -> (r: GyResult<usize>)
        requires
            old(self).wf(),
        ensures
            final(self).wf(),
            match r {
                Ok(h) => {
                    &&& h == old(self).stream_count()
                    &&& final(self).stream_count() == old(self).stream_count() + 1
                    &&& final(self).stream_bytes(h as int) == Seq::<u8>::empty()
                    &&& final(self).stream_pos(h as int) == final(self).stream_start(h as int)
                    &&& forall|h2: int|
                        0 <= h2 < old(self).stream_count() ==> final(self).stream_at(h2) == old(self).stream_at(h2) && final(self).stream_bytes(h2) == old(self).stream_bytes(h2)
                },
                Err(e) => e == GyError::Serialization && *final(self) == *old(self) && final(self).flat().len() + BYTE_BLOCK_SIZE > u32::MAX,
            },
    {
        if !self.has_room() {
            return Err(GyError::Serialization);
        }
        let ghost f0 = self.flat();
        let ghost c0 = self.cursor();
        let start = self.alloc_bytes(0, None);
        let st = StreamState { start, pos: start, level: 0, tail: start };
        let ghost fa = self.flat();
        let ghost ca = self.cursor();
        proof {
            assert(walk(fa, start as int, 0, start as int) == Some(
                ChainView {
                    bytes: fa.subrange(start as int, start as int),
                    tail: start as int,
                    tail_level: 0,
                },
            ));
            assert(fa.subrange(start as int, start as int) =~= Seq::<u8>::empty());
            assert forall|h2: int| 0 <= h2 < self.streams@.len() implies {
                let s2 = #[trigger] self.streams@[h2];
                &&& walk(fa, s2.start as int, 0, s2.pos as int) == walk(f0, s2.start as int, 0, s2.pos as int)
                &&& forall|i: int|
                    in_span(fa, s2.start as int, 0, s2.pos as int, i) == in_span(f0, s2.start as int, 0, s2.pos as int, i)
            } by {
                let s2 = self.streams@[h2];
                assert(stream_ok(f0, c0, s2));
                lemma_walk_frame(f0, fa, s2.start as int, 0, s2.pos as int);
            };
        }
        self.streams.push(st);
        let h = self.streams.len() - 1;
        proof {
            let f = self.flat();
            let cur = self.cursor();
            let n = self.streams@.len() as int;
            assert(f == fa && cur == ca);
            assert(stream_ok(f, cur, st));
            assert forall|h2: int| 0 <= h2 < n implies stream_ok(
                f,
                cur,
                #[trigger] self.streams@[h2],
            ) by {
                if h2 < n - 1 {
                    let s2 = old(self).streams@[h2];
                    assert(stream_ok(f0, c0, s2));
                    assert forall|i: int|
                        in_span(f, s2.start as int, 0, s2.pos as int, i) implies 0 <= i < cur by {
                        assert(in_span(f0, s2.start as int, 0, s2.pos as int, i));
                    };
                }
            };
            assert forall|a: int, b: int, i: int|
                0 <= a < n && 0 <= b < n && a != b implies !(#[trigger] in_span(
                f,
                self.streams@[a].start as int,
                0,
                self.streams@[a].pos as int,
                i,
            ) && #[trigger] in_span(
                f,
                self.streams@[b].start as int,
                0,
                self.streams@[b].pos as int,
                i,
            )) by {
                if a < n - 1 && b < n - 1 {
                    let sa = old(self).streams@[a];
                    let sb = old(self).streams@[b];
                    if in_span(f, sa.start as int, 0, sa.pos as int, i) && in_span(
                        f,
                        sb.start as int,
                        0,
                        sb.pos as int,
                        i,
                    ) {
                        assert(in_span(f0, sa.start as int, 0, sa.pos as int, i));
                        assert(in_span(f0, sb.start as int, 0, sb.pos as int, i));
                    }
                } else if a == n - 1 && b < n - 1 {
                    let sb = old(self).streams@[b];
                    if in_span(f, sb.start as int, 0, sb.pos as int, i) {
                        assert(in_span(f0, sb.start as int, 0, sb.pos as int, i));
                        assert(i < c0);
                        assert(!in_span(f, st.start as int, 0, st.pos as int, i));
                    }
                } else if b == n - 1 && a < n - 1 {
                    let sa = old(self).streams@[a];
                    if in_span(f, sa.start as int, 0, sa.pos as int, i) {
                        assert(in_span(f0, sa.start as int, 0, sa.pos as int, i));
                        assert(i < c0);
                        assert(!in_span(f, st.start as int, 0, st.pos as int, i));
                    }
                }
            };
        }
        Ok(h)
    }

    /// Appends `data` to stream `h`, chaining new blocks as needed. Other
    /// streams are untouched. Fails only when the pool has reached the
    /// limit of four-byte addressing, leaving a prefix written.
    pub fn write_array(&mut self, h: usize, data: &[u8]) -> (r: GyResult<()>)
        requires
            old(self).wf(),
            h < old(self).stream_count(),
        ensures
            final(self).wf(),
            final(self).stream_count() == old(self).stream_count(),
            final(self).stream_start(h as int) == old(self).stream_start(h as int),
            forall|h2: int|
                0 <= h2 < old(self).stream_count() && h2 != h ==> final(self).stream_at(h2) == old(self).stream_at(h2) && final(self).stream_bytes(h2) == old(self).stream_bytes(h2),
            match r {
                Ok(_) => final(self).stream_bytes(h as int) == old(self).stream_bytes(h as int)
                    + data@,
                Err(e) => {
                    &&& e == GyError::Serialization
                    &&& exists|k: int|
                        0 <= k < data@.len() && final(self).stream_bytes(h as int) == old(self).stream_bytes(h as int) + data@.take(k)
                    &&& final(self).flat().len() + BYTE_BLOCK_SIZE > u32::MAX
                },
            },
    {
        let ghost old0 = *old(self);
        let st0 = self.streams[h];
        let start = st0.start;
        let mut pos = st0.pos;
        let mut tail = st0.tail;
        let mut level = st0.level;
        let mut j: usize = 0;
        proof {
            lemma_walk_basics(self.flat(), start as int, 0, pos as int);
            assert(old0.stream_bytes(h as int) + data@.take(0) =~= old0.stream_bytes(h as int));
            assert(in_span(self.flat(), start as int, 0, pos as int, tail + spec_block_size(
                level as int,
            ) - 1));
        }
        while j < data.len()
            invariant
                old0 == *old(self),
                old0.wf(),
                h < old0.stream_count(),
                j <= data@.len(),
                self.pages_wf(),
                self.cursor() <= self.flat().len(),
                self.streams_view() == old0.streams_view(),
                start == old0.stream_start(h as int),
                level <= 9,
                tail <= pos,
                pos - tail <= spec_block_cap(level as int),
                tail + spec_block_size(level as int) <= self.cursor(),
                walk(self.flat(), start as int, 0, pos as int) matches Some(cv) && cv.bytes
                    == old0.stream_bytes(h as int) + data@.take(j as int) && cv.tail == tail
                    && cv.tail_level == level,
                forall|i: int|
                    in_span(self.flat(), start as int, 0, pos as int, i) ==> 0 <= i
                        < self.cursor(),
                forall|h2: int|
                    0 <= h2 < self.streams@.len() && h2 != h ==> stream_ok(
                        self.flat(),
                        self.cursor(),
                        #[trigger] self.streams@[h2],
                    ),
                forall|h2: int|
                    0 <= h2 < self.streams@.len() && h2 != h ==> walk(
                        self.flat(),
                        (#[trigger] self.streams@[h2]).start as int,
                        0,
                        self.streams@[h2].pos as int,
                    ).unwrap().bytes == old0.stream_bytes(h2),
                forall|h2: int, i: int|
                    0 <= h2 < self.streams@.len() && h2 != h && #[trigger] in_span(
                        self.flat(),
                        self.streams@[h2].start as int,
                        0,
                        self.streams@[h2].pos as int,
                        i,
                    ) ==> !in_span(self.flat(), start as int, 0, pos as int, i),
                forall|a: int, b: int, i: int|
                    0 <= a < self.streams@.len() && 0 <= b < self.streams@.len() && a != b && a
                        != h && b != h ==> !(#[trigger] in_span(
                        self.flat(),
                        self.streams@[a].start as int,
                        0,
                        self.streams@[a].pos as int,
                        i,
                    ) && #[trigger] in_span(
                        self.flat(),
                        self.streams@[b].start as int,
                        0,
                        self.streams@[b].pos as int,
                        i,
                    )),
            decreases data@.len() - j, (if pos - tail == spec_block_cap(level as int) {
                1int
            } else {
                0int
            }),
        {
            let cap = block_size(level) - 4;
            if pos - tail == cap {
                if !self.has_room() {
                    let stw = StreamState { start, pos, level, tail };
                    proof {
                        assert(walk(self.flat(), start as int, 0, pos as int) is Some);
                    }
                    self.streams[h] = stw;
                    proof {
                        self.lemma_writeback_wf(old0, h as int, stw);
                        assert(0 <= j < data@.len() && self.stream_bytes(h as int)
                            == old0.stream_bytes(h as int) + data@.take(j as int));
                    }
                    return Err(GyError::Serialization);
                }
                let nl = level_next(level);
                let ghost f1 = self.flat();
                let ghost c1 = self.cursor();
                let r = self.alloc_bytes(nl, Some(pos));
                let ghost f2 = self.flat();
                let ghost c2 = self.cursor();
                proof {
                    lemma_walk_basics(f1, start as int, 0, pos as int);
                    assert forall|i: int|
                        #![trigger in_span(f1, start as int, 0, pos as int, i)]
                        in_span(f1, start as int, 0, pos as int, i) && !(pos <= i < pos + 4)
                            implies f2[i] == f1[i] by {};
                    lemma_walk_link(f1, f2, start as int, 0, pos as int, r as int);
                    // the other streams' chains read none of the changed bytes
                    assert forall|h2: int| 0 <= h2 < self.streams@.len() && h2 != h implies {
                        let s2 = #[trigger] self.streams@[h2];
                        &&& walk(f2, s2.start as int, 0, s2.pos as int) == walk(f1, s2.start as int, 0, s2.pos as int)
                        &&& forall|i: int|
                            in_span(f2, s2.start as int, 0, s2.pos as int, i) == in_span(f1, s2.start as int, 0, s2.pos as int, i)
                    } by {
                        let s2 = self.streams@[h2];
                        assert forall|i: int|
                            in_span(f1, s2.start as int, 0, s2.pos as int, i) implies f2[i]
                                == f1[i] by {
                            assert(!in_span(f1, start as int, 0, pos as int, i));
                            assert(in_span(f1, start as int, 0, pos as int, i + 0) == in_span(
                                f1,
                                start as int,
                                0,
                                pos as int,
                                i,
                            ));
                            assert(!(pos <= i < pos + 4));
                        };
                        lemma_walk_frame(f1, f2, s2.start as int, 0, s2.pos as int);
                    };
                    // the chain's spans stay below the cursor
                    assert forall|i: int|
                        in_span(f2, start as int, 0, r as int, i) implies 0 <= i < c2 by {
                        if !(r <= i < r + spec_block_size(nl as int)) {
                            assert(in_span(f1, start as int, 0, pos as int, i));
                            assert(i < c1);
                        }
                    };
                    // disjointness of the grown chain from the others
                    assert forall|h2: int, i: int|
                        0 <= h2 < self.streams@.len() && h2 != h && #[trigger] in_span(
                            f2,
                            self.streams@[h2].start as int,
                            0,
                            self.streams@[h2].pos as int,
                            i,
                        ) implies !in_span(f2, start as int, 0, r as int, i) by {
                        let s2 = self.streams@[h2];
                        assert(in_span(f1, s2.start as int, 0, s2.pos as int, i));
                        assert(i < c1);
                        assert(!in_span(f1, start as int, 0, pos as int, i));
                    };
                }
                tail = r;
                pos = r;
                level = nl;
            } else {
                let ghost f1 = self.flat();
                proof {
                    lemma_walk_basics(f1, start as int, 0, pos as int);
                    assert(in_span(f1, start as int, 0, pos as int, pos as int));
                }
                let v = data[j];
                self.set_byte(pos, v);
                let ghost f2 = self.flat();
                let ghost posn = pos as int + 1;
                proof {
                    lemma_walk_extend_byte(f1, f2, start as int, 0, pos as int, v);
                    assert(data@.take(j + 1) =~= data@.take(j as int).push(v));
                    assert((old0.stream_bytes(h as int) + data@.take(j as int)).push(v) =~= old0
                        .stream_bytes(h as int) + data@.take(j + 1));
                    assert forall|h2: int| 0 <= h2 < self.streams@.len() && h2 != h implies {
                        let s2 = #[trigger] self.streams@[h2];
                        &&& walk(f2, s2.start as int, 0, s2.pos as int) == walk(f1, s2.start as int, 0, s2.pos as int)
                        &&& forall|i: int|
                            in_span(f2, s2.start as int, 0, s2.pos as int, i) == in_span(f1, s2.start as int, 0, s2.pos as int, i)
                    } by {
                        let s2 = self.streams@[h2];
                        assert forall|i: int|
                            in_span(f1, s2.start as int, 0, s2.pos as int, i) implies f2[i]
                                == f1[i] by {
                            assert(!in_span(f1, start as int, 0, pos as int, i));
                        };
                        lemma_walk_frame(f1, f2, s2.start as int, 0, s2.pos as int);
                    };
                    assert forall|i: int|
                        in_span(f2, start as int, 0, posn, i) implies 0 <= i < self.cursor() by {
                        assert(in_span(f1, start as int, 0, pos as int, i));
                    };
                    assert forall|h2: int, i: int|
                        0 <= h2 < self.streams@.len() && h2 != h && #[trigger] in_span(
                            f2,
                            self.streams@[h2].start as int,
                            0,
                            self.streams@[h2].pos as int,
                            i,
                        ) implies !in_span(f2, start as int, 0, posn, i) by {
                        let s2 = self.streams@[h2];
                        assert(in_span(f1, s2.start as int, 0, s2.pos as int, i));
                        assert(!in_span(f1, start as int, 0, pos as int, i));
                    };
                }
                pos = pos + 1;
                j = j + 1;
            }
        }
        let stw = StreamState { start, pos, level, tail };
        proof {
            assert(walk(self.flat(), start as int, 0, pos as int) is Some);
        }
        self.streams[h] = stw;
        proof {
            self.lemma_writeback_wf(old0, h as int, stw);
            assert(data@.take(data@.len() as int) =~= data@);
        }
        Ok(())
    }

    /// After the write loop stores the stream's new state, the pool
    /// invariant holds again.
    proof fn lemma_writeback_wf(&self, old0: Self, h: int, stw: StreamState)
        requires
            0 <= h < self.streams@.len(),
            old0.streams@.len() == self.streams@.len(),
            self.pages_wf(),
            self.cursor() <= self.flat().len(),
            self.streams@ == old0.streams@.update(h, stw),
            stream_ok(self.flat(), self.cursor(), stw),
            forall|h2: int|
                0 <= h2 < self.streams@.len() && h2 != h ==> stream_ok(
                    self.flat(),
                    self.cursor(),
                    #[trigger] old0.streams@[h2],
                ),
            forall|h2: int, i: int|
                0 <= h2 < self.streams@.len() && h2 != h && #[trigger] in_span(
                    self.flat(),
                    old0.streams@[h2].start as int,
                    0,
                    old0.streams@[h2].pos as int,
                    i,
                ) ==> !in_span(self.flat(), stw.start as int, 0, stw.pos as int, i),
            forall|a: int, b: int, i: int|
                0 <= a < self.streams@.len() && 0 <= b < self.streams@.len() && a != b && a != h
                    && b != h ==> !(#[trigger] in_span(
                    self.flat(),
                    old0.streams@[a].start as int,
                    0,
                    old0.streams@[a].pos as int,
                    i,
                ) && #[trigger] in_span(
                    self.flat(),
                    old0.streams@[b].start as int,
                    0,
                    old0.streams@[b].pos as int,
                    i,
                )),
        ensures
            self.wf(),
    {
        assert forall|a: int, b: int, i: int|
            0 <= a < self.streams@.len() && 0 <= b < self.streams@.len() && a != b implies !(
        #[trigger] in_span(
            self.flat(),
            self.streams@[a].start as int,
            0,
            self.streams@[a].pos as int,
            i,
        ) && #[trigger] in_span(
            self.flat(),
            self.streams@[b].start as int,
            0,
            self.streams@[b].pos as int,
            i,
        )) by {
            if a != h && b != h {
                assert(self.streams@[a] == old0.streams@[a]);
                assert(self.streams@[b] == old0.streams@[b]);
            } else if a == h {
                assert(self.streams@[b] == old0.streams@[b]);
            } else {
                assert(self.streams@[a] == old0.streams@[a]);
            }
        };
    }
}

impl ByteBlockPool {
    /// Decodes the four-byte forward pointer stored at `limit`.
    pub fn get_next_addr(&self, limit: usize) -> (r: Addr)
        requires
            self.pages_wf(),
            limit + 4 <= self.flat().len(),
        ensures
            r == ptr_at(self.flat(), limit as int),
    {
        let b0 = self.get_byte(limit);
        let b1 = self.get_byte(limit + 1);
        let b2 = self.get_byte(limit + 2);
        let b3 = self.get_byte(limit + 3);
        let v = (b0 as u32) << 24 | (b1 as u32) << 16 | (b2 as u32) << 8 | b3 as u32;
        proof {
            let s = self.flat().subrange(limit as int, limit + 4);
            assert(s[0] == b0 && s[1] == b1 && s[2] == b2 && s[3] == b3);
        }
        v as usize
    }

    /// The bounds of stream `h`: where its chain starts and where its next
    /// byte would be written.
    pub fn stream_span(&self, h: usize) -> (r: (Addr, Addr))
        requires
            self.wf(),
            h < self.stream_count(),
        ensures
            r.0 == self.stream_start(h as int),
            r.1 == self.stream_pos(h as int),
    {
        let st = self.streams[h];
        (st.start, st.pos)
    }

    /// Copies the bytes of the chain that runs from `start` to `end`.
    pub fn read_chain(&self, start: Addr, end: Addr) -> (r: Vec<u8>)
        requires
            self.pages_wf(),
            walk(self.flat(), start as int, 0, end as int) is Some,
        ensures
            r@ == walk(self.flat(), start as int, 0, end as int).unwrap().bytes,
    {
        let ghost total = walk(self.flat(), start as int, 0, end as int).unwrap().bytes;
        let mut acc: Vec<u8> = Vec::new();
        let mut cur = start;
        let mut lvl: usize = 0;
        loop
            invariant
                self.pages_wf(),
                lvl <= 9,
                cur <= end,
                walk(self.flat(), start as int, 0, end as int) is Some,
                total == walk(self.flat(), start as int, 0, end as int).unwrap().bytes,
                walk(self.flat(), cur as int, lvl as int, end as int) matches Some(cvr) && acc@
                    + cvr.bytes == total,
            decreases end - cur,
        {
            proof {
                lemma_walk_basics(self.flat(), cur as int, lvl as int, end as int);
                assert(acc@ + self.flat().subrange(cur as int, cur as int) =~= acc@);
            }
            let cap = block_size(lvl) - 4;
            if end - cur <= cap {
                let ghost acc0 = acc@;
                let n = end - cur;
                let mut k: usize = 0;
                while k < n
                    invariant
                        self.pages_wf(),
                        k <= n,
                        cur + n <= self.flat().len(),
                        acc@ == acc0 + self.flat().subrange(cur as int, cur + k),
                    decreases n - k,
                {
                    let b = self.get_byte(cur + k);
                    acc.push(b);
                    proof {
                        assert(self.flat().subrange(cur as int, cur + k + 1) =~= self.flat()
                            .subrange(cur as int, cur + k).push(b));
                    }
                    k += 1;
                }
                proof {
                    assert(acc@ =~= total);
                }
                return acc;
            } else {
                let ghost acc0 = acc@;
                let mut k: usize = 0;
                while k < cap
                    invariant
                        self.pages_wf(),
                        k <= cap,
                        cur + cap < self.flat().len(),
                        acc@ == acc0 + self.flat().subrange(cur as int, cur + k),
                    decreases cap - k,
                {
                    let b = self.get_byte(cur + k);
                    acc.push(b);
                    proof {
                        assert(self.flat().subrange(cur as int, cur + k + 1) =~= self.flat()
                            .subrange(cur as int, cur + k).push(b));
                    }
                    k += 1;
                }
                let nxt = self.get_next_addr(cur + cap);
                cur = nxt;
                lvl = level_next(lvl);
            }
        }
    }
}

impl ByteBlockPool {
    /// A well-formed pool's streams are walkable chains.
    pub proof fn lemma_stream_walk(&self, h: int)
        requires
            self.wf(),
            0 <= h < self.stream_count(),
        ensures
            self.pages_wf(),
            walk(self.flat(), self.stream_start(h), 0, self.stream_pos(h)) is Some,
            self.stream_bytes(h) == walk(
                self.flat(),
                self.stream_start(h),
                0,
                self.stream_pos(h),
            ).unwrap().bytes,
    {
        assert(stream_ok(self.flat(), self.cursor(), self.streams@[h]));
    }
}

/// The pool under its one-writer, many-readers discipline: the value owns
/// the pool, and callers borrow it mutably to write, immutably to read.
pub struct RingBuffer {
    pool: ByteBlockPool,
}

impl RingBuffer {
    /// The pool this value guards.
    pub closed spec fn inner(&self) -> ByteBlockPool {
        self.pool
    }

    pub fn new() -> (r: RingBuffer)
        ensures
            r.inner().wf(),
            r.inner().stream_count() == 0,
    {
        RingBuffer { pool: ByteBlockPool::new() }
    }

    pub fn borrow(&self) -> (r: &ByteBlockPool)
        ensures
            *r == self.inner(),
    {
        &self.pool
    }

    pub fn borrow_mut(&mut self) -> &mut ByteBlockPool {
        &mut self.pool
    }
}

/// One block's data as a reader hands it out.
#[derive(Debug)]
pub struct BlockData {
    pub data: Vec<u8>,
    pub limit: usize,
}

/// Walks a chain block by block, yielding each block's data bytes.
pub struct RingBufferReader<'a> {
    pool: &'a ByteBlockPool,
    cur: usize,
    end: usize,
    level: usize,
    eof: bool,
    produced: Ghost<Seq<u8>>,
    total: Ghost<Seq<u8>>,
}

impl<'a> RingBufferReader<'a> {
    /// The bytes this reader has yielded so far.
    pub closed spec fn produced(&self) -> Seq<u8> {
        self.produced@
    }

    /// The whole chain the reader was built over.
    pub closed spec fn total(&self) -> Seq<u8> {
        self.total@
    }

    pub closed spec fn spec_eof(&self) -> bool {
        self.eof
    }

    pub closed spec fn wf(&self) -> bool {
        &&& self.pool.pages_wf()
        &&& self.level <= 9
        &&& if self.eof {
            self.produced@ == self.total@
        } else {
            &&& self.cur <= self.end
            &&& walk(self.pool.flat(), self.cur as int, self.level as int, self.end as int)
                matches Some(cv) && self.produced@ + cv.bytes == self.total@
        }
    }

    /// The chain position the next block is read from.
    pub closed spec fn spec_cur(&self) -> int {
        self.cur as int
    }

    /// The address the chain ends at.
    pub closed spec fn spec_end(&self) -> int {
        self.end as int
    }

    /// The level of the block the cursor stands in.
    pub closed spec fn spec_level(&self) -> int {
        self.level as int
    }

    /// How much walking remains; every yielded block lowers it.
    pub closed spec fn measure(&self) -> int {
        if self.eof {
            0
        } else {
            self.end - self.cur + 1
        }
    }

    /// A reader over the chain running from `start_addr` to `end_addr`.
    pub fn new(pool: &'a ByteBlockPool, start_addr: Addr, end_addr: Addr) -> (r: RingBufferReader<
        'a,
    >)
        requires
            pool.pages_wf(),
            walk(pool.flat(), start_addr as int, 0, end_addr as int) is Some,
        ensures
            r.wf(),
            r.produced() == Seq::<u8>::empty(),
            r.total() == walk(pool.flat(), start_addr as int, 0, end_addr as int).unwrap().bytes,
            !r.spec_eof(),
    {
        RingBufferReader {
            pool,
            cur: start_addr,
            end: end_addr,
            level: 0,
            eof: false,
            produced: Ghost(Seq::empty()),
            total: Ghost(
                walk(pool.flat(), start_addr as int, 0, end_addr as int).unwrap().bytes,
            ),
        }
    }

    /// Yields the next block's data, or `UnexpectedEof` once the chain is
    /// exhausted.
    pub fn next_block(&mut self) -> (r: GyResult<Vec<u8>>)
        requires
            old(self).wf(),
        ensures
            final(self).wf(),
            final(self).total() == old(self).total(),
            match r {
                Ok(b) => {
                    &&& !old(self).spec_eof()
                    &&& final(self).produced() == old(self).produced() + b@
                    &&& b@.len() == (if old(self).spec_end() - old(self).spec_cur()
                        <= spec_block_size(old(self).spec_level()) - 4 {
                        old(self).spec_end() - old(self).spec_cur()
                    } else {
                        spec_block_size(old(self).spec_level()) - 4
                    })
                    &&& (final(self).spec_eof() || final(self).spec_level() == spec_level_next(
                        old(self).spec_level(),
                    ))
                    &&& final(self).measure() < old(self).measure()
                },
                Err(e) => {
                    &&& e == GyError::UnexpectedEof
                    &&& old(self).spec_eof()
                    &&& final(self).produced() == old(self).produced()
                    &&& final(self).produced() == old(self).total()
                },
            },
    {
        if self.eof {
            return Err(GyError::UnexpectedEof);
        }
        proof {
            lemma_walk_basics(
                self.pool.flat(),
                self.cur as int,
                self.level as int,
                self.end as int,
            );
        }
        let cap = block_size(self.level) - 4;
        let limit = if self.end - self.cur <= cap {
            self.end - self.cur
        } else {
            cap
        };
        let mut block: Vec<u8> = Vec::new();
        let mut k: usize = 0;
        while k < limit
            invariant
                self.pool.pages_wf(),
                k <= limit,
                self.cur + limit <= self.pool.flat().len(),
                block@ == self.pool.flat().subrange(self.cur as int, self.cur + k),
            decreases limit - k,
        {
            let b = self.pool.get_byte(self.cur + k);
            block.push(b);
            proof {
                assert(self.pool.flat().subrange(self.cur as int, self.cur + k + 1) =~= self
                    .pool
                    .flat()
                    .subrange(self.cur as int, self.cur + k)
                    .push(b));
            }
            k += 1;
        }
        if self.cur + limit >= self.end {
            self.eof = true;
            proof {
                self.produced@ = self.produced@ + block@;
                assert(self.produced@ == self.total@);
            }
        } else {
            let nxt = self.pool.get_next_addr(self.cur + cap);
            let nl = level_next(self.level);
            proof {
                self.produced@ = self.produced@ + block@;
            }
            self.cur = nxt;
            self.level = nl;
            proof {
                assert(walk(self.pool.flat(), self.cur as int, self.level as int, self.end as int)
                    is Some);
                assert(self.produced@ + walk(
                    self.pool.flat(),
                    self.cur as int,
                    self.level as int,
                    self.end as int,
                ).unwrap().bytes =~= self.total@);
            }
        }
        Ok(block)
    }

    /// The next block, as the iterator form hands it out.
    pub fn next(&mut self) -> (r: Option<BlockData>)
        requires
            old(self).wf(),
        ensures
            final(self).wf(),
            final(self).total() == old(self).total(),
            match r {
                Some(bd) => {
                    &&& !old(self).spec_eof()
                    &&& bd.data@.len() == bd.limit
                    &&& final(self).produced() == old(self).produced() + bd.data@
                    &&& final(self).measure() < old(self).measure()
                },
                None => old(self).spec_eof() && final(self).produced() == old(self).total(),
            },
    {
        match self.next_block() {
            Ok(b) => {
                let limit = b.len();
                Some(BlockData { data: b, limit })
            },
            Err(_) => None,
        }
    }
}

/// Pulls the bytes of one committed chain as a single stream.
pub struct SnapshotReader {
    pub data: Vec<u8>,
    pub offset: usize,
}

impl SnapshotReader {
    /// Drains the reader and holds the whole chain's bytes.
    pub fn new(reader: RingBufferReader<'_>) -> (r: GyResult<SnapshotReader>)
        requires
            reader.wf(),
            reader.produced() == Seq::<u8>::empty(),
        ensures
            match r {
                Ok(sr) => sr.data@ == reader.total() && sr.offset == 0,
                Err(_) => false,
            },
    {
        let mut rd = reader;
        let mut data: Vec<u8> = Vec::new();
        loop
            invariant
                rd.wf(),
                rd.total() == reader.total(),
                data@ == rd.produced(),
            decreases rd.measure(),
        {
            match rd.next_block() {
                Ok(mut b) => {
                    data.append(&mut b);
                },
                Err(_) => {
                    return Ok(SnapshotReader { data, offset: 0 });
                },
            }
        }
    }
}

/// A zeroed page.
fn alloc_zeroed_page() -> (r: Vec<u8>)
    ensures
        r@.len() == BYTE_BLOCK_SIZE,
        forall|i: int| 0 <= i < r@.len() ==> r@[i] == 0,
{
    let mut v: Vec<u8> = Vec::new();
    let mut i: usize = 0;
    while i < BYTE_BLOCK_SIZE
        invariant
            i <= BYTE_BLOCK_SIZE,
            v@.len() == i,
            forall|j: int| 0 <= j < i ==> v@[j] == 0,
        decreases BYTE_BLOCK_SIZE - i,
    {
        v.push(0u8);
        i += 1;
    }
    v
}

} // verus!
