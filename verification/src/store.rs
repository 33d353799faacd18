//! The raw block store: durable, append-growable byte storage with
//! block-level change tracking.
//!
//! The store keeps two images of its contents. `data` is the live,
//! committed region that callers read and write; `snapshot` is the content
//! of the backing file as of the last checkpoint. Both are always the same
//! block-aligned size. `dirty` flags every block mutated since the last
//! checkpoint; on a checkpoint the dirty blocks are diffed against the
//! snapshot, the deltas are emitted as a journal record, and the snapshot
//! is brought up to date. The committed size never exceeds `MAP_SIZE`, the
//! reserved address range, and the logical length never shrinks.

use vstd::prelude::*;

use crate::BLOCK_SIZE;
use crate::MAP_SIZE;
use crate::bytes::{push_zeros, splice, zeros};
use crate::journal::{
    apply_body, blocks_bytes, block_delta, body_count, body_index, body_lists, body_lists_upto,
    body_wf, encode_record, find_target, lemma_body_index_increasing, payload_bytes, rec_body,
    rec_count, rec_fits, rec_size, rec_tick, replay, tail_wf,
};
use crate::tick::Tick;
use vstd::slice::slice_subrange;

verus! {

/// A committed block's bytes lie within the capacity.
pub proof fn lemma_block_offset(cap: int, b: int)
    requires
        0 <= cap,
        cap % (BLOCK_SIZE as int) == 0,
        0 <= b < cap / (BLOCK_SIZE as int),
    ensures
        b * (BLOCK_SIZE as int) + BLOCK_SIZE <= cap,
        0 <= b * (BLOCK_SIZE as int),
{
    vstd::arithmetic::div_mod::lemma_fundamental_div_mod(cap, BLOCK_SIZE as int);
    vstd::arithmetic::mul::lemma_mul_inequality(b + 1, cap / (BLOCK_SIZE as int), BLOCK_SIZE as int);
    vstd::arithmetic::mul::lemma_mul_is_distributive_add_other_way(BLOCK_SIZE as int, b, 1);
    vstd::arithmetic::mul::lemma_mul_nonnegative(b, BLOCK_SIZE as int);
}

/// Byte `b * BLOCK_SIZE + k` of a store lies in block `b` at offset `k`.
pub proof fn lemma_in_block(b: int, k: int)
    requires
        0 <= b,
        0 <= k < BLOCK_SIZE,
    ensures
        (b * (BLOCK_SIZE as int) + k) / (BLOCK_SIZE as int) == b,
        (b * (BLOCK_SIZE as int) + k) % (BLOCK_SIZE as int) == k,
{
    vstd::arithmetic::div_mod::lemma_fundamental_div_mod_converse(
        b * (BLOCK_SIZE as int) + k,
        BLOCK_SIZE as int,
        b,
        k,
    );
}

/// The ascending list of indices whose flag is set.
pub open spec fn flags_to_blocks(flags: Seq<bool>) -> Seq<usize>
    decreases flags.len(),
{
    if flags.len() == 0 {
        Seq::empty()
    } else if flags.last() {
        flags_to_blocks(flags.drop_last()).push((flags.len() - 1) as usize)
    } else {
        flags_to_blocks(flags.drop_last())
    }
}

pub proof fn lemma_flags_to_blocks(flags: Seq<bool>)
    requires
        flags.len() <= usize::MAX,
    ensures
        flags_to_blocks(flags).len() <= flags.len(),
        forall|k: int|
            0 <= k < flags_to_blocks(flags).len() ==> ((#[trigger] flags_to_blocks(
                flags,
            )[k]) as int) < flags.len() && flags[flags_to_blocks(flags)[k] as int],
        forall|k: int|
            0 <= k < flags_to_blocks(flags).len() - 1 ==> (#[trigger] flags_to_blocks(flags)[k])
                < flags_to_blocks(flags)[k + 1],
        forall|b: int|
            0 <= b < flags.len() && flags[b] ==> exists|k: int|
                0 <= k < flags_to_blocks(flags).len() && (#[trigger] flags_to_blocks(flags)[k]) as int == b,
    decreases flags.len(),
{
    if flags.len() > 0 {
        lemma_flags_to_blocks(flags.drop_last());
        let prev = flags_to_blocks(flags.drop_last());
        assert forall|b: int| 0 <= b < flags.len() && flags[b] implies exists|k: int|
            0 <= k < flags_to_blocks(flags).len() && (#[trigger] flags_to_blocks(flags)[k]) as int
                == b by {
            if b < flags.len() - 1 {
                assert(flags.drop_last()[b] == flags[b]);
                let k = choose|k: int| 0 <= k < prev.len() && (#[trigger] prev[k]) as int == b;
                assert(flags_to_blocks(flags)[k] as int == b);
            } else {
                assert(flags.last());
                assert(flags_to_blocks(flags).last() as int == b);
            }
        }
    }
}

/// Why an operation on a store, column or table was refused.
#[derive(Clone, Copy, Debug, PartialEq, Eq, Structural)]
pub enum StoreError {
    /// A restore target tick that no journal record carries.
    TickNotFound,
    /// A journal that does not end exactly on a record boundary, or a
    /// record whose block indices are not ascending and within the store.
    CorruptJournal,
    /// A byte length that is not a whole number of records.
    MisalignedLength,
}

/// Rounds a length up to the next block boundary; an already aligned
/// length moves up a whole block, so the capacity strictly exceeds it.
pub open spec fn aligned_len(len: int) -> int {
    len + BLOCK_SIZE - (len % (BLOCK_SIZE as int))
}

/// Whether a logical length, once rounded up to a block boundary, still
/// fits both the reserved address range and the machine's address width.
pub open spec fn fits_store(len: int) -> bool {
    &&& len + BLOCK_SIZE <= MAP_SIZE
    &&& len + BLOCK_SIZE <= usize::MAX
}

/// The block-rounding arithmetic behind `aligned_len`.
pub proof fn lemma_aligned(len: int)
    requires
        0 <= len,
    ensures
        aligned_len(len) % (BLOCK_SIZE as int) == 0,
        len < aligned_len(len),
        aligned_len(len) <= len + BLOCK_SIZE,
{
    vstd::arithmetic::div_mod::lemma_fundamental_div_mod(len, BLOCK_SIZE as int);
    assert(aligned_len(len) == (len / (BLOCK_SIZE as int) + 1) * (BLOCK_SIZE as int)) by {
        vstd::arithmetic::mul::lemma_mul_is_distributive_add_other_way(
            BLOCK_SIZE as int,
            len / (BLOCK_SIZE as int),
            1,
        );
    }
    vstd::arithmetic::div_mod::lemma_mod_multiples_basic(
        len / (BLOCK_SIZE as int) + 1,
        BLOCK_SIZE as int,
    );
    vstd::arithmetic::div_mod::lemma_mod_bound(len, BLOCK_SIZE as int);
}

/// Reads the header of the record at `pos`: its tick, its block count and
/// the position just after the record. `None` when no whole record fits.
fn try_header(h: &[u8], pos: usize) -> (r: Option<(u64, usize, usize)>)
    requires
        pos <= h@.len(),
    ensures
        match r {
            Option::None => !rec_fits(h@, pos as int),
            Option::Some(p) => {
                &&& rec_fits(h@, pos as int)
                &&& p.0 == rec_tick(h@, pos as int)
                &&& p.1 as int == rec_count(h@, pos as int)
                &&& p.2 as int == pos as int + rec_size(h@, pos as int)
                &&& p.2 <= h@.len()
                &&& pos < p.2
            },
        },
{
    let hlen = h.len();
    if hlen - pos < 16 {
        return None;
    }
    let t = crate::bytes::u64_read_le(h, pos);
    let cnt64 = crate::bytes::u64_read_le(h, pos + 8);
    let avail = hlen - (pos + 16);
    let unit = 8 + BLOCK_SIZE;
    proof {
        assert(cnt64 as int == rec_count(h@, pos as int));
        vstd::arithmetic::div_mod::lemma_fundamental_div_mod(avail as int, unit as int);
        vstd::arithmetic::div_mod::lemma_mod_bound(avail as int, unit as int);
    }
    if cnt64 > (avail / unit) as u64 {
        proof {
            assert(cnt64 as int * (unit as int) > avail as int) by {
                vstd::arithmetic::mul::lemma_mul_inequality(
                    avail as int / (unit as int) + 1,
                    cnt64 as int,
                    unit as int,
                );
                vstd::arithmetic::mul::lemma_mul_is_distributive_add_other_way(
                    unit as int,
                    avail as int / (unit as int),
                    1,
                );
            }
        }
        return None;
    }
    let cnt = cnt64 as usize;
    proof {
        assert(cnt as int * (unit as int) <= avail as int) by {
            vstd::arithmetic::mul::lemma_mul_inequality(
                cnt as int,
                avail as int / (unit as int),
                unit as int,
            );
        }
    }
    let size = 16 + cnt * unit;
    Some((t, cnt, pos + size))
}

/// Scans the journal from its start for the first record carrying tick
/// `to`, returning the position just after it.
fn scan_find(h: &[u8], to: u64) -> (r: Option<usize>)
    ensures
        match r {
            Option::None => find_target(h@, 0, to) is None,
            Option::Some(p) => find_target(h@, 0, to) == Some(p as int) && p <= h@.len(),
        },
{
    let hlen = h.len();
    let mut pos: usize = 0;
    loop
        invariant
            pos <= hlen,
            hlen == h@.len(),
            find_target(h@, 0, to) == find_target(h@, pos as int, to),
        decreases hlen - pos,
    {
        match try_header(h, pos) {
            Option::None => {
                return None;
            },
            Option::Some((t, _cnt, end)) => {
                if t == to {
                    return Some(end);
                }
                pos = end;
            },
        }
    }
}

/// Checks that the journal from `start` to its end is a whole number of
/// records, each fit to apply to a store of `cap` committed bytes.
fn check_tail(h: &[u8], start: usize, cap: usize) -> (r: bool)
    requires
        start <= h@.len(),
    ensures
        r == tail_wf(h@, start as int, cap as int),
{
    let hlen = h.len();
    let unit = 8 + BLOCK_SIZE;
    let mut pos = start;
    loop
        invariant
            start <= pos <= hlen,
            hlen == h@.len(),
            unit == 8 + BLOCK_SIZE,
            tail_wf(h@, start as int, cap as int) == tail_wf(h@, pos as int, cap as int),
        decreases hlen - pos,
    {
        if pos == hlen {
            return true;
        }
        match try_header(h, pos) {
            Option::None => {
                return false;
            },
            Option::Some((_t, cnt, end)) => {
                if !check_body(h, pos, cnt, end, cap) {
                    return false;
                }
                pos = end;
            },
        }
    }
}

/// Checks one record's body: every listed block lies within `cap` and the
/// indices are strictly ascending.
#[verifier::rlimit(100)]
#[verifier::spinoff_prover]
fn check_body(h: &[u8], pos: usize, cnt: usize, end: usize, cap: usize) -> (r: bool)
    requires
        rec_fits(h@, pos as int),
        cnt as int == rec_count(h@, pos as int),
        end as int == pos as int + rec_size(h@, pos as int),
        end <= h@.len(),
    ensures
        r == body_wf(rec_body(h@, pos as int), cap as int),
{
    let ghost body = rec_body(h@, pos as int);
    let hlen = h.len();
    let unit = 8 + BLOCK_SIZE;
    proof {
        vstd::arithmetic::mul::lemma_mul_nonnegative(
            rec_count(h@, pos as int),
            crate::journal::diff_unit(),
        );
        assert(body.len() == cnt as int * (unit as int));
        assert(body.len() % (crate::journal::diff_unit() as nat) == 0) by {
            vstd::arithmetic::mul::lemma_mul_is_commutative(cnt as int, unit as int);
            vstd::arithmetic::div_mod::lemma_mod_multiples_basic(cnt as int, unit as int);
        }
        assert(body_count(body) == cnt as int) by {
            vstd::arithmetic::mul::lemma_mul_is_commutative(cnt as int, unit as int);
            vstd::arithmetic::div_mod::lemma_div_multiples_vanish(cnt as int, unit as int);
        }
    }
    let max_blocks = cap / BLOCK_SIZE;
    let mut prev: u64 = 0;
    let mut j: usize = 0;
    while j < cnt
        invariant
            j <= cnt,
            unit == 8 + BLOCK_SIZE,
            rec_fits(h@, pos as int),
            cnt as int == rec_count(h@, pos as int),
            end as int == pos as int + rec_size(h@, pos as int),
            end <= h@.len(),
            h@.len() <= usize::MAX,
            body == rec_body(h@, pos as int),
            body_count(body) == cnt as int,
            max_blocks as int == cap as int / (BLOCK_SIZE as int),
            forall|j1: int|
                0 <= j1 < j ==> #[trigger] body_index(body, j1) * (BLOCK_SIZE as int) + BLOCK_SIZE
                    <= cap as int,
            forall|j1: int|
                0 <= j1 < j - 1 ==> #[trigger] body_index(body, j1) < body_index(body, j1 + 1),
            j > 0 ==> prev as int == body_index(body, j as int - 1),
        decreases cnt - j,
    {
        proof {
            assert(8 * (j as int) + 8 <= cnt as int * (unit as int)) by {
                vstd::arithmetic::mul::lemma_mul_is_distributive_add_other_way(8, j as int, 1);
                vstd::arithmetic::mul::lemma_mul_inequality(j as int + 1, cnt as int, 8);
                vstd::arithmetic::mul::lemma_mul_inequality(8, unit as int, cnt as int);
                vstd::arithmetic::mul::lemma_mul_is_commutative(8, cnt as int);
            }
        }
        let idx = crate::bytes::u64_read_le(h, pos + 16 + 8 * j);
        proof {
            assert(body.subrange(8 * (j as int), 8 * (j as int) + 8) =~= h@.subrange(
                pos as int + 16 + 8 * (j as int),
                pos as int + 16 + 8 * (j as int) + 8,
            ));
            assert(idx as int == body_index(body, j as int));
        }
        if idx >= max_blocks as u64 {
            proof {
                assert(body_index(body, j as int) * (BLOCK_SIZE as int) + BLOCK_SIZE
                    > cap as int) by {
                    vstd::arithmetic::div_mod::lemma_fundamental_div_mod(
                        cap as int,
                        BLOCK_SIZE as int,
                    );
                    vstd::arithmetic::div_mod::lemma_mod_bound(cap as int, BLOCK_SIZE as int);
                    vstd::arithmetic::mul::lemma_mul_inequality(
                        cap as int / (BLOCK_SIZE as int),
                        idx as int,
                        BLOCK_SIZE as int,
                    );
                }
            }
            return false;
        }
        proof {
            assert(body_index(body, j as int) * (BLOCK_SIZE as int) + BLOCK_SIZE <= cap as int) by {
                vstd::arithmetic::div_mod::lemma_fundamental_div_mod(cap as int, BLOCK_SIZE as int);
                vstd::arithmetic::div_mod::lemma_mod_bound(cap as int, BLOCK_SIZE as int);
                vstd::arithmetic::mul::lemma_mul_inequality(
                    idx as int + 1,
                    cap as int / (BLOCK_SIZE as int),
                    BLOCK_SIZE as int,
                );
                vstd::arithmetic::mul::lemma_mul_is_distributive_add_other_way(
                    BLOCK_SIZE as int,
                    idx as int,
                    1,
                );
            }
        }
        if j > 0 && prev >= idx {
            return false;
        }
        prev = idx;
        j = j + 1;
    }
    proof {
        assert forall|j1: int| 0 <= j1 < body_count(body) - 1 implies #[trigger] body_index(
            body,
            j1,
        ) < body_index(body, j1 + 1) by {}
    }
    true
}

pub struct Blocks {
    data: Vec<u8>,
    snapshot: Vec<u8>,
    dirty: Vec<bool>,
    length: usize,
}

impl Blocks {
    /// The live, committed bytes.
    pub closed spec fn bytes(self) -> Seq<u8> {
        self.data@
    }

    /// The bytes of the backing file as of the last checkpoint.
    pub closed spec fn disk(self) -> Seq<u8> {
        self.snapshot@
    }

    /// The committed capacity in bytes.
    pub open spec fn capacity(self) -> int {
        self.bytes().len() as int
    }

    /// The logical length in bytes.
    pub closed spec fn length(self) -> int {
        self.length as int
    }

    pub open spec fn num_blocks(self) -> int {
        self.capacity() / (BLOCK_SIZE as int)
    }

    /// Whether block `b` has been mutated since the last checkpoint.
    pub closed spec fn dirty_block(self, b: int) -> bool {
        0 <= b < self.dirty@.len() && self.dirty@[b]
    }

    /// An internal sizing fact about the dirty-flag table.
    pub closed spec fn dirty_len_ok(self) -> bool {
        self.dirty@.len() == self.num_blocks()
    }

    pub open spec fn wf(self) -> bool {
        &&& self.disk().len() == self.bytes().len()
        &&& self.bytes().len() % (BLOCK_SIZE as nat) == 0
        &&& self.length() <= self.capacity()
        &&& self.capacity() <= MAP_SIZE
        &&& 0 <= self.length()
        &&& self.dirty_len_ok()
        &&& forall|i: int|
            0 <= i < self.bytes().len() && !self.dirty_block(i / (BLOCK_SIZE as int))
                ==> #[trigger] self.bytes()[i] == self.disk()[i]
    }

    /// Opens a store holding `contents`, as read back from a backing file
    /// (empty for a fresh store). The logical length is the content
    /// length; the committed capacity covers it, rounded up to a block
    /// boundary; nothing is dirty and the snapshot equals the live bytes.
    pub fn from_contents(contents: Vec<u8>) -> (r: Blocks)
        requires
            fits_store(contents@.len() as int),
        ensures
            r.wf(),
            r.length() == contents@.len(),
            r.capacity() == aligned_len(contents@.len() as int),
            r.bytes() == contents@ + zeros((aligned_len(contents@.len() as int)
                - contents@.len()) as nat),
            r.disk() == r.bytes(),
            forall|b: int| !r.dirty_block(b),
    {
        let length = contents.len();
        let aligned = length + (BLOCK_SIZE - length % BLOCK_SIZE);
        proof {
            assert(aligned as int == aligned_len(length as int));
            lemma_aligned(length as int);
        }
        let mut data = contents;
        push_zeros(&mut data, aligned - length);
        let mut snapshot: Vec<u8> = Vec::new();
        crate::bytes::push_range(&mut snapshot, data.as_slice(), 0, aligned);
        assert(snapshot@ =~= data@);
        let mut dirty: Vec<bool> = Vec::new();
        let blocks = aligned / BLOCK_SIZE;
        let mut k: usize = 0;
        while k < blocks
            invariant
                k <= blocks,
                dirty@.len() == k,
                forall|b: int| 0 <= b < k ==> !(#[trigger] dirty@[b]),
            decreases blocks - k,
        {
            dirty.push(false);
            k = k + 1;
        }
        Blocks { data, snapshot, dirty, length }
    }

    /// Opens an empty store.
    pub fn new() -> (r: Blocks)
        ensures
            r.wf(),
            r.length() == 0,
            r.capacity() == BLOCK_SIZE,
            r.bytes() == zeros(BLOCK_SIZE as nat),
            r.disk() == r.bytes(),
            forall|b: int| !r.dirty_block(b),
    {
        let r = Self::from_contents(Vec::new());
        assert(r.bytes() =~= zeros(BLOCK_SIZE as nat));
        r
    }

    pub fn len(&self) -> (r: usize)
        ensures
            r as int == self.length(),
    {
        self.length
    }

    /// Copies out the logical content: the bytes at `[0, length)`.
    pub fn content(&self) -> (r: Vec<u8>)
        requires
            self.wf(),
        ensures
            r@ == self.bytes().subrange(0, self.length()),
    {
        let n = self.len();
        self.get(0, n)
    }

    /// The committed bytes live in one allocation, so their number fits
    /// the machine's address width.
    pub proof fn lemma_capacity_bound(&self)
        ensures
            self.capacity() <= usize::MAX,
    {
        vstd::std_specs::vec::axiom_spec_len(&self.data);
    }

    /// Copies out the bytes at `[start, end)`. Reading past the logical
    /// length but within the committed capacity is allowed; reading past
    /// the capacity is a caller error.
    pub fn get(&self, start: usize, end: usize) -> (r: Vec<u8>)
        requires
            start <= end,
            end <= self.capacity(),
        ensures
            r@ == self.bytes().subrange(start as int, end as int),
    {
        let mut r: Vec<u8> = Vec::new();
        crate::bytes::push_range(&mut r, self.data.as_slice(), start, end);
        r
    }

    /// Overwrites the bytes at `[start, start + src.len())` and marks
    /// every block the range intersects dirty.
    pub fn set(&mut self, start: usize, src: &[u8])
        requires
            old(self).wf(),
            start + src@.len() <= old(self).capacity(),
        ensures
            final(self).wf(),
            final(self).length() == old(self).length(),
            final(self).capacity() == old(self).capacity(),
            final(self).disk() == old(self).disk(),
            final(self).bytes() == splice(old(self).bytes(), start as int, src@),
            forall|b: int| old(self).dirty_block(b) ==> final(self).dirty_block(b),
            forall|b: int|
                src@.len() > 0 && start as int / (BLOCK_SIZE as int) <= b <= (start + src@.len()
                    - 1) / (BLOCK_SIZE as int) ==> final(self).dirty_block(b),
            forall|b: int|
                final(self).dirty_block(b) ==> old(self).dirty_block(b) || (src@.len() > 0
                    && start as int / (BLOCK_SIZE as int) <= b <= (start + src@.len() - 1) / (
                BLOCK_SIZE as int)),
    {
        proof {
            crate::bytes::lemma_splice_index(old(self).bytes(), start as int, src@);
        }
        let m = src.len();
        let cap = self.data.len();
        let mut k: usize = 0;
        while k < m
            invariant
                k <= m,
                m == src@.len(),
                start + m <= cap,
                cap == self.data@.len(),
                cap == old(self).data@.len(),
                forall|i: int|
                    0 <= i < self.data@.len() ==> #[trigger] self.data@[i] == if start <= i < start
                        + k {
                        src@[i - start]
                    } else {
                        old(self).data@[i]
                    },
                self.snapshot == old(self).snapshot,
                self.dirty == old(self).dirty,
                self.length == old(self).length,
            decreases m - k,
        {
            self.data[start + k] = src[k];
            k = k + 1;
        }
        assert(self.data@ =~= splice(old(self).bytes(), start as int, src@));
        if m > 0 {
            let first = start / BLOCK_SIZE;
            let last = (start + m - 1) / BLOCK_SIZE;
            let dirty_len = self.dirty.len();
            proof {
                assert(last < self.num_blocks()) by {
                    vstd::arithmetic::div_mod::lemma_div_is_ordered(
                        start + m - 1,
                        self.data@.len() as int - 1,
                        BLOCK_SIZE as int,
                    );
                    vstd::arithmetic::div_mod::lemma_fundamental_div_mod(
                        self.data@.len() as int,
                        BLOCK_SIZE as int,
                    );
                    assert((self.data@.len() as int - 1) / (BLOCK_SIZE as int) < self.num_blocks())
                        by {
                        vstd::arithmetic::div_mod::lemma_div_multiples_vanish(
                            self.num_blocks(),
                            BLOCK_SIZE as int,
                        );
                        vstd::arithmetic::div_mod::lemma_div_is_ordered(
                            self.data@.len() as int - 1,
                            self.num_blocks() * (BLOCK_SIZE as int) - 1,
                            BLOCK_SIZE as int,
                        );
                        assert((self.num_blocks() * (BLOCK_SIZE as int) - 1) / (BLOCK_SIZE as int)
                            == self.num_blocks() - 1) by {
                            vstd::arithmetic::div_mod::lemma_hoist_over_denominator(
                                -1,
                                self.num_blocks(),
                                BLOCK_SIZE as nat,
                            );
                            assert((-1) / (BLOCK_SIZE as int) == -1) by {
                                vstd::arithmetic::div_mod::lemma_basic_div_specific_divisor(
                                    BLOCK_SIZE as int,
                                );
                            }
                        }
                    }
                }
            }
            let ghost data_now = self.data@;
            let mut b = first;
            while b <= last
                invariant
                    first <= b <= last + 1,
                    last < dirty_len,
                    dirty_len == self.dirty@.len(),
                    self.data@ == data_now,
                    self.snapshot == old(self).snapshot,
                    self.length == old(self).length,
                    forall|x: int|
                        0 <= x < self.dirty@.len() ==> #[trigger] self.dirty@[x] == (old(
                            self,
                        ).dirty@[x] || first <= x < b),
                decreases last + 1 - b,
            {
                self.dirty[b] = true;
                b = b + 1;
            }
        }
        proof {
            self.lemma_set_wf(*old(self), start as int, src@);
        }
    }

    /// Raises the logical length to `new_length`, committing whole new
    /// blocks as needed. Already committed bytes never move and the
    /// capacity never shrinks; newly committed bytes are zero both live
    /// and on disk, so they start clean.
    fn grow(&mut self, new_length: usize)
        requires
            old(self).wf(),
            old(self).length() <= new_length,
            fits_store(new_length as int),
        ensures
            final(self).wf(),
            final(self).length() == new_length,
            final(self).capacity() == if aligned_len(new_length as int) <= old(self).capacity() {
                old(self).capacity()
            } else {
                aligned_len(new_length as int)
            },
            old(self).capacity() <= final(self).capacity(),
            final(self).bytes() == old(self).bytes() + zeros(
                (final(self).capacity() - old(self).capacity()) as nat,
            ),
            final(self).disk() == old(self).disk() + zeros(
                (final(self).capacity() - old(self).capacity()) as nat,
            ),
            forall|b: int| final(self).dirty_block(b) == old(self).dirty_block(b),
    {
        self.length = new_length;
        let aligned = new_length + (BLOCK_SIZE - new_length % BLOCK_SIZE);
        proof {
            assert(aligned as int == aligned_len(new_length as int));
            lemma_aligned(new_length as int);
        }
        let cap = self.data.len();
        if aligned <= cap {
            proof {
                vstd::arithmetic::div_mod::lemma_div_is_ordered(
                    new_length as int,
                    aligned as int - 1,
                    BLOCK_SIZE as int,
                );
                assert(self.bytes() =~= old(self).bytes() + zeros(0));
                assert(self.disk() =~= old(self).disk() + zeros(0));
            }
            return ;
        }
        let add = aligned - cap;
        push_zeros(&mut self.data, add);
        push_zeros(&mut self.snapshot, add);
        let new_blocks = aligned / BLOCK_SIZE;
        proof {
            vstd::arithmetic::div_mod::lemma_div_multiples_vanish(
                aligned as int / (BLOCK_SIZE as int),
                BLOCK_SIZE as int,
            );
            assert(old(self).num_blocks() * (BLOCK_SIZE as int) == old(self).capacity()) by {
                vstd::arithmetic::div_mod::lemma_fundamental_div_mod(
                    old(self).capacity(),
                    BLOCK_SIZE as int,
                );
            }
            assert(old(self).num_blocks() <= new_blocks) by {
                vstd::arithmetic::div_mod::lemma_div_is_ordered(
                    old(self).capacity(),
                    aligned as int,
                    BLOCK_SIZE as int,
                );
            }
        }
        let ghost data_now = self.data@;
        let ghost snapshot_now = self.snapshot@;
        let dirty_len = self.dirty.len();
        let mut b = dirty_len;
        while b < new_blocks
            invariant
                dirty_len <= b <= new_blocks,
                self.dirty@.len() == b,
                self.dirty@.subrange(0, dirty_len as int) == old(self).dirty@,
                forall|x: int| dirty_len <= x < b ==> !(#[trigger] self.dirty@[x]),
                self.data@ == data_now,
                self.snapshot@ == snapshot_now,
                self.length == new_length,
            decreases new_blocks - b,
        {
            self.dirty.push(false);
            proof {
                assert(self.dirty@.subrange(0, dirty_len as int) =~= old(self).dirty@);
            }
            b = b + 1;
        }
        proof {
            assert forall|x: int| final(self).dirty_block(x) == old(self).dirty_block(x) by {
                if 0 <= x < dirty_len {
                    assert(self.dirty@[x] == self.dirty@.subrange(0, dirty_len as int)[x]);
                }
            }
            assert forall|i: int|
                0 <= i < self.bytes().len() && !self.dirty_block(
                    i / (BLOCK_SIZE as int),
                ) implies #[trigger] self.bytes()[i] == self.disk()[i] by {
                if i < old(self).capacity() {
                    assert(old(self).bytes()[i] == old(self).disk()[i]);
                }
            }
        }
    }

    /// Appends `src`, growing the committed capacity as needed; the new
    /// bytes land at the old logical length and their blocks are dirty.
    pub fn extend_from_slice(&mut self, src: &[u8])
        requires
            old(self).wf(),
            fits_store(old(self).length() + src@.len()),
        ensures
            final(self).wf(),
            final(self).length() == old(self).length() + src@.len(),
            old(self).capacity() <= final(self).capacity(),
            final(self).capacity() == if aligned_len(old(self).length() + src@.len()) <= old(
                self,
            ).capacity() {
                old(self).capacity()
            } else {
                aligned_len(old(self).length() + src@.len())
            },
            final(self).disk() == old(self).disk() + zeros(
                (final(self).capacity() - old(self).capacity()) as nat,
            ),
            final(self).bytes() == splice(
                old(self).bytes() + zeros((final(self).capacity() - old(self).capacity()) as nat),
                old(self).length(),
                src@,
            ),
            forall|i: int|
                0 <= i < old(self).length() ==> #[trigger] final(self).bytes()[i] == old(
                    self,
                ).bytes()[i],
            final(self).bytes().subrange(old(self).length(), old(self).length() + src@.len())
                == src@,
            forall|b: int| old(self).dirty_block(b) ==> final(self).dirty_block(b),
            forall|b: int|
                src@.len() > 0 && old(self).length() / (BLOCK_SIZE as int) <= b <= (old(
                    self,
                ).length() + src@.len() - 1) / (BLOCK_SIZE as int) ==> final(self).dirty_block(b),
            forall|b: int|
                final(self).dirty_block(b) ==> old(self).dirty_block(b) || (src@.len() > 0 && old(
                    self,
                ).length() / (BLOCK_SIZE as int) <= b <= (old(self).length() + src@.len() - 1) / (
                BLOCK_SIZE as int)),
    {
        let start = self.length;
        let new_length = start + src.len();
        self.grow(new_length);
        self.set(start, src);
        proof {
            let grown = old(self).bytes() + zeros(
                (self.capacity() - old(self).capacity()) as nat,
            );
            crate::bytes::lemma_splice_index(grown, start as int, src@);
            crate::bytes::lemma_splice_then_read(grown, start as int, src@);
        }
    }

    /// Extends the logical length by `extra` zero bytes.
    pub fn extend_zeroed(&mut self, extra: usize)
        requires
            old(self).wf(),
            fits_store(old(self).length() + extra),
        ensures
            final(self).wf(),
            final(self).length() == old(self).length() + extra,
            old(self).capacity() <= final(self).capacity(),
            final(self).bytes().subrange(old(self).length(), old(self).length() + extra) == zeros(
                extra as nat,
            ),
            final(self).bytes().subrange(0, old(self).length()) == old(self).bytes().subrange(
                0,
                old(self).length(),
            ),
            forall|b: int| old(self).dirty_block(b) ==> final(self).dirty_block(b),
    {
        let start = self.length;
        let new_length = start + extra;
        self.grow(new_length);
        let mut zs: Vec<u8> = Vec::new();
        push_zeros(&mut zs, extra);
        self.set(start, zs.as_slice());
        proof {
            crate::bytes::lemma_splice_then_read(
                old(self).bytes() + zeros((self.capacity() - old(self).capacity()) as nat),
                start as int,
                zs@,
            );
            crate::bytes::lemma_splice_index(
                old(self).bytes() + zeros((self.capacity() - old(self).capacity()) as nat),
                start as int,
                zs@,
            );
            assert(final(self).bytes().subrange(0, old(self).length()) =~= old(
                self,
            ).bytes().subrange(0, old(self).length()));
        }
    }

    /// The ascending list of dirty block indices.
    pub closed spec fn dirty_blocks(self) -> Seq<usize> {
        flags_to_blocks(self.dirty@)
    }

    /// What the dirty list holds: exactly the dirty blocks, ascending.
    pub proof fn lemma_dirty_blocks(self)
        requires
            self.wf(),
        ensures
            self.dirty_blocks().len() <= self.num_blocks(),
            forall|k: int|
                0 <= k < self.dirty_blocks().len() ==> self.dirty_block(
                    (#[trigger] self.dirty_blocks()[k]) as int,
                ) && (self.dirty_blocks()[k] as int) < self.num_blocks(),
            forall|k: int|
                0 <= k < self.dirty_blocks().len() - 1 ==> (#[trigger] self.dirty_blocks()[k])
                    < self.dirty_blocks()[k + 1],
            forall|b: int|
                self.dirty_block(b) ==> exists|k: int|
                    0 <= k < self.dirty_blocks().len() && (#[trigger] self.dirty_blocks()[k]) as int
                        == b,
    {
        vstd::std_specs::vec::axiom_spec_len(&self.dirty);
        lemma_flags_to_blocks(self.dirty@);
        assert forall|b: int| self.dirty_block(b) implies exists|k: int|
            0 <= k < self.dirty_blocks().len() && (#[trigger] self.dirty_blocks()[k]) as int
                == b by {
            let k = choose|k: int|
                0 <= k < flags_to_blocks(self.dirty@).len() && (#[trigger] flags_to_blocks(
                    self.dirty@,
                )[k]) as int == b;
            assert(self.dirty_blocks()[k] as int == b);
        }
    }

    /// Checkpoints the store: emits one journal record holding, for every
    /// dirty block, the wrapping per-byte delta of the on-disk snapshot
    /// against the live bytes, then brings the snapshot up to date and
    /// clears the dirty set. The record is returned for the caller to
    /// append to its journal; the live bytes do not change.
    pub fn sync(&mut self, tick: Tick) -> (r: Vec<u8>)
        requires
            old(self).wf(),
        ensures
            final(self).wf(),
            final(self).length() == old(self).length(),
            final(self).capacity() == old(self).capacity(),
            final(self).bytes() == old(self).bytes(),
            final(self).disk() == old(self).bytes(),
            forall|b: int| !final(self).dirty_block(b),
            r@ == encode_record(
                tick.value(),
                old(self).disk(),
                old(self).bytes(),
                old(self).dirty_blocks(),
            ),
    {
        proof {
            vstd::std_specs::vec::axiom_spec_len(&self.dirty);
            lemma_flags_to_blocks(self.dirty@);
        }
        let ghost snap0 = self.snapshot@;
        let ghost data0 = self.data@;
        let ghost flags0 = self.dirty@;
        let nb = self.dirty.len();
        let cap = self.data.len();

        let mut blocks: Vec<usize> = Vec::new();
        let mut b: usize = 0;
        while b < nb
            invariant
                b <= nb,
                nb == self.dirty@.len(),
                *self == *old(self),
                blocks@ == flags_to_blocks(self.dirty@.subrange(0, b as int)),
            decreases nb - b,
        {
            let flag = self.dirty[b];
            proof {
                assert(self.dirty@.subrange(0, b as int + 1).drop_last() =~= self.dirty@.subrange(
                    0,
                    b as int,
                ));
            }
            if flag {
                blocks.push(b);
            }
            b = b + 1;
        }
        proof {
            assert(self.dirty@.subrange(0, nb as int) =~= self.dirty@);
            assert(blocks@ == self.dirty_blocks());
        }
        let n = blocks.len();

        let mut r = crate::bytes::u64_to_le(tick.get());
        let mut count_bytes = crate::bytes::u64_to_le(n as u64);
        r.append(&mut count_bytes);
        let ghost header = crate::bytes::u64_le(tick.value()) + crate::bytes::u64_le(
            blocks@.len() as u64,
        );
        assert(r@ == header);

        let mut j: usize = 0;
        while j < n
            invariant
                j <= n,
                n == blocks@.len(),
                *self == *old(self),
                r@ == header + blocks_bytes(blocks@.subrange(0, j as int)),
            decreases n - j,
        {
            let mut entry = crate::bytes::u64_to_le(blocks[j] as u64);
            r.append(&mut entry);
            proof {
                assert(blocks@.subrange(0, j as int + 1).drop_last() =~= blocks@.subrange(
                    0,
                    j as int,
                ));
            }
            j = j + 1;
        }
        proof {
            assert(blocks@.subrange(0, n as int) =~= blocks@);
        }

        let ghost base = header + blocks_bytes(blocks@);
        let mut j: usize = 0;
        while j < n
            invariant
                j <= n,
                n == blocks@.len(),
                *self == *old(self),
                old(self).wf(),
                cap == self.data@.len(),
                nb as int == self.num_blocks(),
                snap0 == old(self).snapshot@,
                data0 == old(self).data@,
                forall|k: int|
                    0 <= k < blocks@.len() ==> (#[trigger] blocks@[k] as int)
                        < old(self).num_blocks(),
                r@ == base + payload_bytes(snap0, data0, blocks@.subrange(0, j as int)),
            decreases n - j,
        {
            let bj = blocks[j];
            proof {
                lemma_block_offset(cap as int, bj as int);
            }
            let off = bj * BLOCK_SIZE;
            let mut k: usize = 0;
            while k < BLOCK_SIZE
                invariant
                    k <= BLOCK_SIZE,
                    off == bj as int * (BLOCK_SIZE as int),
                    off + BLOCK_SIZE <= cap,
                    cap == self.data@.len(),
                    *self == *old(self),
                    snap0 == self.snapshot@,
                    data0 == self.data@,
                    snap0.len() == cap,
                    r@ == base + payload_bytes(snap0, data0, blocks@.subrange(0, j as int))
                        + block_delta(snap0, data0, bj as int).subrange(0, k as int),
                decreases BLOCK_SIZE - k,
            {
                let d = crate::bytes::wrap_sub(self.snapshot[off + k], self.data[off + k]);
                r.push(d);
                proof {
                    assert(block_delta(snap0, data0, bj as int).subrange(0, k as int + 1)
                        =~= block_delta(snap0, data0, bj as int).subrange(0, k as int).push(
                        crate::bytes::byte_sub(snap0[off + k], data0[off + k]),
                    ));
                }
                k = k + 1;
            }
            proof {
                assert(block_delta(snap0, data0, bj as int).subrange(0, BLOCK_SIZE as int)
                    =~= block_delta(snap0, data0, bj as int));
                assert(blocks@.subrange(0, j as int + 1).drop_last() =~= blocks@.subrange(
                    0,
                    j as int,
                ));
            }
            j = j + 1;
        }
        proof {
            assert(blocks@.subrange(0, n as int) =~= blocks@);
            assert(r@ == encode_record(tick.value(), snap0, data0, blocks@));
        }

        let mut b: usize = 0;
        while b < nb
            invariant
                b <= nb,
                nb == self.dirty@.len(),
                nb as int == old(self).num_blocks(),
                old(self).wf(),
                cap == self.data@.len(),
                self.data@ == data0,
                self.dirty@ == flags0,
                self.length == old(self).length,
                data0 == old(self).data@,
                snap0 == old(self).snapshot@,
                flags0 == old(self).dirty@,
                self.snapshot@.len() == cap,
                forall|i: int|
                    0 <= i < cap ==> #[trigger] self.snapshot@[i] == if i / (BLOCK_SIZE as int)
                        < b {
                        data0[i]
                    } else {
                        snap0[i]
                    },
            decreases nb - b,
        {
            let flag = self.dirty[b];
            if flag {
                proof {
                    lemma_block_offset(cap as int, b as int);
                }
                let off = b * BLOCK_SIZE;
                let mut k: usize = 0;
                while k < BLOCK_SIZE
                    invariant
                        k <= BLOCK_SIZE,
                        off == b as int * (BLOCK_SIZE as int),
                        off + BLOCK_SIZE <= cap,
                        cap == self.data@.len(),
                        self.data@ == data0,
                        self.dirty@ == flags0,
                        self.length == old(self).length,
                        self.snapshot@.len() == cap,
                        forall|i: int|
                            0 <= i < cap ==> #[trigger] self.snapshot@[i] == if i / (
                            BLOCK_SIZE as int) < b || (i / (BLOCK_SIZE as int) == b && i % (
                            BLOCK_SIZE as int) < k) {
                                data0[i]
                            } else {
                                snap0[i]
                            },
                    decreases BLOCK_SIZE - k,
                {
                    let v = self.data[off + k];
                    self.snapshot[off + k] = v;
                    proof {
                        lemma_in_block(b as int, k as int);
                    }
                    k = k + 1;
                }
                proof {
                    assert forall|i: int| 0 <= i < cap implies #[trigger] self.snapshot@[i] == if i
                        / (BLOCK_SIZE as int) < b + 1 {
                        data0[i]
                    } else {
                        snap0[i]
                    } by {
                        vstd::arithmetic::div_mod::lemma_mod_bound(i, BLOCK_SIZE as int);
                        vstd::arithmetic::div_mod::lemma_fundamental_div_mod(i, BLOCK_SIZE as int);
                    }
                }
            } else {
                proof {
                    assert forall|i: int| 0 <= i < cap implies #[trigger] self.snapshot@[i] == if i
                        / (BLOCK_SIZE as int) < b + 1 {
                        data0[i]
                    } else {
                        snap0[i]
                    } by {
                        if i / (BLOCK_SIZE as int) == b {
                            assert(!old(self).dirty_block(b as int));
                            assert(data0[i] == snap0[i]);
                        }
                    }
                }
            }
            b = b + 1;
        }
        proof {
            assert forall|i: int| 0 <= i < cap implies #[trigger] self.snapshot@[i]
                == data0[i] by {
                vstd::arithmetic::div_mod::lemma_div_is_ordered(i, cap as int - 1, BLOCK_SIZE as int);
                vstd::arithmetic::div_mod::lemma_fundamental_div_mod(cap as int, BLOCK_SIZE as int);
                vstd::arithmetic::div_mod::lemma_div_is_ordered(
                    i,
                    cap as int,
                    BLOCK_SIZE as int,
                );
                assert(i / (BLOCK_SIZE as int) < nb as int) by {
                    lemma_block_offset(cap as int, i / (BLOCK_SIZE as int));
                    vstd::arithmetic::div_mod::lemma_fundamental_div_mod(i, BLOCK_SIZE as int);
                    vstd::arithmetic::div_mod::lemma_mod_bound(i, BLOCK_SIZE as int);
                    if i / (BLOCK_SIZE as int) >= nb as int {
                        vstd::arithmetic::mul::lemma_mul_inequality(
                            nb as int,
                            i / (BLOCK_SIZE as int),
                            BLOCK_SIZE as int,
                        );
                    }
                }
            }
            assert(self.snapshot@ =~= data0);
        }

        let mut b: usize = 0;
        while b < nb
            invariant
                b <= nb,
                nb == self.dirty@.len(),
                self.data@ == data0,
                self.snapshot@ == data0,
                self.length == old(self).length,
                forall|x: int|
                    0 <= x < nb ==> #[trigger] self.dirty@[x] == if x < b {
                        false
                    } else {
                        flags0[x]
                    },
            decreases nb - b,
        {
            self.dirty[b] = false;
            b = b + 1;
        }
        r
    }

    /// Adds one block's delta chunk onto the live bytes, wrapping.
    fn apply_block(&mut self, body: &[u8], pbase: usize, off: usize)
        requires
            pbase + BLOCK_SIZE <= body@.len(),
            off + BLOCK_SIZE <= old(self).data@.len(),
        ensures
            final(self).data@.len() == old(self).data@.len(),
            forall|i: int|
                0 <= i < old(self).data@.len() ==> #[trigger] final(self).data@[i] == if off <= i
                    < off + BLOCK_SIZE {
                    crate::bytes::byte_add(old(self).data@[i], body@[pbase + (i - off)])
                } else {
                    old(self).data@[i]
                },
            final(self).snapshot@ == old(self).snapshot@,
            final(self).dirty@ == old(self).dirty@,
            final(self).length == old(self).length,
    {
        let blen = body.len();
        let dlen = self.data.len();
        let mut k: usize = 0;
        while k < BLOCK_SIZE
            invariant
                k <= BLOCK_SIZE,
                pbase + BLOCK_SIZE <= body@.len(),
                body@.len() <= usize::MAX,
                off + BLOCK_SIZE <= old(self).data@.len(),
                old(self).data@.len() <= usize::MAX,
                self.data@.len() == old(self).data@.len(),
                self.snapshot@ == old(self).snapshot@,
                self.dirty@ == old(self).dirty@,
                self.length == old(self).length,
                forall|i: int|
                    0 <= i < old(self).data@.len() ==> #[trigger] self.data@[i] == if off <= i < off
                        + k {
                        crate::bytes::byte_add(old(self).data@[i], body@[pbase + (i - off)])
                    } else {
                        old(self).data@[i]
                    },
            decreases BLOCK_SIZE - k,
        {
            let d = body[pbase + k];
            let cur = self.data[off + k];
            self.data[off + k] = crate::bytes::wrap_add(cur, d);
            k = k + 1;
        }
    }

    /// Adds a record body's per-byte deltas back onto the live bytes,
    /// wrapping, and marks every listed block dirty again.
    #[verifier::rlimit(100)]
    #[verifier::spinoff_prover]
    pub fn apply(&mut self, body: &[u8])
        requires
            old(self).wf(),
            body_wf(body@, old(self).capacity()),
        ensures
            final(self).wf(),
            final(self).length() == old(self).length(),
            final(self).capacity() == old(self).capacity(),
            final(self).disk() == old(self).disk(),
            final(self).bytes() == apply_body(old(self).bytes(), body@),
            forall|b: int|
                final(self).dirty_block(b) == (old(self).dirty_block(b) || body_lists(body@, b)),
    {
        let ghost data0 = self.data@;
        let ghost flags0 = self.dirty@;
        let cap = self.data.len();
        let unit = 8 + BLOCK_SIZE;
        let blen = body.len();
        let n = blen / unit;
        proof {
            vstd::arithmetic::div_mod::lemma_fundamental_div_mod(
                body@.len() as int,
                crate::journal::diff_unit(),
            );
            assert(body@.len() as int % crate::journal::diff_unit() == 0);
            assert(n as int == body_count(body@));
            assert(body@.len() == n as int * (unit as int));
        }
        let mut j: usize = 0;
        while j < n
            invariant
                j <= n,
                n as int == body_count(body@),
                body@.len() == n as int * (unit as int),
                body@.len() <= usize::MAX,
                unit == 8 + BLOCK_SIZE,
                body_wf(body@, cap as int),
                old(self).wf(),
                cap == self.data@.len(),
                cap == old(self).data@.len(),
                data0 == old(self).data@,
                flags0 == old(self).dirty@,
                self.snapshot@ == old(self).snapshot@,
                self.length == old(self).length,
                self.dirty@.len() == old(self).dirty@.len(),
                forall|i: int|
                    0 <= i < cap ==> #[trigger] self.data@[i] == if body_lists_upto(
                        body@,
                        j as int,
                        i / (BLOCK_SIZE as int),
                    ) {
                        apply_body(data0, body@)[i]
                    } else {
                        data0[i]
                    },
                forall|x: int|
                    0 <= x < self.dirty@.len() ==> #[trigger] self.dirty@[x] == (flags0[x]
                        || body_lists_upto(body@, j as int, x)),
            decreases n - j,
        {
            proof {
                assert(8 * (j as int) + 8 <= 8 * (n as int)) by {
                    vstd::arithmetic::mul::lemma_mul_is_distributive_add_other_way(8, j as int, 1);
                    vstd::arithmetic::mul::lemma_mul_inequality(j as int + 1, n as int, 8);
                }
                assert(8 * (n as int) <= n as int * (unit as int)) by {
                    vstd::arithmetic::mul::lemma_mul_inequality(8, unit as int, n as int);
                    vstd::arithmetic::mul::lemma_mul_is_commutative(8, n as int);
                }
            }
            let idx64 = crate::bytes::u64_read_le(body, 8 * j);
            proof {
                assert(idx64 as int == body_index(body@, j as int));
                assert(body_index(body@, j as int) * (BLOCK_SIZE as int) + BLOCK_SIZE
                    <= cap as int);
                assert(idx64 as int <= cap as int) by {
                    vstd::arithmetic::mul::lemma_mul_inequality(
                        1,
                        BLOCK_SIZE as int,
                        idx64 as int,
                    );
                    vstd::arithmetic::mul::lemma_mul_is_commutative(idx64 as int, BLOCK_SIZE as int);
                }
            }
            let idx = idx64 as usize;
            let off = idx * BLOCK_SIZE;
            proof {
                assert(n as int * 8 + j as int * (BLOCK_SIZE as int) + BLOCK_SIZE <= body@.len())
                    by {
                    vstd::arithmetic::mul::lemma_mul_is_distributive_add_other_way(
                        BLOCK_SIZE as int,
                        j as int,
                        1,
                    );
                    vstd::arithmetic::mul::lemma_mul_inequality(
                        j as int + 1,
                        n as int,
                        BLOCK_SIZE as int,
                    );
                    vstd::arithmetic::mul::lemma_mul_is_distributive_add(
                        n as int,
                        8,
                        BLOCK_SIZE as int,
                    );
                    vstd::arithmetic::mul::lemma_mul_is_commutative(n as int, 8);
                    vstd::arithmetic::mul::lemma_mul_is_commutative(n as int, BLOCK_SIZE as int);
                }
            }
            let pbase = n * 8 + j * BLOCK_SIZE;
            proof {
                assert(!body_lists_upto(body@, j as int, idx as int)) by {
                    if body_lists_upto(body@, j as int, idx as int) {
                        let jp = choose|jp: int|
                            0 <= jp < j as int && body_index(body@, jp) == idx as int;
                        lemma_body_index_increasing(body@, cap as int, jp, j as int);
                    }
                }
            }
            let ghost dmid = self.data@;
            self.apply_block(body, pbase, off);
            proof {
                assert((idx as int) < self.dirty@.len()) by {
                    vstd::arithmetic::div_mod::lemma_div_is_ordered(
                        (idx as int + 1) * (BLOCK_SIZE as int),
                        cap as int,
                        BLOCK_SIZE as int,
                    );
                    vstd::arithmetic::div_mod::lemma_div_multiples_vanish(
                        idx as int + 1,
                        BLOCK_SIZE as int,
                    );
                    vstd::arithmetic::mul::lemma_mul_is_distributive_add_other_way(
                        BLOCK_SIZE as int,
                        idx as int,
                        1,
                    );
                }
            }
            self.dirty[idx] = true;
            proof {
                assert forall|i: int|
                    0 <= i < cap implies #[trigger] self.data@[i] == if body_lists_upto(
                    body@,
                    j as int + 1,
                    i / (BLOCK_SIZE as int),
                ) {
                    apply_body(data0, body@)[i]
                } else {
                    data0[i]
                } by {
                    vstd::arithmetic::div_mod::lemma_fundamental_div_mod(i, BLOCK_SIZE as int);
                    vstd::arithmetic::div_mod::lemma_mod_bound(i, BLOCK_SIZE as int);
                    let b = i / (BLOCK_SIZE as int);
                    if off <= i < off + BLOCK_SIZE {
                        lemma_in_block(idx as int, i - off);
                        assert(b == idx as int);
                        assert(body_lists_upto(body@, j as int + 1, b));
                        assert(dmid[i] == data0[i]);
                        let slot = crate::journal::body_slot(body@, b);
                        assert(0 <= slot < n as int && body_index(body@, slot) == b);
                        assert(slot == j as int) by {
                            if slot < j as int {
                                lemma_body_index_increasing(body@, cap as int, slot, j as int);
                            }
                            if slot > j as int {
                                lemma_body_index_increasing(body@, cap as int, j as int, slot);
                            }
                        }
                        assert(crate::journal::body_delta(body@, j as int, i % (BLOCK_SIZE as int))
                            == body@[pbase + (i - off)]);
                    } else {
                        lemma_in_block(idx as int, 0);
                        if body_lists_upto(body@, j as int + 1, b) {
                            assert(b != idx as int);
                            let jp = choose|jp: int|
                                0 <= jp < j as int + 1 && body_index(body@, jp) == b;
                            assert(jp != j as int);
                            assert(body_lists_upto(body@, j as int, b));
                        }
                    }
                }
                assert forall|x: int|
                    0 <= x < self.dirty@.len() implies #[trigger] self.dirty@[x] == (flags0[x]
                    || body_lists_upto(body@, j as int + 1, x)) by {
                    if x == idx as int {
                        assert(body_index(body@, j as int) == x);
                        assert(body_lists_upto(body@, j as int + 1, x));
                    } else {
                        if body_lists_upto(body@, j as int + 1, x) {
                            let jp = choose|jp: int|
                                0 <= jp < j as int + 1 && body_index(body@, jp) == x;
                            assert(jp != j as int);
                            assert(body_lists_upto(body@, j as int, x));
                        }
                        if body_lists_upto(body@, j as int, x) {
                            assert(body_lists_upto(body@, j as int + 1, x));
                        }
                    }
                }
            }
            j = j + 1;
        }
        proof {
            assert forall|i: int| 0 <= i < cap implies self.data@[i] == apply_body(
                data0,
                body@,
            )[i] by {
                let b = i / (BLOCK_SIZE as int);
                if body_lists_upto(body@, n as int, b) {
                    assert(body_lists(body@, b));
                } else {
                    assert(!body_lists(body@, b));
                    assert(apply_body(data0, body@)[i] == data0[i]);
                }
            }
            assert(self.data@ =~= apply_body(data0, body@));
            assert forall|i: int|
                0 <= i < self.bytes().len() && !self.dirty_block(
                    i / (BLOCK_SIZE as int),
                ) implies #[trigger] self.bytes()[i] == self.disk()[i] by {
                assert(!body_lists_upto(body@, n as int, i / (BLOCK_SIZE as int)));
                assert(!old(self).dirty_block(i / (BLOCK_SIZE as int)));
            }
        }
    }

    /// Applies every record from `start` to the journal's end, in order.
    #[verifier::rlimit(100)]
    #[verifier::spinoff_prover]
    fn apply_tail(&mut self, h: &[u8], start: usize)
        requires
            old(self).wf(),
            start <= h@.len(),
            tail_wf(h@, start as int, old(self).capacity()),
        ensures
            final(self).wf(),
            final(self).length() == old(self).length(),
            final(self).capacity() == old(self).capacity(),
            final(self).disk() == old(self).disk(),
            final(self).bytes() == replay(h@, start as int, old(self).bytes()),
            forall|b: int| old(self).dirty_block(b) ==> final(self).dirty_block(b),
    {
        let hlen = h.len();
        let mut pos = start;
        loop
            invariant
                start <= pos <= hlen,
                hlen == h@.len(),
                self.wf(),
                tail_wf(h@, pos as int, self.capacity()),
                self.capacity() == old(self).capacity(),
                self.length() == old(self).length(),
                self.disk() == old(self).disk(),
                replay(h@, start as int, old(self).bytes()) == replay(
                    h@,
                    pos as int,
                    self.bytes(),
                ),
                forall|b: int| old(self).dirty_block(b) ==> self.dirty_block(b),
            decreases hlen - pos,
        {
            if pos == hlen {
                return ;
            }
            match try_header(h, pos) {
                Option::None => {
                    proof {
                        assert(false);
                    }
                    return ;
                },
                Option::Some((_t, _cnt, end)) => {
                    let body = slice_subrange(h, pos + 16, end);
                    proof {
                        assert(body@ == rec_body(h@, pos as int));
                        assert(body_wf(body@, self.capacity()));
                    }
                    self.apply(body);
                    pos = end;
                },
            }
        }
    }

    /// Undoes every change journaled after the record carrying tick `to`:
    /// scans `h` from its start for that record, checks that the rest of
    /// the journal is whole, then adds each remaining record's deltas back
    /// onto the live bytes. On any error the store is left untouched: a
    /// tick no record carries is reported as `TickNotFound`, and a journal
    /// that does not end on a record boundary, or lists a block outside
    /// the store, as `CorruptJournal`.
    pub fn restore(&mut self, h: &[u8], to: Tick) -> (r: Result<(), StoreError>)
        requires
            old(self).wf(),
        ensures
            final(self).wf(),
            final(self).length() == old(self).length(),
            final(self).capacity() == old(self).capacity(),
            final(self).disk() == old(self).disk(),
            forall|b: int| old(self).dirty_block(b) ==> final(self).dirty_block(b),
            r is Err ==> *final(self) == *old(self),
            (r == Err::<(), StoreError>(StoreError::TickNotFound)) == (find_target(
                h@,
                0,
                to.value(),
            ) is None),
            find_target(h@, 0, to.value()) matches Some(p) ==> ((r is Ok) == tail_wf(
                h@,
                p,
                old(self).capacity(),
            )),
            find_target(h@, 0, to.value()) matches Some(p) ==> (r is Ok ==> final(self).bytes()
                == replay(h@, p, old(self).bytes())),
            r is Ok || r == Err::<(), StoreError>(StoreError::TickNotFound) || r == Err::<
                (),
                StoreError,
            >(StoreError::CorruptJournal),
    {
        match scan_find(h, to.get()) {
            Option::None => Err(StoreError::TickNotFound),
            Option::Some(p) => {
                let cap = self.data.len();
                if !check_tail(h, p, cap) {
                    Err(StoreError::CorruptJournal)
                } else {
                    self.apply_tail(h, p);
                    Ok(())
                }
            },
        }
    }

    /// Reports, without mutating anything, how `restore` with this
    /// journal and target would end.
    pub fn probe_restore(&self, h: &[u8], to: Tick) -> (r: Result<(), StoreError>)
        ensures
            (r == Err::<(), StoreError>(StoreError::TickNotFound)) == (find_target(
                h@,
                0,
                to.value(),
            ) is None),
            find_target(h@, 0, to.value()) matches Some(p) ==> ((r is Ok) == tail_wf(
                h@,
                p,
                self.capacity(),
            )),
            r is Ok || r == Err::<(), StoreError>(StoreError::TickNotFound) || r == Err::<
                (),
                StoreError,
            >(StoreError::CorruptJournal),
    {
        match scan_find(h, to.get()) {
            Option::None => Err(StoreError::TickNotFound),
            Option::Some(p) => {
                if check_tail(h, p, self.data.len()) {
                    Ok(())
                } else {
                    Err(StoreError::CorruptJournal)
                }
            },
        }
    }

    /// Whether `restore` with this journal and target would succeed.
    pub fn check_restore(&self, h: &[u8], to: Tick) -> (r: bool)
        ensures
            r == (find_target(h@, 0, to.value()) matches Some(p) && tail_wf(
                h@,
                p,
                self.capacity(),
            )),
    {
        match scan_find(h, to.get()) {
            Option::None => false,
            Option::Some(p) => check_tail(h, p, self.data.len()),
        }
    }

    /// Undo correctness at the store level: the deltas `sync` emits,
    /// added back onto the live bytes they were computed from, recover
    /// the on-disk snapshot as of the previous checkpoint — because
    /// every byte outside a dirty block already agrees with that
    /// snapshot.
    pub proof fn lemma_sync_record_undoes(self)
        requires
            self.wf(),
        ensures
            apply_body(
                self.bytes(),
                blocks_bytes(self.dirty_blocks()) + payload_bytes(
                    self.disk(),
                    self.bytes(),
                    self.dirty_blocks(),
                ),
            ) == self.disk(),
    {
        self.lemma_dirty_blocks();
        let blocks = self.dirty_blocks();
        assert forall|j: int|
            0 <= j < blocks.len() implies ((#[trigger] blocks[j]) as int) * (BLOCK_SIZE as int)
            + BLOCK_SIZE <= self.capacity() by {
            lemma_block_offset(self.capacity(), blocks[j] as int);
        }
        assert forall|i: int|
            0 <= i < self.capacity() && !(exists|j: int|
                0 <= j < blocks.len() && (#[trigger] blocks[j]) as int == i / (
                BLOCK_SIZE as int)) implies #[trigger] self.bytes()[i] == self.disk()[i] by {
            let b = i / (BLOCK_SIZE as int);
            vstd::arithmetic::div_mod::lemma_div_is_ordered(0, i, BLOCK_SIZE as int);
            if self.dirty_block(b) {
                let k = choose|k: int|
                    0 <= k < self.dirty_blocks().len() && (#[trigger] self.dirty_blocks()[k]) as int
                        == b;
                assert(blocks[k] as int == b);
                assert(false);
            }
        }
        crate::journal::lemma_record_undoes_changes(
            self.disk(),
            self.bytes(),
            blocks,
            self.capacity(),
        );
    }

    /// Undo correctness through the journal: take a store that was
    /// checkpointed (its snapshot holds the bytes recorded then), mutated,
    /// and checkpointed again, so that the journal's remainder after the
    /// earlier checkpoint's record is exactly the record the later
    /// checkpoint emitted. Restoring to the earlier tick replays that one
    /// record and reproduces, byte for byte, the state as recorded at the
    /// earlier checkpoint — not any state before it.
    pub proof fn lemma_undo_one_checkpoint(self, g: Seq<u8>, t1: u64, p: int)
        requires
            self.wf(),
            0 <= p <= g.len(),
            g.subrange(p, g.len() as int) == encode_record(
                t1,
                self.disk(),
                self.bytes(),
                self.dirty_blocks(),
            ),
        ensures
            tail_wf(g, p, self.capacity()),
            replay(g, p, self.bytes()) == self.disk(),
    {
        self.lemma_dirty_blocks();
        let blocks = self.dirty_blocks();
        crate::journal::lemma_record_parses_at(g, p, t1, self.disk(), self.bytes(), blocks);
        assert forall|j: int|
            0 <= j < blocks.len() implies ((#[trigger] blocks[j]) as int) * (BLOCK_SIZE as int)
            + BLOCK_SIZE <= self.capacity() by {
            lemma_block_offset(self.capacity(), blocks[j] as int);
        }
        crate::journal::lemma_record_body(self.disk(), self.bytes(), blocks, self.capacity());
        assert(crate::journal::body_wf(rec_body(g, p), self.capacity()));
        assert(tail_wf(g, p + rec_size(g, p), self.capacity()));
        self.lemma_sync_record_undoes();
        assert(replay(g, p, self.bytes()) == replay(
            g,
            p + rec_size(g, p),
            apply_body(self.bytes(), rec_body(g, p)),
        ));
    }

    proof fn lemma_set_wf(self, prev: Blocks, start: int, src: Seq<u8>)
        requires
            prev.wf(),
            0 <= start,
            start + src.len() <= prev.capacity(),
            self.snapshot@ == prev.snapshot@,
            self.length == prev.length,
            self.dirty@.len() == prev.dirty@.len(),
            self.data@ == splice(prev.data@, start, src),
            forall|b: int| prev.dirty_block(b) ==> self.dirty_block(b),
            forall|b: int|
                src.len() > 0 && start / (BLOCK_SIZE as int) <= b <= (start + src.len() - 1) / (
                BLOCK_SIZE as int) ==> self.dirty_block(b),
        ensures
            self.wf(),
    {
        crate::bytes::lemma_splice_index(prev.data@, start, src);
        assert forall|i: int|
            0 <= i < self.data@.len() && !self.dirty_block(
                i / (BLOCK_SIZE as int),
            ) implies #[trigger] self.data@[i] == self.snapshot@[i] by {
            let b = i / (BLOCK_SIZE as int);
            vstd::arithmetic::div_mod::lemma_div_is_ordered(0, i, BLOCK_SIZE as int);
            if start <= i < start + src.len() {
                vstd::arithmetic::div_mod::lemma_div_is_ordered(start, i, BLOCK_SIZE as int);
                vstd::arithmetic::div_mod::lemma_div_is_ordered(
                    i,
                    start + src.len() - 1,
                    BLOCK_SIZE as int,
                );
                assert(self.dirty_block(b));
            } else {
                assert(self.data@[i] == prev.data@[i]);
            }
        }
    }
}

} // verus!
