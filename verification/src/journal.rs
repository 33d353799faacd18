//! The journal record layout and its replay semantics.
//!
//! A journal is an append-only sequence of records. Each record is
//!
//! ```text
//! tick          : 8 bytes, little endian
//! block_count   : 8 bytes, little endian
//! block_indices : block_count x 8 bytes, ascending, unique
//! payload       : block_count x BLOCK_SIZE bytes of per-byte deltas
//!                 (old - new, wrapping), one chunk per listed block
//! ```
//!
//! Everything after the 16-byte header is the record's *body*. Applying a
//! body adds each delta back onto the live bytes with wrapping addition;
//! because wrapping addition is commutative and associative, the records
//! remaining after a restore target can be applied in any order.

use vstd::prelude::*;

use crate::BLOCK_SIZE;
use crate::bytes::{byte_add, byte_sub, lemma_byte_add_exchange, lemma_byte_undo, lemma_u64_le_decode, u64_from_le, u64_le};

verus! {

/// Bytes one listed block contributes to a record body: its index plus
/// its delta payload.
pub open spec fn diff_unit() -> int {
    8 + BLOCK_SIZE as int
}

/// How many blocks a record body lists.
pub open spec fn body_count(body: Seq<u8>) -> int {
    body.len() as int / diff_unit()
}

/// The `j`-th block index a record body lists.
pub open spec fn body_index(body: Seq<u8>, j: int) -> int {
    u64_from_le(body.subrange(8 * j, 8 * j + 8)) as int
}

/// The `k`-th delta byte of the `j`-th listed block.
pub open spec fn body_delta(body: Seq<u8>, j: int, k: int) -> u8 {
    body[body_count(body) * 8 + j * (BLOCK_SIZE as int) + k]
}

/// A record body fit to apply to a store of `cap` committed bytes: whole
/// in units, every listed block committed, indices strictly ascending.
pub open spec fn body_wf(body: Seq<u8>, cap: int) -> bool {
    &&& body.len() % (diff_unit() as nat) == 0
    &&& forall|j: int|
        0 <= j < body_count(body) ==> #[trigger] body_index(body, j) * (BLOCK_SIZE as int)
            + BLOCK_SIZE <= cap
    &&& forall|j: int|
        0 <= j < body_count(body) - 1 ==> #[trigger] body_index(body, j) < body_index(body, j + 1)
}

/// Whether a record body lists block `b` among its first `upto` entries.
pub open spec fn body_lists_upto(body: Seq<u8>, upto: int, b: int) -> bool {
    exists|j: int| 0 <= j < upto && body_index(body, j) == b
}

/// Whether a record body lists block `b`.
pub open spec fn body_lists(body: Seq<u8>, b: int) -> bool {
    body_lists_upto(body, body_count(body), b)
}

/// The position at which a record body lists block `b`.
pub open spec fn body_slot(body: Seq<u8>, b: int) -> int {
    choose|j: int| 0 <= j < body_count(body) && body_index(body, j) == b
}

/// Ascending block indices are pairwise distinct.
pub proof fn lemma_body_index_increasing(body: Seq<u8>, cap: int, j1: int, j2: int)
    requires
        body_wf(body, cap),
        0 <= j1 < j2 < body_count(body),
    ensures
        body_index(body, j1) < body_index(body, j2),
    decreases j2 - j1,
{
    if j1 + 1 < j2 {
        lemma_body_index_increasing(body, cap, j1, j2 - 1);
    }
}

/// The live bytes after a record body's deltas are added back on.
pub open spec fn apply_body(data: Seq<u8>, body: Seq<u8>) -> Seq<u8> {
    Seq::new(
        data.len(),
        |i: int|
            {
                let b = i / (BLOCK_SIZE as int);
                if body_lists(body, b) {
                    byte_add(data[i], body_delta(body, body_slot(body, b), i % (BLOCK_SIZE as int)))
                } else {
                    data[i]
                }
            },
    )
}

/// The little-endian encodings of the listed block indices, in order.
pub open spec fn blocks_bytes(blocks: Seq<usize>) -> Seq<u8>
    decreases blocks.len(),
{
    if blocks.len() == 0 {
        Seq::empty()
    } else {
        blocks_bytes(blocks.drop_last()) + u64_le(blocks.last() as u64)
    }
}

/// The delta payload of one block: `old - new` per byte, wrapping, where
/// `snap` holds the old (on-disk) bytes and `data` the new (live) ones.
pub open spec fn block_delta(snap: Seq<u8>, data: Seq<u8>, b: int) -> Seq<u8> {
    Seq::new(
        BLOCK_SIZE as nat,
        |k: int| byte_sub(snap[b * (BLOCK_SIZE as int) + k], data[b * (BLOCK_SIZE as int) + k]),
    )
}

/// The delta payloads of the listed blocks, concatenated in order.
pub open spec fn payload_bytes(snap: Seq<u8>, data: Seq<u8>, blocks: Seq<usize>) -> Seq<u8>
    decreases blocks.len(),
{
    if blocks.len() == 0 {
        Seq::empty()
    } else {
        payload_bytes(snap, data, blocks.drop_last()) + block_delta(
            snap,
            data,
            blocks.last() as int,
        )
    }
}

/// A whole record: header, indices, payloads.
pub open spec fn encode_record(tick: u64, snap: Seq<u8>, data: Seq<u8>, blocks: Seq<usize>) -> Seq<
    u8,
> {
    u64_le(tick) + u64_le(blocks.len() as u64) + blocks_bytes(blocks) + payload_bytes(
        snap,
        data,
        blocks,
    )
}

/// The tick of the record starting at `pos`.
pub open spec fn rec_tick(h: Seq<u8>, pos: int) -> u64 {
    u64_from_le(h.subrange(pos, pos + 8))
}

/// The block count of the record starting at `pos`.
pub open spec fn rec_count(h: Seq<u8>, pos: int) -> int {
    u64_from_le(h.subrange(pos + 8, pos + 16)) as int
}

/// The total size of the record starting at `pos`.
pub open spec fn rec_size(h: Seq<u8>, pos: int) -> int {
    16 + rec_count(h, pos) * diff_unit()
}

/// Whether a whole record fits at `pos`.
pub open spec fn rec_fits(h: Seq<u8>, pos: int) -> bool {
    &&& pos + 16 <= h.len()
    &&& pos + rec_size(h, pos) <= h.len()
}

/// The body of the record starting at `pos`.
pub open spec fn rec_body(h: Seq<u8>, pos: int) -> Seq<u8> {
    h.subrange(pos + 16, pos + rec_size(h, pos))
}

/// Scans the journal from `pos` for the first record carrying tick `to`
/// and yields the position just after it; `None` when the scan runs off
/// the journal first.
pub open spec fn find_target(h: Seq<u8>, pos: int, to: u64) -> Option<int>
    decreases h.len() - pos
        when 0 <= pos <= h.len()
{
    if !rec_fits(h, pos) {
        None
    } else if rec_tick(h, pos) == to {
        Some(pos + rec_size(h, pos))
    } else {
        find_target(h, pos + rec_size(h, pos), to)
    }
}

/// Whether the journal from `pos` to its end is a whole number of
/// records, each fit to apply to a store of `cap` committed bytes.
pub open spec fn tail_wf(h: Seq<u8>, pos: int, cap: int) -> bool
    decreases h.len() - pos
        when 0 <= pos <= h.len()
{
    if pos == h.len() {
        true
    } else if !rec_fits(h, pos) {
        false
    } else {
        body_wf(rec_body(h, pos), cap) && tail_wf(h, pos + rec_size(h, pos), cap)
    }
}

/// The live bytes after every record from `pos` to the journal's end has
/// been applied, in order.
pub open spec fn replay(h: Seq<u8>, pos: int, data: Seq<u8>) -> Seq<u8>
    decreases h.len() - pos
        when 0 <= pos <= h.len()
{
    if pos == h.len() || !rec_fits(h, pos) {
        data
    } else {
        replay(h, pos + rec_size(h, pos), apply_body(data, rec_body(h, pos)))
    }
}

/// Whether any whole record from `pos` on carries tick `t`.
pub open spec fn tail_has_tick(h: Seq<u8>, pos: int, t: u64) -> bool
    decreases h.len() - pos
        when 0 <= pos <= h.len()
{
    if !rec_fits(h, pos) {
        false
    } else {
        rec_tick(h, pos) == t || tail_has_tick(h, pos + rec_size(h, pos), t)
    }
}

pub proof fn lemma_blocks_bytes_len(blocks: Seq<usize>)
    ensures
        blocks_bytes(blocks).len() == 8 * blocks.len(),
    decreases blocks.len(),
{
    if blocks.len() > 0 {
        lemma_blocks_bytes_len(blocks.drop_last());
    }
}

pub proof fn lemma_payload_bytes_len(snap: Seq<u8>, data: Seq<u8>, blocks: Seq<usize>)
    ensures
        payload_bytes(snap, data, blocks).len() == blocks.len() * (BLOCK_SIZE as int),
    decreases blocks.len(),
{
    if blocks.len() > 0 {
        lemma_payload_bytes_len(snap, data, blocks.drop_last());
        assert((blocks.len() - 1) * (BLOCK_SIZE as int) + BLOCK_SIZE == blocks.len() * (
        BLOCK_SIZE as int)) by (nonlinear_arith);
    } else {
        assert(blocks.len() * (BLOCK_SIZE as int) == 0) by (nonlinear_arith)
            requires
                blocks.len() == 0,
        ;
    }
}

pub proof fn lemma_blocks_bytes_index(blocks: Seq<usize>, j: int)
    requires
        0 <= j < blocks.len(),
    ensures
        blocks_bytes(blocks).subrange(8 * j, 8 * j + 8) == u64_le(blocks[j] as u64),
    decreases blocks.len(),
{
    lemma_blocks_bytes_len(blocks);
    lemma_blocks_bytes_len(blocks.drop_last());
    if j == blocks.len() - 1 {
        assert(blocks_bytes(blocks).subrange(8 * j, 8 * j + 8) =~= u64_le(blocks.last() as u64));
    } else {
        lemma_blocks_bytes_index(blocks.drop_last(), j);
        assert(blocks_bytes(blocks).subrange(8 * j, 8 * j + 8) =~= blocks_bytes(
            blocks.drop_last(),
        ).subrange(8 * j, 8 * j + 8));
    }
}

pub proof fn lemma_payload_bytes_index(
    snap: Seq<u8>,
    data: Seq<u8>,
    blocks: Seq<usize>,
    j: int,
    k: int,
)
    requires
        0 <= j < blocks.len(),
        0 <= k < BLOCK_SIZE,
    ensures
        payload_bytes(snap, data, blocks)[j * (BLOCK_SIZE as int) + k] == byte_sub(
            snap[blocks[j] as int * (BLOCK_SIZE as int) + k],
            data[blocks[j] as int * (BLOCK_SIZE as int) + k],
        ),
    decreases blocks.len(),
{
    let bs = BLOCK_SIZE as int;
    let n = blocks.len() as int;
    lemma_payload_bytes_len(snap, data, blocks.drop_last());
    assert(0 <= j * bs + k) by (nonlinear_arith)
        requires
            0 <= j,
            0 <= k,
            0 < bs,
    ;
    if j == n - 1 {
        assert(j * bs + k - (n - 1) * bs == k) by (nonlinear_arith)
            requires
                j == n - 1,
        ;
        assert(payload_bytes(snap, data, blocks)[j * bs + k] == block_delta(
            snap,
            data,
            blocks.last() as int,
        )[k]);
    } else {
        assert(j * bs + k < (n - 1) * bs) by (nonlinear_arith)
            requires
                j <= n - 2,
                0 <= k < bs,
                0 < bs,
        ;
        lemma_payload_bytes_index(snap, data, blocks.drop_last(), j, k);
    }
}

/// The body of an encoded record lists exactly the encoded blocks, with
/// the per-byte deltas of the snapshot against the live bytes.
pub proof fn lemma_record_body(snap: Seq<u8>, data: Seq<u8>, blocks: Seq<usize>, cap: int)
    requires
        0 <= cap,
        forall|j: int|
            0 <= j < blocks.len() ==> ((#[trigger] blocks[j]) as int) * (BLOCK_SIZE as int)
                + BLOCK_SIZE <= cap,
        forall|j: int| 0 <= j < blocks.len() - 1 ==> (#[trigger] blocks[j]) < blocks[j + 1],
    ensures
        ({
            let body = blocks_bytes(blocks) + payload_bytes(snap, data, blocks);
            &&& body_count(body) == blocks.len()
            &&& body_wf(body, cap)
            &&& forall|j: int|
                0 <= j < blocks.len() ==> #[trigger] body_index(body, j) == blocks[j] as int
            &&& forall|j: int, k: int|
                0 <= j < blocks.len() && 0 <= k < BLOCK_SIZE ==> #[trigger] body_delta(body, j, k)
                    == byte_sub(
                    snap[blocks[j] as int * (BLOCK_SIZE as int) + k],
                    data[blocks[j] as int * (BLOCK_SIZE as int) + k],
                )
        }),
{
    let body = blocks_bytes(blocks) + payload_bytes(snap, data, blocks);
    let n = blocks.len() as int;
    let bs = BLOCK_SIZE as int;
    lemma_blocks_bytes_len(blocks);
    lemma_payload_bytes_len(snap, data, blocks);
    assert(body.len() == n * diff_unit()) by (nonlinear_arith)
        requires
            body.len() == 8 * n + n * bs,
            diff_unit() == 8 + bs,
    ;
    assert(body_count(body) == n) by {
        vstd::arithmetic::mul::lemma_mul_is_commutative(n, diff_unit());
        vstd::arithmetic::div_mod::lemma_div_multiples_vanish(n, diff_unit());
    }
    assert(body.len() % (diff_unit() as nat) == 0) by {
        vstd::arithmetic::mul::lemma_mul_is_commutative(n, diff_unit());
        vstd::arithmetic::div_mod::lemma_mod_multiples_basic(n, diff_unit());
    }
    assert forall|j: int| 0 <= j < n implies #[trigger] body_index(body, j) == blocks[j] as int by {
        assert(8 * j + 8 <= 8 * n) by (nonlinear_arith)
            requires
                j + 1 <= n,
        ;
        assert(body.subrange(8 * j, 8 * j + 8) =~= blocks_bytes(blocks).subrange(
            8 * j,
            8 * j + 8,
        ));
        lemma_blocks_bytes_index(blocks, j);
        lemma_u64_le_decode(blocks[j] as u64);
    }
    assert forall|j: int, k: int|
        0 <= j < n && 0 <= k < BLOCK_SIZE implies #[trigger] body_delta(body, j, k) == byte_sub(
        snap[blocks[j] as int * bs + k],
        data[blocks[j] as int * bs + k],
    ) by {
        assert(0 <= j * bs + k && j * bs + k < n * bs) by (nonlinear_arith)
            requires
                0 <= j,
                j + 1 <= n,
                0 <= k < bs,
                0 < bs,
        ;
        assert(body[n * 8 + j * bs + k] == payload_bytes(snap, data, blocks)[j * bs + k]);
        lemma_payload_bytes_index(snap, data, blocks, j, k);
    }
}

/// Undo correctness: a checkpoint record's deltas, added back onto the
/// very bytes the record was computed from, recover the snapshot the
/// record diffed against — provided every byte outside the listed blocks
/// already agrees with the snapshot, which is exactly the dirty-tracking
/// invariant at checkpoint time.
pub proof fn lemma_record_undoes_changes(snap: Seq<u8>, data: Seq<u8>, blocks: Seq<usize>, cap: int)
    requires
        snap.len() == cap,
        data.len() == cap,
        0 <= cap,
        forall|j: int|
            0 <= j < blocks.len() ==> ((#[trigger] blocks[j]) as int) * (BLOCK_SIZE as int)
                + BLOCK_SIZE <= cap,
        forall|j: int| 0 <= j < blocks.len() - 1 ==> (#[trigger] blocks[j]) < blocks[j + 1],
        forall|i: int|
            0 <= i < cap && !(exists|j: int|
                0 <= j < blocks.len() && (#[trigger] blocks[j]) as int == i / (BLOCK_SIZE as int))
                ==> #[trigger] data[i] == snap[i],
    ensures
        apply_body(data, blocks_bytes(blocks) + payload_bytes(snap, data, blocks)) == snap,
{
    let body = blocks_bytes(blocks) + payload_bytes(snap, data, blocks);
    let n = blocks.len() as int;
    let bs = BLOCK_SIZE as int;
    lemma_record_body(snap, data, blocks, cap);
    assert forall|i: int| 0 <= i < cap implies apply_body(data, body)[i] == snap[i] by {
        let b = i / bs;
        vstd::arithmetic::div_mod::lemma_fundamental_div_mod(i, bs);
        vstd::arithmetic::div_mod::lemma_mod_bound(i, bs);
        if body_lists(body, b) {
            let j = body_slot(body, b);
            assert(0 <= j < n && body_index(body, j) == b);
            assert(blocks[j] as int == b);
            assert(b * bs + i % bs == i);
            assert(body_delta(body, j, i % bs) == byte_sub(snap[i], data[i]));
            lemma_byte_undo(snap[i], data[i]);
        } else {
            if exists|j: int|
                0 <= j < blocks.len() && (#[trigger] blocks[j]) as int == i / (BLOCK_SIZE as int) {
                let j = choose|j: int|
                    0 <= j < blocks.len() && (#[trigger] blocks[j]) as int == i / (
                    BLOCK_SIZE as int);
                assert(body_index(body, j) == b);
                assert(body_lists_upto(body, body_count(body), b));
                assert(false);
            }
            assert(data[i] == snap[i]);
        }
    }
    assert(apply_body(data, body) =~= snap);
}

/// Commutative replay: two well-formed record bodies, applied in either
/// order, leave the same live bytes.
pub proof fn lemma_apply_body_commutes(data: Seq<u8>, b1: Seq<u8>, b2: Seq<u8>, cap: int)
    requires
        data.len() == cap,
        body_wf(b1, cap),
        body_wf(b2, cap),
    ensures
        apply_body(apply_body(data, b1), b2) == apply_body(apply_body(data, b2), b1),
{
    let x = apply_body(apply_body(data, b1), b2);
    let y = apply_body(apply_body(data, b2), b1);
    assert forall|i: int| 0 <= i < data.len() implies x[i] == y[i] by {
        let b = i / (BLOCK_SIZE as int);
        if body_lists(b1, b) && body_lists(b2, b) {
            let d1 = body_delta(b1, body_slot(b1, b), i % (BLOCK_SIZE as int));
            let d2 = body_delta(b2, body_slot(b2, b), i % (BLOCK_SIZE as int));
            assert(x[i] == byte_add(byte_add(data[i], d1), d2));
            assert(y[i] == byte_add(byte_add(data[i], d2), d1));
            lemma_byte_add_exchange(data[i], d1, d2);
        }
    }
    assert(x =~= y);
}

/// A journal whose remainder is exactly one encoded record parses that
/// record back: its tick, count, size and body are the encoded ones.
pub proof fn lemma_record_parses_at(
    g: Seq<u8>,
    pos: int,
    t: u64,
    snap: Seq<u8>,
    data: Seq<u8>,
    blocks: Seq<usize>,
)
    requires
        0 <= pos <= g.len(),
        g.subrange(pos, g.len() as int) == encode_record(t, snap, data, blocks),
        blocks.len() <= u64::MAX,
    ensures
        rec_fits(g, pos),
        rec_tick(g, pos) == t,
        rec_count(g, pos) == blocks.len(),
        pos + rec_size(g, pos) == g.len(),
        rec_body(g, pos) == blocks_bytes(blocks) + payload_bytes(snap, data, blocks),
{
    let rec = encode_record(t, snap, data, blocks);
    lemma_blocks_bytes_len(blocks);
    lemma_payload_bytes_len(snap, data, blocks);
    assert(g.len() - pos == rec.len());
    assert forall|i: int| pos <= i < g.len() implies #[trigger] g[i] == rec[i - pos] by {
        assert(g.subrange(pos, g.len() as int)[i - pos] == g[i]);
    }
    assert(g.subrange(pos, pos + 8) =~= u64_le(t));
    lemma_u64_le_decode(t);
    assert(g.subrange(pos + 8, pos + 16) =~= u64_le(blocks.len() as u64));
    lemma_u64_le_decode(blocks.len() as u64);
    assert(rec_count(g, pos) == blocks.len());
    assert(rec_size(g, pos) == rec.len()) by (nonlinear_arith)
        requires
            rec_size(g, pos) == 16 + rec_count(g, pos) * diff_unit(),
            rec_count(g, pos) == blocks.len(),
            diff_unit() == 8 + BLOCK_SIZE as int,
            rec.len() == 16 + 8 * blocks.len() + blocks.len() * (BLOCK_SIZE as int),
    ;
    assert(rec_body(g, pos) =~= blocks_bytes(blocks) + payload_bytes(snap, data, blocks));
}

/// Appending records to a journal does not move an already found restore
/// target: the scan only reads whole records that lie before it.
pub proof fn lemma_find_stable_under_append(h: Seq<u8>, g: Seq<u8>, pos: int, t: u64)
    requires
        h.len() <= g.len(),
        g.subrange(0, h.len() as int) == h,
        0 <= pos <= h.len(),
        find_target(h, pos, t) is Some,
    ensures
        find_target(g, pos, t) == find_target(h, pos, t),
    decreases h.len() - pos,
{
    lemma_parse_stable(h, g, pos);
    if rec_tick(h, pos) != t {
        lemma_find_stable_under_append(h, g, pos + rec_size(h, pos), t);
    }
}

proof fn lemma_parse_stable(h: Seq<u8>, g: Seq<u8>, pos: int)
    requires
        h.len() <= g.len(),
        g.subrange(0, h.len() as int) == h,
        0 <= pos,
        rec_fits(h, pos),
    ensures
        rec_tick(g, pos) == rec_tick(h, pos),
        rec_count(g, pos) == rec_count(h, pos),
        rec_size(g, pos) == rec_size(h, pos),
        rec_fits(g, pos),
        rec_body(g, pos) == rec_body(h, pos),
{
    vstd::arithmetic::mul::lemma_mul_nonnegative(rec_count(h, pos), diff_unit());
    assert(g.subrange(pos, pos + 8) =~= h.subrange(pos, pos + 8));
    assert(g.subrange(pos + 8, pos + 16) =~= h.subrange(pos + 8, pos + 16));
    assert(rec_body(g, pos) =~= rec_body(h, pos));
}

proof fn lemma_find_after_append(
    h: Seq<u8>,
    t: u64,
    snap: Seq<u8>,
    data: Seq<u8>,
    blocks: Seq<usize>,
    cap: int,
    pos: int,
)
    requires
        0 <= pos <= h.len(),
        tail_wf(h, pos, cap),
        !tail_has_tick(h, pos, t),
        blocks.len() <= u64::MAX,
    ensures
        find_target(h + encode_record(t, snap, data, blocks), pos, t) == Some(
            (h + encode_record(t, snap, data, blocks)).len() as int,
        ),
    decreases h.len() - pos,
{
    let rec = encode_record(t, snap, data, blocks);
    let g = h + rec;
    lemma_blocks_bytes_len(blocks);
    lemma_payload_bytes_len(snap, data, blocks);
    if pos == h.len() {
        assert(g.subrange(pos, pos + 8) =~= u64_le(t));
        lemma_u64_le_decode(t);
        assert(g.subrange(pos + 8, pos + 16) =~= u64_le(blocks.len() as u64));
        lemma_u64_le_decode(blocks.len() as u64);
        assert(rec_count(g, pos) == blocks.len());
        assert(rec_size(g, pos) == rec.len()) by (nonlinear_arith)
            requires
                rec_size(g, pos) == 16 + rec_count(g, pos) * diff_unit(),
                rec_count(g, pos) == blocks.len(),
                diff_unit() == 8 + BLOCK_SIZE as int,
                rec.len() == 16 + 8 * blocks.len() + blocks.len() * (BLOCK_SIZE as int),
        ;
        assert(rec_fits(g, pos));
        assert(find_target(g, pos, t) == Some(g.len() as int));
    } else {
        assert(rec_fits(h, pos));
        assert(g.subrange(0, h.len() as int) =~= h);
        lemma_parse_stable(h, g, pos);
        assert(rec_tick(g, pos) != t);
        lemma_find_after_append(h, t, snap, data, blocks, cap, pos + rec_size(h, pos));
    }
}

/// A checkpoint followed at once by a restore to its own tick is a
/// no-op: when a journal none of whose records carries tick `t` is
/// extended with one record carrying `t`, restoring to `t` finds that
/// final record and replays nothing, leaving the live bytes untouched.
pub proof fn lemma_restore_after_sync(
    h: Seq<u8>,
    t: u64,
    snap: Seq<u8>,
    data: Seq<u8>,
    blocks: Seq<usize>,
    cap: int,
    live: Seq<u8>,
)
    requires
        tail_wf(h, 0, cap),
        !tail_has_tick(h, 0, t),
        blocks.len() <= u64::MAX,
    ensures
        find_target(h + encode_record(t, snap, data, blocks), 0, t) == Some(
            (h + encode_record(t, snap, data, blocks)).len() as int,
        ),
        tail_wf(
            h + encode_record(t, snap, data, blocks),
            (h + encode_record(t, snap, data, blocks)).len() as int,
            cap,
        ),
        replay(
            h + encode_record(t, snap, data, blocks),
            (h + encode_record(t, snap, data, blocks)).len() as int,
            live,
        ) == live,
{
    lemma_find_after_append(h, t, snap, data, blocks, cap, 0);
}

} // verus!
