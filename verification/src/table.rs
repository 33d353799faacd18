//! Generational tables: stable, reusable row identity across a set of
//! parallel columns, safe against stale handles.
//!
//! A table owns one generation column and any number of attribute
//! columns sharing row indices one to one, plus a free list of
//! recyclable row slots. A slot's stored generation is even exactly when
//! the slot is dead; the free list holds exactly the dead slots.
//! `insert` recycles the most recently freed slot or appends a fresh
//! row; `remove` accepts only a handle whose generation matches the
//! slot's current one, so a stale handle can never free a recycled slot.

use vstd::prelude::*;

use crate::bytes::u64_from_le;
use crate::column::Column;
use crate::generation::{Generation, GenerationalIndex};
use crate::journal::{encode_record, find_target, replay, tail_wf};
use crate::record::Record;
use crate::store::{StoreError, fits_store};
use crate::tick::Tick;

verus! {

pub struct Table<T: Record> {
    free: Vec<usize>,
    generations: Column<Generation>,
    attributes: Vec<Column<T>>,
}

impl<T: Record> Table<T> {
    /// The generation column.
    pub closed spec fn gens(self) -> Column<Generation> {
        self.generations
    }

    /// The attribute columns.
    pub closed spec fn attrs(self) -> Seq<Column<T>> {
        self.attributes@
    }

    /// The free list, oldest entry first.
    pub closed spec fn free_list(self) -> Seq<usize> {
        self.free@
    }

    /// The number of rows.
    pub open spec fn rows(self) -> int {
        self.gens().spec_len()
    }

    /// The stored generation of slot `i`.
    pub open spec fn gen_at(self, i: int) -> u64 {
        u64_from_le(self.gens().elem_bytes(i))
    }

    /// Whether slot `i` is dead (free or never allocated).
    pub open spec fn slot_dead(self, i: int) -> bool {
        self.gen_at(i) % 2 == 0
    }

    /// Whether the free list holds slot `i`.
    pub open spec fn free_has(self, i: int) -> bool {
        exists|k: int| 0 <= k < self.free_list().len() && (#[trigger] self.free_list()[k]) as int == i
    }

    pub open spec fn wf(self) -> bool {
        &&& self.gens().wf()
        &&& forall|c: int|
            0 <= c < self.attrs().len() ==> (#[trigger] self.attrs()[c]).wf()
                && self.attrs()[c].spec_len() == self.rows()
        &&& forall|k: int|
            0 <= k < self.free_list().len() ==> ((#[trigger] self.free_list()[k]) as int)
                < self.rows()
        &&& forall|k1: int, k2: int|
            0 <= k1 < k2 < self.free_list().len() ==> self.free_list()[k1]
                != self.free_list()[k2]
        &&& forall|i: int|
            0 <= i < self.rows() ==> (self.free_has(i) <==> #[trigger] self.slot_dead(i))
    }

    /// Opens an empty table with `num_attributes` attribute columns.
    pub fn new(num_attributes: usize) -> (r: Table<T>)
        ensures
            r.wf(),
            r.rows() == 0,
            r.attrs().len() == num_attributes,
            r.free_list().len() == 0,
            r.gens().journal() == Seq::<u8>::empty(),
            forall|c: int|
                0 <= c < num_attributes ==> (#[trigger] r.attrs()[c]).journal()
                    == Seq::<u8>::empty(),
    {
        let mut attributes: Vec<Column<T>> = Vec::new();
        let mut c: usize = 0;
        while c < num_attributes
            invariant
                c <= num_attributes,
                attributes@.len() == c,
                forall|c2: int|
                    0 <= c2 < c ==> (#[trigger] attributes@[c2]).wf() && attributes@[c2].spec_len()
                        == 0 && attributes@[c2].journal() == Seq::<u8>::empty(),
            decreases num_attributes - c,
        {
            attributes.push(Column::new());
            c = c + 1;
        }
        Table { free: Vec::new(), generations: Column::new(), attributes }
    }

    pub fn len(&self) -> (r: usize)
        requires
            self.wf(),
        ensures
            r as int == self.rows(),
    {
        self.generations.len()
    }

    pub fn num_attributes(&self) -> (r: usize)
        ensures
            r as int == self.attrs().len(),
    {
        self.attributes.len()
    }

    /// The stored generation of slot `i`.
    pub fn generation(&self, i: usize) -> (r: Generation)
        requires
            self.wf(),
            i < self.rows(),
        ensures
            r.value() == self.gen_at(i as int),
    {
        let g = self.generations.get_row(i);
        proof {
            crate::bytes::lemma_u64_le_decode(g.value());
        }
        g
    }

    /// Whether slot `i` is currently dead.
    pub fn is_dead(&self, i: usize) -> (r: bool)
        requires
            self.wf(),
            i < self.rows(),
        ensures
            r == self.slot_dead(i as int),
    {
        self.generation(i).is_dead()
    }

    /// Reads one attribute cell.
    pub fn read_attribute(&self, c: usize, i: usize) -> (r: T)
        requires
            self.wf(),
            c < self.attrs().len(),
            i < self.rows(),
        ensures
            r.encoded() == self.attrs()[c as int].elem_bytes(i as int),
    {
        self.attributes[c].get_row(i)
    }

    /// Reads a whole attribute column, for vectorized bulk work.
    pub fn read_attribute_range(&self, c: usize, start: usize, end: usize) -> (r: Vec<T>)
        requires
            self.wf(),
            c < self.attrs().len(),
            start <= end,
            end <= self.rows(),
        ensures
            r@.len() == end - start,
            forall|k: int|
                0 <= k < end - start ==> (#[trigger] r@[k]).encoded() == self.attrs()[
                c as int].elem_bytes(start + k),
    {
        self.attributes[c].get(start, end)
    }

    /// Overwrites the cells of attribute `c` at rows
    /// `[start, start + values.len())`, for vectorized bulk updates.
    pub fn write_attribute(&mut self, c: usize, start: usize, values: &Vec<T>)
        requires
            old(self).wf(),
            c < old(self).attrs().len(),
            start + values@.len() <= old(self).rows(),
        ensures
            final(self).wf(),
            final(self).rows() == old(self).rows(),
            final(self).attrs().len() == old(self).attrs().len(),
            final(self).free_list() == old(self).free_list(),
            final(self).gens() == old(self).gens(),
            forall|k: int|
                0 <= k < values@.len() ==> final(self).attrs()[c as int].elem_bytes(start + k) == (
                #[trigger] values@[k]).encoded(),
            forall|j: int|
                0 <= j < old(self).rows() && !(start <= j < start + values@.len()) ==> final(self).attrs()[c as int].elem_bytes(j) == old(self).attrs()[c as int].elem_bytes(j),
            forall|c2: int|
                0 <= c2 < old(self).attrs().len() && c2 != c ==> final(self).attrs()[c2] == old(
                    self,
                ).attrs()[c2],
            final(self).attrs()[c as int].journal() == old(self).attrs()[c as int].journal(),
    {
        let col = &mut self.attributes[c];
        col.set(start, values);
        proof {
            assert forall|c2: int|
                0 <= c2 < self.attrs().len() implies (#[trigger] self.attrs()[c2]).wf()
                && self.attrs()[c2].spec_len() == self.rows() by {
                if c2 != c {
                    assert(self.attrs()[c2] == old(self).attrs()[c2]);
                }
            }
            assert forall|i: int| 0 <= i < self.rows() implies (self.free_has(i)
                <==> #[trigger] self.slot_dead(i)) by {
                assert(old(self).free_has(i) <==> old(self).slot_dead(i));
                assert(self.gens() == old(self).gens());
                assert(self.gen_at(i) == old(self).gen_at(i));
                assert(self.free_list() == old(self).free_list());
                if self.free_has(i) {
                    let k = choose|k: int|
                        0 <= k < self.free_list().len() && (#[trigger] self.free_list()[k]) as int
                            == i;
                    assert((old(self).free_list()[k]) as int == i);
                    assert(old(self).free_has(i));
                }
                if old(self).free_has(i) {
                    let k = choose|k: int|
                        0 <= k < old(self).free_list().len() && (#[trigger] old(
                            self,
                        ).free_list()[k]) as int == i;
                    assert((self.free_list()[k]) as int == i);
                    assert(self.free_has(i));
                }
            }
        }
    }

    /// Allocates a row: recycles the most recently freed slot, advancing
    /// its generation from even (dead) to odd (live), or appends a fresh
    /// row with the first live generation. Every attribute cell of the
    /// slot is overwritten with the supplied value. The returned handle
    /// carries the slot's new, odd generation.
    pub fn insert(&mut self, values: &Vec<T>) -> (r: GenerationalIndex)
        requires
            old(self).wf(),
            values@.len() == old(self).attrs().len(),
            old(self).free_list().len() == 0 ==> fits_store(
                (old(self).rows() + 1) * (T::spec_width() as int),
            ) && fits_store((old(self).rows() + 1) * 8),
        ensures
            final(self).wf(),
            final(self).attrs().len() == old(self).attrs().len(),
            0 <= r.index < final(self).rows(),
            r.generation.value() == final(self).gen_at(r.index as int),
            r.generation.value() % 2 == 1,
            old(self).free_list().len() == 0 ==> {
                &&& final(self).rows() == old(self).rows() + 1
                &&& r.index as int == old(self).rows()
                &&& r.generation.value() == 1
                &&& final(self).free_list() == old(self).free_list()
            },
            old(self).free_list().len() > 0 ==> {
                &&& final(self).rows() == old(self).rows()
                &&& r.index == old(self).free_list().last()
                &&& r.generation.value() == old(self).gen_at(r.index as int) + 1
                &&& final(self).free_list() == old(self).free_list().drop_last()
            },
            forall|i: int|
                0 <= i < old(self).rows() && i != r.index ==> final(self).gen_at(i) == old(
                    self,
                ).gen_at(i),
            forall|c: int|
                0 <= c < values@.len() ==> final(self).attrs()[c].elem_bytes(r.index as int) == (
                #[trigger] values@[c]).encoded(),
            forall|c: int, i: int|
                0 <= c < values@.len() && 0 <= i < old(self).rows() && i != r.index ==> final(self).attrs()[c].elem_bytes(i) == old(self).attrs()[c].elem_bytes(i),
            final(self).gens().journal() == old(self).gens().journal(),
            forall|c: int|
                0 <= c < values@.len() ==> (#[trigger] final(self).attrs()[c]).journal() == old(
                    self,
                ).attrs()[c].journal(),
    {
        let m = self.attributes.len();
        match self.free.pop() {
            Option::Some(index) => {
                let g = self.generations.get_row(index);
                proof {
                    crate::bytes::lemma_u64_le_decode(g.value());
                    assert(old(self).free_has(index as int));
                    assert(old(self).slot_dead(index as int));
                    assert(g.value() < u64::MAX);
                }
                let g2 = g.next();
                self.generations.set_row(index, g2);
                proof {
                    crate::bytes::lemma_u64_le_decode(g2.value());
                }
                let ghost gens_mid = self.generations;
                let mut c: usize = 0;
                while c < m
                    invariant
                        c <= m,
                        m == values@.len(),
                        self.attributes@.len() == m,
                        index < old(self).rows(),
                        self.generations == gens_mid,
                        self.free@ == old(self).free@.drop_last(),
                        old(self).wf(),
                        m as int == old(self).attrs().len(),
                        self.generations.wf(),
                        self.generations.spec_len() == old(self).rows(),
                        forall|c2: int|
                            0 <= c2 < m ==> (#[trigger] self.attributes@[c2]).wf()
                                && self.attributes@[c2].spec_len() == old(self).rows(),
                        forall|c2: int|
                            0 <= c2 < c ==> (#[trigger] self.attributes@[c2]).elem_bytes(
                                index as int,
                            ) == values@[c2].encoded(),
                        forall|c2: int, i: int|
                            0 <= c2 < c && 0 <= i < old(self).rows() && i != index
                                ==> #[trigger] self.attributes@[c2].elem_bytes(i) == old(
                                self,
                            ).attrs()[c2].elem_bytes(i),
                        forall|c2: int|
                            0 <= c2 < c ==> (#[trigger] self.attributes@[c2]).journal() == old(
                                self,
                            ).attrs()[c2].journal(),
                        forall|c2: int|
                            c <= c2 < m ==> #[trigger] self.attributes@[c2] == old(self).attrs()[
                            c2],
                    decreases m - c,
                {
                    let col = &mut self.attributes[c];
                    col.set_row(index, values[c]);
                    c = c + 1;
                }
                let r = GenerationalIndex { generation: g2, index };
                proof {
                    self.lemma_insert_recycle_wf(*old(self), index as int);
                }
                r
            },
            Option::None => {
                let g1 = Generation::new(1);
                proof {
                    crate::generation::Generation::lemma_width();
                    crate::bytes::lemma_u64_le_decode(1u64);
                }
                let gs = vec![g1];
                proof {
                    old(self).gens().lemma_rows_within();
                }
                let (index, _e) = self.generations.append(&gs);
                let ghost gens_mid = self.generations;
                let mut c: usize = 0;
                while c < m
                    invariant
                        c <= m,
                        m == values@.len(),
                        self.attributes@.len() == m,
                        index as int == old(self).rows(),
                        self.generations == gens_mid,
                        self.free@ == old(self).free@,
                        old(self).wf(),
                        m as int == old(self).attrs().len(),
                        old(self).free_list().len() == 0,
                        fits_store((old(self).rows() + 1) * (T::spec_width() as int)),
                        self.generations.wf(),
                        self.generations.spec_len() == old(self).rows() + 1,
                        forall|c2: int|
                            0 <= c2 < c ==> (#[trigger] self.attributes@[c2]).wf()
                                && self.attributes@[c2].spec_len() == old(self).rows() + 1,
                        forall|c2: int|
                            0 <= c2 < c ==> (#[trigger] self.attributes@[c2]).elem_bytes(
                                index as int,
                            ) == values@[c2].encoded(),
                        forall|c2: int, i: int|
                            0 <= c2 < c && 0 <= i < old(self).rows()
                                ==> #[trigger] self.attributes@[c2].elem_bytes(i) == old(
                                self,
                            ).attrs()[c2].elem_bytes(i),
                        forall|c2: int|
                            0 <= c2 < c ==> (#[trigger] self.attributes@[c2]).journal() == old(
                                self,
                            ).attrs()[c2].journal(),
                        forall|c2: int|
                            c <= c2 < m ==> #[trigger] self.attributes@[c2] == old(self).attrs()[
                            c2],
                    decreases m - c,
                {
                    proof {
                        T::lemma_width();
                    }
                    let col = &mut self.attributes[c];
                    let vs = vec![values[c]];
                    proof {
                        assert(col.spec_len() == old(self).rows());
                        assert((col.spec_len() + vs@.len()) * (T::spec_width() as int) == (old(
                            self,
                        ).rows() + 1) * (T::spec_width() as int));
                    }
                    let (_s, _e2) = col.append(&vs);
                    c = c + 1;
                }
                let r = GenerationalIndex { generation: g1, index };
                proof {
                    self.lemma_insert_append_wf(*old(self), index as int);
                }
                r
            },
        }
    }

    /// Frees the slot a valid handle points at, advancing its generation
    /// from odd (live) to even (dead) and putting the slot on the free
    /// list. A handle whose generation does not match the slot's current
    /// one is stale: the call returns `false` and mutates nothing.
    pub fn remove(&mut self, index: GenerationalIndex) -> (r: bool)
        requires
            old(self).wf(),
            index.generation.value() < u64::MAX,
        ensures
            final(self).wf(),
            r == (index.index < old(self).rows() && index.generation.value() % 2 == 1 && old(
                self,
            ).gen_at(index.index as int) == index.generation.value()),
            !r ==> *final(self) == *old(self),
            final(self).gens().journal() == old(self).gens().journal(),
            r ==> {
                &&& final(self).rows() == old(self).rows()
                &&& final(self).attrs() == old(self).attrs()
                &&& final(self).gen_at(index.index as int) == index.generation.value() + 1
                &&& final(self).slot_dead(index.index as int)
                &&& final(self).free_list() == old(self).free_list().push(index.index)
                &&& forall|i: int|
                    0 <= i < old(self).rows() && i != index.index ==> final(self).gen_at(i) == old(
                        self,
                    ).gen_at(i)
            },
    {
        let rows = self.len();
        if index.index >= rows {
            return false;
        }
        if index.generation.is_dead() {
            return false;
        }
        let stored = self.generation(index.index);
        if stored.get() != index.generation.get() {
            return false;
        }
        let g2 = index.generation.next();
        self.generations.set_row(index.index, g2);
        self.free.push(index.index);
        proof {
            crate::bytes::lemma_u64_le_decode(g2.value());
            self.lemma_remove_wf(*old(self), index.index as int);
        }
        true
    }

    /// Checkpoints every column at `tick`: each column appends one
    /// record for its dirty blocks to its own journal and brings its
    /// on-disk snapshot up to date. No row changes.
    pub fn sync(&mut self, tick: Tick)
        requires
            old(self).wf(),
        ensures
            final(self).wf(),
            final(self).rows() == old(self).rows(),
            final(self).attrs().len() == old(self).attrs().len(),
            final(self).free_list() == old(self).free_list(),
            forall|i: int|
                0 <= i < old(self).rows() ==> final(self).gen_at(i) == old(self).gen_at(i),
            forall|c: int, i: int|
                0 <= c < old(self).attrs().len() && 0 <= i < old(self).rows() ==> final(self).attrs()[c].elem_bytes(i) == old(self).attrs()[c].elem_bytes(i),
            final(self).gens().journal() == old(self).gens().journal() + encode_record(
                tick.value(),
                old(self).gens().mapping().store().disk(),
                old(self).gens().mapping().store().bytes(),
                old(self).gens().mapping().store().dirty_blocks(),
            ),
            forall|c: int|
                0 <= c < old(self).attrs().len() ==> (#[trigger] final(self).attrs()[c]).journal()
                    == old(self).attrs()[c].journal() + encode_record(
                    tick.value(),
                    old(self).attrs()[c].mapping().store().disk(),
                    old(self).attrs()[c].mapping().store().bytes(),
                    old(self).attrs()[c].mapping().store().dirty_blocks(),
                ),
            final(self).gens().mapping().store().disk() == final(self).gens().mapping().store().bytes(),
            forall|c: int|
                0 <= c < old(self).attrs().len() ==> (#[trigger] final(self).attrs()[c]).mapping().store().disk() == final(self).attrs()[c].mapping().store().bytes(),
    {
        self.generations.sync(tick);
        let ghost gens_mid = self.generations;
        let m = self.attributes.len();
        let mut c: usize = 0;
        while c < m
            invariant
                c <= m,
                m == self.attributes@.len(),
                m as int == old(self).attrs().len(),
                old(self).wf(),
                self.generations == gens_mid,
                self.free@ == old(self).free@,
                gens_mid.wf(),
                gens_mid.spec_len() == old(self).rows(),
                forall|i: int|
                    0 <= i < old(self).rows() ==> gens_mid.elem_bytes(i) == old(
                        self,
                    ).gens().elem_bytes(i),
                forall|c2: int|
                    0 <= c2 < c ==> (#[trigger] self.attributes@[c2]).wf()
                        && self.attributes@[c2].spec_len() == old(self).rows()
                        && self.attributes@[c2].mapping().store().disk()
                        == self.attributes@[c2].mapping().store().bytes()
                        && self.attributes@[c2].journal() == old(self).attrs()[c2].journal()
                        + encode_record(
                        tick.value(),
                        old(self).attrs()[c2].mapping().store().disk(),
                        old(self).attrs()[c2].mapping().store().bytes(),
                        old(self).attrs()[c2].mapping().store().dirty_blocks(),
                    ),
                forall|c2: int, i: int|
                    0 <= c2 < c && 0 <= i < old(self).rows()
                        ==> #[trigger] self.attributes@[c2].elem_bytes(i) == old(self).attrs()[
                    c2].elem_bytes(i),
                forall|c2: int|
                    c <= c2 < m ==> #[trigger] self.attributes@[c2] == old(self).attrs()[c2],
            decreases m - c,
        {
            let col = &mut self.attributes[c];
            col.sync(tick);
            c = c + 1;
        }
        proof {
            self.lemma_same_shape_wf(*old(self));
        }
    }

    /// A table whose generations and free list are unchanged, and whose
    /// columns are well formed with the same row count, is well formed.
    proof fn lemma_same_shape_wf(self, prev: Table<T>)
        requires
            prev.wf(),
            self.free_list() == prev.free_list(),
            self.gens().wf(),
            self.rows() == prev.rows(),
            forall|i: int| 0 <= i < prev.rows() ==> self.gen_at(i) == prev.gen_at(i),
            self.attrs().len() == prev.attrs().len(),
            forall|c: int|
                0 <= c < self.attrs().len() ==> (#[trigger] self.attrs()[c]).wf()
                    && self.attrs()[c].spec_len() == self.rows(),
        ensures
            self.wf(),
    {
        assert forall|i: int| 0 <= i < self.rows() implies (self.free_has(i)
            <==> #[trigger] self.slot_dead(i)) by {
            assert(prev.free_has(i) <==> prev.slot_dead(i));
            assert(self.gen_at(i) == prev.gen_at(i));
            if self.free_has(i) {
                let k = choose|k: int|
                    0 <= k < self.free_list().len() && (#[trigger] self.free_list()[k]) as int == i;
                assert((prev.free_list()[k]) as int == i);
                assert(prev.free_has(i));
            }
            if prev.free_has(i) {
                let k = choose|k: int|
                    0 <= k < prev.free_list().len() && (#[trigger] prev.free_list()[k]) as int == i;
                assert((self.free_list()[k]) as int == i);
                assert(self.free_has(i));
            }
        }
    }

    /// Discards the free list and rebuilds it by scanning the generation
    /// column for dead slots, in ascending order.
    fn rebuild_free(&mut self)
        requires
            old(self).gens().wf(),
            forall|c: int|
                0 <= c < old(self).attrs().len() ==> (#[trigger] old(self).attrs()[c]).wf() && old(
                    self,
                ).attrs()[c].spec_len() == old(self).rows(),
        ensures
            final(self).wf(),
            final(self).gens() == old(self).gens(),
            final(self).attrs() == old(self).attrs(),
            final(self).rows() == old(self).rows(),
    {
        self.free = Vec::new();
        let rows = self.generations.len();
        let mut i: usize = 0;
        while i < rows
            invariant
                i <= rows,
                rows as int == self.rows(),
                self.generations == old(self).generations,
                self.attributes == old(self).attributes,
                self.generations.wf(),
                forall|k: int|
                    0 <= k < self.free@.len() ==> ((#[trigger] self.free@[k]) as int) < i,
                forall|k1: int, k2: int|
                    0 <= k1 < k2 < self.free@.len() ==> self.free@[k1] != self.free@[k2],
                forall|j: int|
                    0 <= j < i ==> ((exists|k: int|
                        0 <= k < self.free@.len() && (#[trigger] self.free@[k]) as int == j)
                        <==> #[trigger] self.slot_dead(j)),
            decreases rows - i,
        {
            let ghost at_entry = *self;
            let g = self.generations.get_row(i);
            proof {
                crate::bytes::lemma_u64_le_decode(g.value());
            }
            let ghost free_mid = self.free@;
            if g.is_dead() {
                self.free.push(i);
            }
            proof {
                assert(g.value() == self.gen_at(i as int));
                assert forall|j: int|
                    0 <= j < i + 1 implies ((exists|k: int|
                        0 <= k < self.free@.len() && (#[trigger] self.free@[k]) as int == j)
                        <==> #[trigger] self.slot_dead(j)) by {
                    if j == i {
                        if self.slot_dead(j) {
                            assert(self.free@ == free_mid.push(i));
                            assert((self.free@[self.free@.len() - 1]) as int == j);
                        } else {
                            if exists|k: int|
                                0 <= k < self.free@.len() && (#[trigger] self.free@[k]) as int
                                    == j {
                                let k = choose|k: int|
                                    0 <= k < self.free@.len() && (#[trigger] self.free@[k]) as int
                                        == j;
                                assert(free_mid[k] as int == j);
                                assert(false);
                            }
                        }
                    } else {
                        assert(at_entry.slot_dead(j) == self.slot_dead(j));
                        assert(at_entry.free@ == free_mid);
                        if exists|k: int|
                            0 <= k < free_mid.len() && (#[trigger] free_mid[k]) as int == j {
                            let k = choose|k: int|
                                0 <= k < free_mid.len() && (#[trigger] free_mid[k]) as int == j;
                            assert(self.free@[k] as int == j);
                        }
                        if exists|k: int|
                            0 <= k < self.free@.len() && (#[trigger] self.free@[k]) as int == j {
                            let k = choose|k: int|
                                0 <= k < self.free@.len() && (#[trigger] self.free@[k]) as int
                                    == j;
                            assert(k < free_mid.len());
                            assert(free_mid[k] as int == j);
                        }
                        assert((exists|k: int|
                            0 <= k < at_entry.free@.len() && (#[trigger] at_entry.free@[k]) as int
                                == j) <==> at_entry.slot_dead(j));
                    }
                }
            }
            i = i + 1;
        }
        proof {
            assert forall|c: int|
                0 <= c < self.attrs().len() implies (#[trigger] self.attrs()[c]).wf()
                && self.attrs()[c].spec_len() == self.rows() by {
                assert(self.attrs()[c] == old(self).attrs()[c]);
            }
            assert forall|k1: int, k2: int|
                0 <= k1 < k2 < self.free_list().len() implies self.free_list()[k1]
                != self.free_list()[k2] by {
                assert(self.free@[k1] != self.free@[k2]);
            }
            assert forall|i2: int| 0 <= i2 < self.rows() implies (self.free_has(i2)
                <==> #[trigger] self.slot_dead(i2)) by {
                assert((exists|k: int|
                    0 <= k < self.free@.len() && (#[trigger] self.free@[k]) as int == i2)
                    <==> self.slot_dead(i2));
                if self.free_has(i2) {
                    let k = choose|k: int|
                        0 <= k < self.free_list().len() && (#[trigger] self.free_list()[k]) as int
                            == i2;
                    assert(self.free@[k] as int == i2);
                }
                if exists|k: int|
                    0 <= k < self.free@.len() && (#[trigger] self.free@[k]) as int == i2 {
                    let k = choose|k: int|
                        0 <= k < self.free@.len() && (#[trigger] self.free@[k]) as int == i2;
                    assert(self.free_list()[k] as int == i2);
                    assert(self.free_has(i2));
                }
            }
        }
    }

    /// Copies out the bytes to persist: the generation column's data and
    /// journal, then one `(data, journal)` pair per attribute column.
    /// `from_parts` on these bytes reopens the same table.
    pub fn export(&self) -> (r: (Vec<u8>, Vec<u8>, Vec<(Vec<u8>, Vec<u8>)>))
        requires
            self.wf(),
        ensures
            r.0@ == self.gens().mapping().store().bytes().subrange(
                0,
                self.gens().mapping().store().length(),
            ),
            r.0@.len() == self.rows() * 8,
            r.1@ == self.gens().journal(),
            r.2@.len() == self.attrs().len(),
            forall|c: int|
                0 <= c < self.attrs().len() ==> (#[trigger] r.2@[c]).0@ == self.attrs()[
                c].mapping().store().bytes().subrange(
                    0,
                    self.attrs()[c].mapping().store().length(),
                ) && r.2@[c].1@ == self.attrs()[c].journal(),
    {
        let gen_data = self.generations.content();
        let gen_history = self.generations.journal_bytes();
        let m = self.attributes.len();
        let mut parts: Vec<(Vec<u8>, Vec<u8>)> = Vec::new();
        let mut c: usize = 0;
        while c < m
            invariant
                c <= m,
                m == self.attributes@.len(),
                self.wf(),
                parts@.len() == c,
                forall|c2: int|
                    0 <= c2 < c ==> (#[trigger] parts@[c2]).0@ == self.attrs()[
                    c2].mapping().store().bytes().subrange(
                        0,
                        self.attrs()[c2].mapping().store().length(),
                    ) && parts@[c2].1@ == self.attrs()[c2].journal(),
            decreases m - c,
        {
            proof {
                assert(self.attrs()[c as int].wf());
            }
            let d = self.attributes[c].content();
            let h = self.attributes[c].journal_bytes();
            parts.push((d, h));
            c = c + 1;
        }
        (gen_data, gen_history, parts)
    }

    /// Opens a table over the bytes of its backing files: the generation
    /// column's data and journal, then one `(data, journal)` pair per
    /// attribute column. The free list is rebuilt by scanning the
    /// generation column for dead slots. A column whose data length is
    /// not a whole number of rows, or whose row count differs from the
    /// generation column's, indicates corrupt files and is refused.
    pub fn from_parts(
        gen_data: Vec<u8>,
        gen_history: Vec<u8>,
        attr_parts: Vec<(Vec<u8>, Vec<u8>)>,
    ) -> (r: Result<Table<T>, StoreError>)
        requires
            fits_store(gen_data@.len() as int),
            forall|k: int|
                0 <= k < attr_parts@.len() ==> fits_store(
                    (#[trigger] attr_parts@[k]).0@.len() as int,
                ),
        ensures
            match r {
                Result::Ok(t) => {
                    &&& t.wf()
                    &&& t.attrs().len() == attr_parts@.len()
                    &&& t.rows() * 8 == gen_data@.len()
                    &&& t.gens().journal() == gen_history@
                    &&& t.gens().mapping().store().bytes().subrange(0, gen_data@.len() as int)
                        == gen_data@
                    &&& forall|c: int|
                        0 <= c < attr_parts@.len() ==> (#[trigger] t.attrs()[c]).journal()
                            == attr_parts@[c].1@ && t.attrs()[c].spec_len() == t.rows()
                            && t.attrs()[c].mapping().store().bytes().subrange(
                            0,
                            attr_parts@[c].0@.len() as int,
                        ) == attr_parts@[c].0@
                },
                Result::Err(e) => e == StoreError::MisalignedLength,
            },
    {
        let gens = match Column::<Generation>::from_parts(gen_data, gen_history) {
            Result::Ok(c) => c,
            Result::Err(e) => {
                return Err(e);
            },
        };
        let rows = gens.len();
        let mut parts = attr_parts;
        let ghost orig = parts@;
        let mut attributes: Vec<Column<T>> = Vec::new();
        while parts.len() > 0
            invariant
                attributes@.len() + parts@.len() == orig.len(),
                parts@ == orig.subrange(attributes@.len() as int, orig.len() as int),
                gens.wf(),
                rows as int == gens.spec_len(),
                forall|k: int|
                    0 <= k < orig.len() ==> fits_store((#[trigger] orig[k]).0@.len() as int),
                forall|c: int|
                    0 <= c < attributes@.len() ==> (#[trigger] attributes@[c]).wf()
                        && attributes@[c].journal() == orig[c].1@ && attributes@[c].spec_len()
                        == gens.spec_len() && attributes@[c].mapping().store().bytes().subrange(
                        0,
                        orig[c].0@.len() as int,
                    ) == orig[c].0@,
            decreases parts@.len(),
        {
            let ghost c0 = attributes@.len() as int;
            proof {
                assert(parts@[0] == orig[c0]);
            }
            let (d, h) = parts.remove(0);
            let col = match Column::<T>::from_parts(d, h) {
                Result::Ok(c) => c,
                Result::Err(e) => {
                    return Err(e);
                },
            };
            if col.len() != rows {
                return Err(StoreError::MisalignedLength);
            }
            attributes.push(col);
            proof {
                assert(parts@ =~= orig.subrange(attributes@.len() as int, orig.len() as int));
            }
        }
        let mut t = Table { free: Vec::new(), generations: gens, attributes };
        proof {
            t.gens().lemma_rows_within();
        }
        t.rebuild_free();
        Ok(t)
    }

    /// Replays every column's journal to undo all changes recorded after
    /// the record carrying tick `to`, then rebuilds the free list from
    /// the restored generation column. On any error nothing changes: a
    /// target tick that some column's journal does not carry is reported
    /// as `TickNotFound`, a journal that does not end on a record
    /// boundary as `CorruptJournal`.
    pub fn restore(&mut self, to: Tick) -> (r: Result<(), StoreError>)
        requires
            old(self).wf(),
        ensures
            final(self).rows() == old(self).rows(),
            final(self).attrs().len() == old(self).attrs().len(),
            r is Err ==> *final(self) == *old(self),
            (r is Ok) == (old(self).gens().restorable(to.value()) && forall|c: int|
                0 <= c < old(self).attrs().len() ==> (#[trigger] old(self).attrs()[c]).restorable(
                    to.value(),
                )),
            r is Ok ==> final(self).wf(),
            r is Err ==> final(self).wf(),
            r is Ok || r == Err::<(), StoreError>(StoreError::TickNotFound) || r == Err::<
                (),
                StoreError,
            >(StoreError::CorruptJournal),
            r is Ok ==> final(self).gens().journal() == old(self).gens().journal(),
            r is Ok ==> forall|c: int|
                0 <= c < old(self).attrs().len() ==> (#[trigger] final(self).attrs()[c]).journal()
                    == old(self).attrs()[c].journal(),
            find_target(old(self).gens().journal(), 0, to.value()) matches Some(p) ==> (r is Ok
                ==> final(self).gens().mapping().store().bytes() == replay(
                old(self).gens().journal(),
                p,
                old(self).gens().mapping().store().bytes(),
            )),
            r is Ok ==> forall|c: int|
                0 <= c < old(self).attrs().len() ==> (find_target(
                    (#[trigger] old(self).attrs()[c]).journal(),
                    0,
                    to.value(),
                ) matches Some(p) ==> final(self).attrs()[c].mapping().store().bytes() == replay(
                    old(self).attrs()[c].journal(),
                    p,
                    old(self).attrs()[c].mapping().store().bytes(),
                )),
    {
        match self.generations.probe_restore(to) {
            Result::Err(e) => {
                return Err(e);
            },
            Result::Ok(()) => {},
        }
        let m = self.attributes.len();
        let mut c: usize = 0;
        while c < m
            invariant
                c <= m,
                m == self.attributes@.len(),
                *self == *old(self),
                old(self).wf(),
                forall|c2: int|
                    0 <= c2 < c ==> (#[trigger] self.attributes@[c2]).restorable(to.value()),
            decreases m - c,
        {
            match self.attributes[c].probe_restore(to) {
                Result::Err(e) => {
                    return Err(e);
                },
                Result::Ok(()) => {},
            }
            c = c + 1;
        }
        match self.generations.restore(to) {
            Result::Err(e) => {
                proof {
                    assert(false);
                }
                return Err(e);
            },
            Result::Ok(()) => {},
        }
        let ghost gens_mid = self.generations;
        let mut c: usize = 0;
        while c < m
            invariant
                c <= m,
                m == self.attributes@.len(),
                m as int == old(self).attrs().len(),
                old(self).wf(),
                self.generations == gens_mid,
                gens_mid.wf(),
                gens_mid.spec_len() == old(self).rows(),
                gens_mid.journal() == old(self).gens().journal(),
                find_target(old(self).gens().journal(), 0, to.value()) matches Some(p)
                    ==> gens_mid.mapping().store().bytes() == replay(
                    old(self).gens().journal(),
                    p,
                    old(self).gens().mapping().store().bytes(),
                ),
                self.free@ == old(self).free@,
                forall|c2: int|
                    c <= c2 < m ==> #[trigger] self.attributes@[c2] == old(self).attrs()[c2],
                forall|c2: int|
                    0 <= c2 < m ==> (#[trigger] old(self).attrs()[c2]).restorable(to.value()),
                forall|c2: int|
                    0 <= c2 < c ==> (#[trigger] self.attributes@[c2]).wf()
                        && self.attributes@[c2].spec_len() == old(self).rows()
                        && self.attributes@[c2].journal() == old(self).attrs()[c2].journal(),
                forall|c2: int|
                    0 <= c2 < c ==> (find_target(
                        (#[trigger] old(self).attrs()[c2]).journal(),
                        0,
                        to.value(),
                    ) matches Some(p) ==> self.attributes@[c2].mapping().store().bytes() == replay(
                        old(self).attrs()[c2].journal(),
                        p,
                        old(self).attrs()[c2].mapping().store().bytes(),
                    )),
            decreases m - c,
        {
            let col = &mut self.attributes[c];
            match col.restore(to) {
                Result::Err(_e) => {
                    proof {
                        assert(false);
                    }
                },
                Result::Ok(()) => {},
            }
            c = c + 1;
        }
        self.rebuild_free();
        Ok(())
    }

    /// After recycling `index`, the table is well formed again.
    proof fn lemma_insert_recycle_wf(self, prev: Table<T>, index: int)
        requires
            prev.wf(),
            prev.free_list().len() > 0,
            index == prev.free_list().last() as int,
            0 <= index < prev.rows(),
            self.free_list() == prev.free_list().drop_last(),
            self.gens().wf(),
            self.rows() == prev.rows(),
            self.gen_at(index) == prev.gen_at(index) + 1,
            prev.slot_dead(index),
            forall|i: int| 0 <= i < prev.rows() && i != index ==> self.gen_at(i) == prev.gen_at(i),
            self.attrs().len() == prev.attrs().len(),
            forall|c: int|
                0 <= c < self.attrs().len() ==> (#[trigger] self.attrs()[c]).wf()
                    && self.attrs()[c].spec_len() == self.rows(),
        ensures
            self.wf(),
    {
        assert forall|i: int| 0 <= i < self.rows() implies (self.free_has(i)
            <==> #[trigger] self.slot_dead(i)) by {
            if i == index {
                assert(!self.slot_dead(i));
                if self.free_has(i) {
                    let k = choose|k: int|
                        0 <= k < self.free_list().len() && (#[trigger] self.free_list()[k]) as int
                            == i;
                    assert(prev.free_list()[k] == prev.free_list()[prev.free_list().len() - 1]);
                    assert(false);
                }
            } else {
                assert(prev.free_has(i) <==> prev.slot_dead(i));
                assert(self.gen_at(i) == prev.gen_at(i));
                if prev.free_has(i) {
                    let k = choose|k: int|
                        0 <= k < prev.free_list().len() && (#[trigger] prev.free_list()[k]) as int
                            == i;
                    assert(k != prev.free_list().len() - 1);
                    assert(self.free_list()[k] as int == i);
                    assert(self.free_has(i));
                }
                if self.free_has(i) {
                    let k = choose|k: int|
                        0 <= k < self.free_list().len() && (#[trigger] self.free_list()[k]) as int
                            == i;
                    assert(prev.free_list()[k] as int == i);
                    assert(prev.free_has(i));
                }
            }
        }
    }

    /// After appending a fresh row, the table is well formed again.
    proof fn lemma_insert_append_wf(self, prev: Table<T>, index: int)
        requires
            prev.wf(),
            prev.free_list().len() == 0,
            index == prev.rows(),
            self.free_list() == prev.free_list(),
            self.gens().wf(),
            self.rows() == prev.rows() + 1,
            self.gen_at(index) == 1,
            forall|i: int| 0 <= i < prev.rows() ==> self.gen_at(i) == prev.gen_at(i),
            self.attrs().len() == prev.attrs().len(),
            forall|c: int|
                0 <= c < self.attrs().len() ==> (#[trigger] self.attrs()[c]).wf()
                    && self.attrs()[c].spec_len() == self.rows(),
        ensures
            self.wf(),
    {
        assert forall|i: int| 0 <= i < self.rows() implies (self.free_has(i)
            <==> #[trigger] self.slot_dead(i)) by {
            assert(!self.free_has(i));
            if i < prev.rows() {
                assert(prev.free_has(i) <==> prev.slot_dead(i));
                assert(!prev.free_has(i));
                assert(!prev.slot_dead(i));
                assert(self.gen_at(i) == prev.gen_at(i));
            } else {
                assert(self.gen_at(i) == 1);
            }
        }
    }

    /// After freeing `index`, the table is well formed again.
    proof fn lemma_remove_wf(self, prev: Table<T>, index: int)
        requires
            prev.wf(),
            0 <= index < prev.rows(),
            !prev.slot_dead(index),
            self.free_list() == prev.free_list().push(index as usize),
            self.gens().wf(),
            self.rows() == prev.rows(),
            self.slot_dead(index),
            forall|i: int| 0 <= i < prev.rows() && i != index ==> self.gen_at(i) == prev.gen_at(i),
            self.attrs() == prev.attrs(),
            self.attrs().len() == prev.attrs().len(),
        ensures
            self.wf(),
    {
        assert(!prev.free_has(index));
        assert forall|k1: int, k2: int|
            0 <= k1 < k2 < self.free_list().len() implies self.free_list()[k1]
            != self.free_list()[k2] by {
            if k2 == self.free_list().len() - 1 {
                assert(self.free_list()[k1] == prev.free_list()[k1]);
                if self.free_list()[k1] as int == index {
                    assert(prev.free_has(index));
                }
            }
        }
        assert forall|i: int| 0 <= i < self.rows() implies (self.free_has(i)
            <==> #[trigger] self.slot_dead(i)) by {
            if i == index {
                assert(self.free_list().last() as int == i);
                assert(self.free_has(i));
            } else {
                assert(prev.free_has(i) <==> prev.slot_dead(i));
                assert(self.gen_at(i) == prev.gen_at(i));
                if prev.free_has(i) {
                    let k = choose|k: int|
                        0 <= k < prev.free_list().len() && (#[trigger] prev.free_list()[k]) as int
                            == i;
                    assert(self.free_list()[k] as int == i);
                    assert(self.free_has(i));
                }
                if self.free_has(i) {
                    let k = choose|k: int|
                        0 <= k < self.free_list().len() && (#[trigger] self.free_list()[k]) as int
                            == i;
                    assert(k < prev.free_list().len());
                    assert(prev.free_has(i));
                }
            }
        }
        assert forall|c: int| 0 <= c < self.attrs().len() implies (#[trigger] self.attrs()[c]).wf()
            && self.attrs()[c].spec_len() == self.rows() by {
            assert(self.attrs()[c] == prev.attrs()[c]);
        }
    }
}

} // verus!
