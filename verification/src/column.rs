//! Columns: a typed view paired with an append-only journal.
//!
//! A column is the unit of durable, undoable storage for one attribute.
//! Mutations mark blocks of the underlying store dirty; `sync` turns the
//! dirty blocks into one journal record and appends it to the column's
//! journal; `restore` replays the journal to undo everything recorded
//! after a target tick.

use vstd::prelude::*;

use crate::bytes::zeros;
use crate::journal::{encode_record, find_target, replay, tail_wf};
use crate::mapping::Mapping;
use crate::record::Record;
use crate::store::{StoreError, fits_store};
use crate::tick::Tick;

verus! {

/// Round-trip write/read: the values whose encodings stand at a row
/// range are exactly the values read back from it. The premises are the
/// postconditions of `set` and `get` on that range, so writing a range
/// and reading it yields the written values.
pub proof fn lemma_write_then_read<T: Record>(
    col: Column<T>,
    start: int,
    written: Seq<T>,
    readback: Seq<T>,
)
    requires
        readback.len() == written.len(),
        forall|k: int|
            0 <= k < written.len() ==> col.elem_bytes(start + k) == (
            #[trigger] written[k]).encoded(),
        forall|k: int|
            0 <= k < readback.len() ==> (#[trigger] readback[k]).encoded() == col.elem_bytes(
                start + k,
            ),
    ensures
        readback == written,
{
    assert forall|k: int| 0 <= k < written.len() implies readback[k] == written[k] by {
        T::lemma_encoded_injective(readback[k], written[k]);
    }
    assert(readback =~= written);
}

pub struct Column<T: Record> {
    data: Mapping<T>,
    history: Vec<u8>,
}

impl<T: Record> Column<T> {
    /// The typed view holding the column's rows.
    pub closed spec fn mapping(self) -> Mapping<T> {
        self.data
    }

    /// The bytes of the column's journal.
    pub closed spec fn journal(self) -> Seq<u8> {
        self.history@
    }

    pub open spec fn wf(self) -> bool {
        self.mapping().wf()
    }

    /// The number of rows.
    pub open spec fn spec_len(self) -> int {
        self.mapping().spec_len()
    }

    /// The bytes of the row at index `i`.
    pub open spec fn elem_bytes(self, i: int) -> Seq<u8> {
        self.mapping().elem_bytes(i)
    }

    /// Opens an empty column with an empty journal.
    pub fn new() -> (r: Column<T>)
        ensures
            r.wf(),
            r.spec_len() == 0,
            r.journal() == Seq::<u8>::empty(),
            r.mapping().store().disk() == r.mapping().store().bytes(),
            forall|b: int| !r.mapping().store().dirty_block(b),
    {
        Column { data: Mapping::new(), history: Vec::new() }
    }

    /// Opens a column over the bytes of its backing data file and the
    /// bytes of its journal file. A data length that is not a whole
    /// number of rows indicates a corrupt file and is refused.
    pub fn from_parts(data_bytes: Vec<u8>, history: Vec<u8>) -> (r: Result<Column<T>, StoreError>)
        requires
            fits_store(data_bytes@.len() as int),
        ensures
            match r {
                Result::Ok(c) => {
                    &&& c.wf()
                    &&& data_bytes@.len() % (T::spec_width() as nat) == 0
                    &&& c.spec_len() * (T::spec_width() as int) == data_bytes@.len()
                    &&& c.mapping().store().bytes().subrange(0, data_bytes@.len() as int)
                        == data_bytes@
                    &&& c.journal() == history@
                    &&& c.mapping().store().disk() == c.mapping().store().bytes()
                    &&& forall|b: int| !c.mapping().store().dirty_block(b)
                },
                Result::Err(e) => {
                    &&& e == StoreError::MisalignedLength
                    &&& data_bytes@.len() % (T::spec_width() as nat) != 0
                },
            },
    {
        let ghost n = data_bytes@.len() as int;
        match Mapping::from_contents(data_bytes) {
            Result::Ok(data) => {
                proof {
                    T::lemma_width();
                    vstd::arithmetic::div_mod::lemma_fundamental_div_mod(
                        n,
                        T::spec_width() as int,
                    );
                    vstd::arithmetic::mul::lemma_mul_is_commutative(
                        n / (T::spec_width() as int),
                        T::spec_width() as int,
                    );
                }
                Ok(Column { data, history })
            },
            Result::Err(e) => Err(e),
        }
    }

    pub fn len(&self) -> (r: usize)
        requires
            self.wf(),
        ensures
            r as int == self.spec_len(),
    {
        self.data.len()
    }

    /// Copies out the bytes of every row, as written to the data file.
    pub fn content(&self) -> (r: Vec<u8>)
        requires
            self.wf(),
        ensures
            r@ == self.mapping().store().bytes().subrange(0, self.mapping().store().length()),
            r@.len() == self.spec_len() * (T::spec_width() as int),
    {
        proof {
            self.lemma_rows_within();
        }
        self.data.content()
    }

    /// Copies out the journal's bytes, as written to the journal file.
    pub fn journal_bytes(&self) -> (r: Vec<u8>)
        ensures
            r@ == self.journal(),
    {
        let mut r: Vec<u8> = Vec::new();
        crate::bytes::push_range(&mut r, self.history.as_slice(), 0, self.history.len());
        proof {
            assert(r@ =~= self.journal());
        }
        r
    }

    /// Reads the rows at `[start, end)`.
    pub fn get(&self, start: usize, end: usize) -> (r: Vec<T>)
        requires
            self.wf(),
            start <= end,
            end <= self.spec_len(),
        ensures
            r@.len() == end - start,
            forall|k: int|
                0 <= k < end - start ==> (#[trigger] r@[k]).encoded() == self.elem_bytes(
                    start + k,
                ),
    {
        proof {
            self.lemma_rows_within();
            vstd::arithmetic::mul::lemma_mul_inequality(
                end as int,
                self.spec_len(),
                T::spec_width() as int,
            );
        }
        self.data.get(start, end)
    }

    /// Reads one row.
    pub fn get_row(&self, i: usize) -> (r: T)
        requires
            self.wf(),
            i < self.spec_len(),
        ensures
            r.encoded() == self.elem_bytes(i as int),
    {
        let n = self.len();
        let v = self.get(i, i + 1);
        v[0]
    }

    /// Overwrites the rows at `[start, start + values.len())`.
    pub fn set(&mut self, start: usize, values: &Vec<T>)
        requires
            old(self).wf(),
            start + values@.len() <= old(self).spec_len(),
        ensures
            final(self).wf(),
            final(self).spec_len() == old(self).spec_len(),
            final(self).journal() == old(self).journal(),
            final(self).mapping().store().disk() == old(self).mapping().store().disk(),
            forall|k: int|
                0 <= k < values@.len() ==> final(self).elem_bytes(start + k) == (
                #[trigger] values@[k]).encoded(),
            forall|j: int|
                0 <= j < old(self).spec_len() && !(start <= j < start + values@.len())
                    ==> final(self).elem_bytes(j) == old(self).elem_bytes(j),
    {
        proof {
            old(self).lemma_rows_within();
            vstd::arithmetic::mul::lemma_mul_inequality(
                (start + values@.len()) as int,
                old(self).spec_len(),
                T::spec_width() as int,
            );
        }
        self.data.set(start, values);
        proof {
            T::lemma_width();
            let wi = T::spec_width() as int;
            let rows = old(self).spec_len();
            assert forall|j: int|
                0 <= j < rows && !(start <= j < start + values@.len()) implies self.elem_bytes(j)
                == old(self).elem_bytes(j) by {
                assert(j * wi + wi == (j + 1) * wi) by (nonlinear_arith);
                assert(0 <= j * wi) by (nonlinear_arith)
                    requires
                        0 <= j,
                        0 < wi,
                ;
                assert((j + 1) * wi <= rows * wi) by (nonlinear_arith)
                    requires
                        j + 1 <= rows,
                        0 < wi,
                ;
                if j < start {
                    assert((j + 1) * wi <= start as int * wi) by (nonlinear_arith)
                        requires
                            j + 1 <= start,
                            0 < wi,
                    ;
                } else {
                    assert(j * wi >= (start + values@.len()) * wi) by (nonlinear_arith)
                        requires
                            j >= start + values@.len(),
                            0 < wi,
                    ;
                }
                assert(self.elem_bytes(j) =~= old(self).elem_bytes(j));
            }
        }
    }

    /// Overwrites one row.
    pub fn set_row(&mut self, i: usize, value: T)
        requires
            old(self).wf(),
            i < old(self).spec_len(),
        ensures
            final(self).wf(),
            final(self).spec_len() == old(self).spec_len(),
            final(self).journal() == old(self).journal(),
            final(self).mapping().store().disk() == old(self).mapping().store().disk(),
            final(self).elem_bytes(i as int) == value.encoded(),
            forall|j: int|
                0 <= j < old(self).spec_len() && j != i ==> final(self).elem_bytes(j) == old(
                    self,
                ).elem_bytes(j),
    {
        let vs = vec![value];
        self.set(i, &vs);
    }

    /// Appends `values`; returns the assigned row range.
    pub fn append(&mut self, values: &Vec<T>) -> (r: (usize, usize))
        requires
            old(self).wf(),
            fits_store(
                (old(self).spec_len() + values@.len()) * (T::spec_width() as int),
            ),
        ensures
            final(self).wf(),
            r.0 as int == old(self).spec_len(),
            r.1 as int == old(self).spec_len() + values@.len(),
            final(self).spec_len() == old(self).spec_len() + values@.len(),
            final(self).journal() == old(self).journal(),
            forall|k: int|
                0 <= k < values@.len() ==> final(self).elem_bytes(old(self).spec_len() + k) == (
                #[trigger] values@[k]).encoded(),
            forall|j: int|
                0 <= j < old(self).spec_len() ==> final(self).elem_bytes(j) == old(
                    self,
                ).elem_bytes(j),
    {
        let start = self.len();
        proof {
            T::lemma_width();
            old(self).lemma_rows_within();
            let wi = T::spec_width() as int;
            let rows = old(self).spec_len();
            let m = values@.len() as int;
            assert((rows + m) * wi == rows * wi + m * wi) by (nonlinear_arith);
            vstd::arithmetic::mul::lemma_mul_nonnegative(m, wi);
        }
        self.data.extend_from_slice(values);
        proof {
            T::lemma_width();
            let wi = T::spec_width() as int;
            let rows = old(self).spec_len();
            assert forall|j: int| 0 <= j < rows implies self.elem_bytes(j) == old(
                self,
            ).elem_bytes(j) by {
                assert(j * wi + wi == (j + 1) * wi) by (nonlinear_arith);
                assert(0 <= j * wi) by (nonlinear_arith)
                    requires
                        0 <= j,
                        0 < wi,
                ;
                assert((j + 1) * wi <= rows * wi) by (nonlinear_arith)
                    requires
                        j + 1 <= rows,
                        0 < wi,
                ;
                assert(self.elem_bytes(j) =~= old(self).elem_bytes(j));
            }
        }
        let end = self.len();
        (start, end)
    }

    /// Logically deletes the rows at `[start, end)` by overwriting them
    /// with the zero record; the row count does not shrink.
    pub fn remove(&mut self, start: usize, end: usize)
        requires
            old(self).wf(),
            start <= end,
            end <= old(self).spec_len(),
        ensures
            final(self).wf(),
            final(self).spec_len() == old(self).spec_len(),
            final(self).journal() == old(self).journal(),
            forall|j: int|
                start <= j < end ==> final(self).elem_bytes(j) == zeros(T::spec_width()),
            forall|j: int|
                0 <= j < old(self).spec_len() && !(start <= j < end) ==> final(self).elem_bytes(j)
                    == old(self).elem_bytes(j),
    {
        let n = end - start;
        let mut vs: Vec<T> = Vec::new();
        let mut k: usize = 0;
        while k < n
            invariant
                k <= n,
                vs@.len() == k,
                forall|j: int| 0 <= j < k ==> (#[trigger] vs@[j]).encoded() == zeros(
                    T::spec_width(),
                ),
            decreases n - k,
        {
            vs.push(T::zeroed());
            k = k + 1;
        }
        self.set(start, &vs);
        proof {
            assert forall|j: int| start <= j < end implies self.elem_bytes(j) == zeros(
                T::spec_width(),
            ) by {
                assert((#[trigger] vs@[j - start]).encoded() == zeros(T::spec_width()));
                assert(self.elem_bytes(start + (j - start)) == vs@[j - start].encoded());
            }
        }
    }

    /// Checkpoints the column: appends one record holding the deltas of
    /// every dirty block to the journal and brings the on-disk snapshot
    /// up to date. The rows do not change.
    pub fn sync(&mut self, tick: Tick)
        requires
            old(self).wf(),
        ensures
            final(self).wf(),
            final(self).spec_len() == old(self).spec_len(),
            final(self).mapping().store().bytes() == old(self).mapping().store().bytes(),
            final(self).mapping().store().disk() == old(self).mapping().store().bytes(),
            forall|b: int| !final(self).mapping().store().dirty_block(b),
            forall|j: int|
                0 <= j < old(self).spec_len() ==> final(self).elem_bytes(j) == old(
                    self,
                ).elem_bytes(j),
            final(self).journal() == old(self).journal() + encode_record(
                tick.value(),
                old(self).mapping().store().disk(),
                old(self).mapping().store().bytes(),
                old(self).mapping().store().dirty_blocks(),
            ),
    {
        let mut rec = self.data.sync(tick);
        self.history.append(&mut rec);
    }

    /// Replays the journal to undo every change recorded after the
    /// record carrying tick `to`. On any error the column is left
    /// untouched.
    pub fn restore(&mut self, to: Tick) -> (r: Result<(), StoreError>)
        requires
            old(self).wf(),
        ensures
            final(self).wf(),
            final(self).spec_len() == old(self).spec_len(),
            final(self).journal() == old(self).journal(),
            r is Err ==> *final(self) == *old(self),
            (r == Err::<(), StoreError>(StoreError::TickNotFound)) == (find_target(
                old(self).journal(),
                0,
                to.value(),
            ) is None),
            find_target(old(self).journal(), 0, to.value()) matches Some(p) ==> ((r is Ok)
                == tail_wf(old(self).journal(), p, old(self).mapping().store().capacity())),
            find_target(old(self).journal(), 0, to.value()) matches Some(p) ==> (r is Ok
                ==> final(self).mapping().store().bytes() == replay(
                old(self).journal(),
                p,
                old(self).mapping().store().bytes(),
            )),
            r is Ok || r == Err::<(), StoreError>(StoreError::TickNotFound) || r == Err::<
                (),
                StoreError,
            >(StoreError::CorruptJournal),
    {
        let r = self.data.restore(self.history.as_slice(), to);
        r
    }

    /// Whether a restore to tick `to` would succeed: the journal holds a
    /// record carrying `to`, and everything after that record is a whole
    /// number of records fit to apply.
    pub open spec fn restorable(self, to: u64) -> bool {
        find_target(self.journal(), 0, to) matches Some(p) && tail_wf(
            self.journal(),
            p,
            self.mapping().store().capacity(),
        )
    }

    /// Whether `restore` to this target would succeed.
    pub fn can_restore(&self, to: Tick) -> (r: bool)
        ensures
            r == self.restorable(to.value()),
    {
        self.data.check_restore(self.history.as_slice(), to)
    }

    /// Reports, without mutating anything, how `restore` would end.
    pub fn probe_restore(&self, to: Tick) -> (r: Result<(), StoreError>)
        ensures
            (r is Ok) == self.restorable(to.value()),
            (r == Err::<(), StoreError>(StoreError::TickNotFound)) == (find_target(
                self.journal(),
                0,
                to.value(),
            ) is None),
            r is Ok || r == Err::<(), StoreError>(StoreError::TickNotFound) || r == Err::<
                (),
                StoreError,
            >(StoreError::CorruptJournal),
    {
        let r = self.data.store_probe(self.history.as_slice(), to);
        r
    }

    /// Rows fit within the store's logical length.
    pub proof fn lemma_rows_within(self)
        requires
            self.wf(),
        ensures
            self.spec_len() * (T::spec_width() as int) == self.mapping().store().length(),
            self.mapping().store().length() <= self.mapping().store().capacity(),
            0 <= self.spec_len(),
    {
        T::lemma_width();
        vstd::arithmetic::div_mod::lemma_fundamental_div_mod(
            self.mapping().store().length(),
            T::spec_width() as int,
        );
        vstd::arithmetic::mul::lemma_mul_is_commutative(
            self.spec_len(),
            T::spec_width() as int,
        );
        vstd::arithmetic::div_mod::lemma_div_pos_is_pos(
            self.mapping().store().length(),
            T::spec_width() as int,
        );
    }
}

} // verus!
