//! Typed views: a raw block store reinterpreted as a dense array of
//! fixed-width records. Element index `i` maps to the byte range
//! `[i * width, (i + 1) * width)`. The store's logical length is kept a
//! whole number of records; a content length that is not is reported as
//! corruption when the view is opened.

use core::marker::PhantomData;

use vstd::prelude::*;

use crate::bytes::zeros;
use crate::journal::{encode_record, find_target, replay, tail_wf};
use crate::record::Record;
use crate::store::{Blocks, StoreError, fits_store};
use crate::tick::Tick;

verus! {

/// The concatenated encodings of a sequence of records.
pub open spec fn concat_encodings<T: Record>(vs: Seq<T>) -> Seq<u8>
    decreases vs.len(),
{
    if vs.len() == 0 {
        Seq::empty()
    } else {
        concat_encodings(vs.drop_last()) + vs.last().encoded()
    }
}

pub proof fn lemma_concat_encodings<T: Record>(vs: Seq<T>)
    ensures
        concat_encodings(vs).len() == vs.len() * T::spec_width(),
        forall|k: int, x: int|
            0 <= k < vs.len() && 0 <= x < T::spec_width() ==> #[trigger] concat_encodings(vs)[k * (
            T::spec_width() as int) + x] == vs[k].encoded()[x],
    decreases vs.len(),
{
    let w = T::spec_width() as int;
    if vs.len() == 0 {
        assert(concat_encodings(vs).len() == vs.len() * T::spec_width()) by (nonlinear_arith)
            requires
                concat_encodings(vs).len() == 0,
                vs.len() == 0,
        ;
    } else {
        let n = vs.len() as int;
        let prefix = vs.drop_last();
        lemma_concat_encodings(prefix);
        vs.last().lemma_encoded_len();
        T::lemma_width();
        assert((n - 1) * w + w == n * w) by (nonlinear_arith);
        assert forall|k: int, x: int|
            0 <= k < n && 0 <= x < w implies #[trigger] concat_encodings(vs)[k * w + x]
            == vs[k].encoded()[x] by {
            assert(0 <= k * w + x) by (nonlinear_arith)
                requires
                    0 <= k,
                    0 <= x,
                    0 < w,
            ;
            if k < n - 1 {
                assert(k * w + x < (n - 1) * w) by (nonlinear_arith)
                    requires
                        k <= n - 2,
                        0 <= x < w,
                        0 < w,
                ;
                assert(concat_encodings(vs)[k * w + x] == concat_encodings(prefix)[k * w + x]);
                assert(prefix[k] == vs[k]);
            } else {
                assert(concat_encodings(vs)[k * w + x] == vs.last().encoded()[k * w + x - (n - 1)
                    * w]);
                assert(k * w + x - (n - 1) * w == x) by (nonlinear_arith)
                    requires
                        k == n - 1,
                ;
            }
        }
    }
}

/// A raw block store seen as an array of `T` records.
pub struct Mapping<T: Record> {
    raw: Blocks,
    marker: PhantomData<T>,
}

impl<T: Record> Mapping<T> {
    /// The underlying raw block store.
    pub closed spec fn store(self) -> Blocks {
        self.raw
    }

    pub open spec fn wf(self) -> bool {
        &&& self.store().wf()
        &&& self.store().length() % (T::spec_width() as int) == 0
    }

    /// The number of records the view holds.
    pub open spec fn spec_len(self) -> int {
        self.store().length() / (T::spec_width() as int)
    }

    /// The bytes of the record at index `i`.
    pub open spec fn elem_bytes(self, i: int) -> Seq<u8> {
        self.store().bytes().subrange(
            i * (T::spec_width() as int),
            (i + 1) * (T::spec_width() as int),
        )
    }

    /// Opens a view over `contents`, as read back from a backing file.
    /// A content length that is not a whole number of records indicates a
    /// corrupt file and is refused.
    pub fn from_contents(contents: Vec<u8>) -> (r: Result<Mapping<T>, StoreError>)
        requires
            fits_store(contents@.len() as int),
        ensures
            match r {
                Result::Ok(m) => {
                    &&& m.wf()
                    &&& contents@.len() % (T::spec_width() as nat) == 0
                    &&& m.store().length() == contents@.len()
                    &&& m.store().bytes().subrange(0, contents@.len() as int) == contents@
                    &&& m.store().disk() == m.store().bytes()
                    &&& forall|b: int| !m.store().dirty_block(b)
                },
                Result::Err(e) => {
                    &&& e == StoreError::MisalignedLength
                    &&& contents@.len() % (T::spec_width() as nat) != 0
                },
            },
    {
        let w = T::byte_width();
        proof {
            T::lemma_width();
        }
        if contents.len() % w != 0 {
            return Err(StoreError::MisalignedLength);
        }
        let raw = Blocks::from_contents(contents);
        proof {
            crate::bytes::lemma_splice_then_read(raw.bytes(), 0, raw.bytes());
        }
        let r = Mapping { raw, marker: PhantomData };
        proof {
            assert(r.store().bytes().subrange(0, r.store().length()) =~= r.store().bytes().subrange(
                0,
                r.store().length(),
            ));
        }
        Ok(r)
    }

    /// Opens an empty view.
    pub fn new() -> (r: Mapping<T>)
        ensures
            r.wf(),
            r.spec_len() == 0,
            r.store().length() == 0,
            r.store().disk() == r.store().bytes(),
            forall|b: int| !r.store().dirty_block(b),
    {
        proof {
            T::lemma_width();
            vstd::arithmetic::div_mod::lemma_small_mod(0, T::spec_width());
        }
        Mapping { raw: Blocks::new(), marker: PhantomData }
    }

    pub fn len(&self) -> (r: usize)
        requires
            self.wf(),
        ensures
            r as int == self.spec_len(),
    {
        proof {
            T::lemma_width();
        }
        self.raw.len() / T::byte_width()
    }

    /// Copies out the logical content: the bytes of every record.
    pub fn content(&self) -> (r: Vec<u8>)
        requires
            self.wf(),
        ensures
            r@ == self.store().bytes().subrange(0, self.store().length()),
    {
        self.raw.content()
    }

    /// Reads the records at `[start, end)`. Reading past the logical
    /// length but within the committed capacity is allowed.
    pub fn get(&self, start: usize, end: usize) -> (r: Vec<T>)
        requires
            self.wf(),
            start <= end,
            end * T::spec_width() <= self.store().capacity(),
        ensures
            r@.len() == end - start,
            forall|k: int|
                0 <= k < end - start ==> (#[trigger] r@[k]).encoded() == self.elem_bytes(
                    start + k,
                ),
    {
        let w = T::byte_width();
        proof {
            T::lemma_width();
            self.raw.lemma_capacity_bound();
            vstd::arithmetic::mul::lemma_mul_inequality(
                start as int,
                end as int,
                T::spec_width() as int,
            );
        }
        let mut r: Vec<T> = Vec::new();
        let mut i = start;
        let mut off = start * w;
        while i < end
            invariant
                start <= i <= end,
                off == i as int * (T::spec_width() as int),
                w == T::spec_width(),
                self.wf(),
                end * T::spec_width() <= self.store().capacity(),
                self.store().capacity() <= usize::MAX,
                r@.len() == i - start,
                forall|k: int|
                    0 <= k < i - start ==> (#[trigger] r@[k]).encoded() == self.elem_bytes(
                        start + k,
                    ),
            decreases end - i,
        {
            proof {
                vstd::arithmetic::mul::lemma_mul_inequality(
                    i as int + 1,
                    end as int,
                    T::spec_width() as int,
                );
                vstd::arithmetic::mul::lemma_mul_is_distributive_add_other_way(
                    T::spec_width() as int,
                    i as int,
                    1,
                );
            }
            let chunk = self.raw.get(off, off + w);
            let v = T::from_bytes(chunk.as_slice());
            r.push(v);
            i = i + 1;
            off = off + w;
        }
        r
    }

    /// Overwrites the records at `[start, start + values.len())`.
    pub fn set(&mut self, start: usize, values: &Vec<T>)
        requires
            old(self).wf(),
            (start + values@.len()) * T::spec_width() <= old(self).store().capacity(),
        ensures
            final(self).wf(),
            final(self).spec_len() == old(self).spec_len(),
            final(self).store().length() == old(self).store().length(),
            final(self).store().capacity() == old(self).store().capacity(),
            final(self).store().disk() == old(self).store().disk(),
            forall|k: int|
                0 <= k < values@.len() ==> final(self).elem_bytes(start + k) == (
                #[trigger] values@[k]).encoded(),
            forall|i: int|
                0 <= i < old(self).store().bytes().len() && !(start as int * (T::spec_width()
                    as int) <= i < (start + values@.len()) * (T::spec_width() as int))
                    ==> #[trigger] final(self).store().bytes()[i] == old(self).store().bytes()[i],
            forall|b: int|
                old(self).store().dirty_block(b) ==> final(self).store().dirty_block(b),
    {
        let w = T::byte_width();
        let m = values.len();
        proof {
            T::lemma_width();
            self.raw.lemma_capacity_bound();
            vstd::arithmetic::mul::lemma_mul_inequality(
                start as int,
                (start + m) as int,
                T::spec_width() as int,
            );
            vstd::arithmetic::mul::lemma_mul_nonnegative(start as int, T::spec_width() as int);
        }
        let ghost wi = T::spec_width() as int;
        let mut k: usize = 0;
        let mut off = start * w;
        while k < m
            invariant
                k <= m,
                m == values@.len(),
                w == T::spec_width(),
                wi == T::spec_width() as int,
                0 < wi,
                off == (start + k) as int * wi,
                (start + m) as int * wi <= self.store().capacity(),
                self.wf(),
                self.store().capacity() <= usize::MAX,
                self.store().length() == old(self).store().length(),
                self.store().capacity() == old(self).store().capacity(),
                self.store().disk() == old(self).store().disk(),
                forall|j: int|
                    0 <= j < k ==> self.elem_bytes(start + j) == (#[trigger] values@[j]).encoded(),
                forall|i: int|
                    0 <= i < old(self).store().bytes().len() && !(start as int * wi <= i < (start
                        + k) as int * wi) ==> #[trigger] self.store().bytes()[i] == old(
                        self,
                    ).store().bytes()[i],
                forall|b: int|
                    old(self).store().dirty_block(b) ==> self.store().dirty_block(b),
            decreases m - k,
        {
            proof {
                vstd::arithmetic::mul::lemma_mul_inequality(
                    (start + k + 1) as int,
                    (start + m) as int,
                    wi,
                );
                vstd::arithmetic::mul::lemma_mul_is_distributive_add_other_way(
                    wi,
                    (start + k) as int,
                    1,
                );
            }
            let piece = values[k].to_bytes();
            let ghost prev = self.store();
            proof {
                values@[k as int].lemma_encoded_len();
            }
            self.raw.set(off, piece.as_slice());
            proof {
                crate::bytes::lemma_splice_index(prev.bytes(), off as int, piece@);
                assert forall|j: int| 0 <= j < k + 1 implies self.elem_bytes(start + j) == (
                #[trigger] values@[j]).encoded() by {
                    values@[j].lemma_encoded_len();
                    assert((start + j) * wi + wi == (start + j + 1) * wi) by (nonlinear_arith);
                    if j < k {
                        assert((start + j + 1) * wi <= (start + k) as int * wi)
                            by (nonlinear_arith)
                            requires
                                j + 1 <= k,
                                0 < wi,
                                0 <= start,
                        ;
                        assert(0 <= (start + j) * wi) by (nonlinear_arith)
                            requires
                                0 <= start + j,
                                0 < wi,
                        ;
                        assert(self.elem_bytes(start + j) =~= prev.bytes().subrange(
                            (start + j) * wi,
                            (start + j + 1) * wi,
                        ));
                    } else {
                        assert(self.elem_bytes(start + j) =~= piece@);
                    }
                }
                assert forall|i: int|
                    0 <= i < old(self).store().bytes().len() && !(start as int * wi <= i < (start
                        + k + 1) as int * wi) implies #[trigger] self.store().bytes()[i] == old(
                    self,
                ).store().bytes()[i] by {
                    assert((start + k) as int * wi + wi == (start + k + 1) as int * wi)
                        by (nonlinear_arith);
                    assert((start + k) as int * wi >= start as int * wi) by (nonlinear_arith)
                        requires
                            0 < wi,
                            0 <= start,
                            0 <= k,
                    ;
                    assert(self.store().bytes()[i] == prev.bytes()[i]);
                }
            }
            k = k + 1;
            off = off + w;
        }
    }

    /// Appends `values`, growing the store as needed.
    pub fn extend_from_slice(&mut self, values: &Vec<T>)
        requires
            old(self).wf(),
            fits_store(old(self).store().length() + values@.len() * T::spec_width()),
        ensures
            final(self).wf(),
            final(self).spec_len() == old(self).spec_len() + values@.len(),
            final(self).store().length() == old(self).store().length() + values@.len() * (
            T::spec_width() as int),
            old(self).store().capacity() <= final(self).store().capacity(),
            forall|k: int|
                0 <= k < values@.len() ==> final(self).elem_bytes(old(self).spec_len() + k) == (
                #[trigger] values@[k]).encoded(),
            forall|i: int|
                0 <= i < old(self).store().length() ==> #[trigger] final(self).store().bytes()[i]
                    == old(self).store().bytes()[i],
    {
        let w = T::byte_width();
        let m = values.len();
        proof {
            T::lemma_width();
            vstd::arithmetic::mul::lemma_mul_nonnegative(m as int, T::spec_width() as int);
        }
        let ghost wi = T::spec_width() as int;
        let ghost len0 = self.store().length();
        let ghost rows0 = self.spec_len();
        proof {
            vstd::arithmetic::div_mod::lemma_fundamental_div_mod(len0, wi);
        }
        let mut k: usize = 0;
        while k < m
            invariant
                k <= m,
                m == values@.len(),
                w == T::spec_width(),
                wi == T::spec_width() as int,
                0 < wi,
                self.store().wf(),
                len0 == old(self).store().length(),
                rows0 == old(self).spec_len(),
                len0 == rows0 * wi,
                0 <= len0,
                fits_store(len0 + m as int * wi),
                self.store().length() == len0 + k as int * wi,
                old(self).store().capacity() <= self.store().capacity(),
                forall|i: int|
                    0 <= i < len0 + k as int * wi ==> #[trigger] self.store().bytes()[i] == if i
                        < len0 {
                        old(self).store().bytes()[i]
                    } else {
                        concat_encodings(values@.subrange(0, k as int))[i - len0]
                    },
            decreases m - k,
        {
            proof {
                assert((k + 1) as int * wi <= m as int * wi) by (nonlinear_arith)
                    requires
                        k + 1 <= m,
                        0 < wi,
                ;
                assert(k as int * wi + wi == (k + 1) as int * wi) by (nonlinear_arith);
                assert(0 <= k as int * wi) by (nonlinear_arith)
                    requires
                        0 <= k,
                        0 < wi,
                ;
                values@[k as int].lemma_encoded_len();
            }
            let piece = values[k].to_bytes();
            let ghost prev = self.store();
            self.raw.extend_from_slice(piece.as_slice());
            proof {
                let sub1 = values@.subrange(0, k as int + 1);
                let sub0 = values@.subrange(0, k as int);
                lemma_concat_encodings(sub1);
                lemma_concat_encodings(sub0);
                assert(sub1.drop_last() =~= sub0);
                assert(concat_encodings(sub1) == concat_encodings(sub0) + sub1.last().encoded());
                assert(sub1.last() == values@[k as int]);
                assert forall|i: int| 0 <= i < len0 + (k + 1) as int * wi implies #[trigger] self
                    .store().bytes()[i] == if i < len0 {
                    old(self).store().bytes()[i]
                } else {
                    concat_encodings(sub1)[i - len0]
                } by {
                    if i < len0 + k as int * wi {
                        assert(self.store().bytes()[i] == prev.bytes()[i]);
                        if i >= len0 {
                            assert(concat_encodings(sub1)[i - len0] == concat_encodings(sub0)[i
                                - len0]);
                        }
                    } else {
                        let x = i - len0 - k as int * wi;
                        assert(self.store().bytes().subrange(
                            prev.length(),
                            prev.length() + wi,
                        )[x] == piece@[x]);
                        assert(concat_encodings(sub1)[i - len0] == (concat_encodings(sub0)
                            + sub1.last().encoded())[k as int * wi + x]);
                        assert(concat_encodings(sub1)[i - len0] == piece@[x]);
                    }
                }
            }
            k = k + 1;
        }
        proof {
            assert(values@.subrange(0, m as int) =~= values@);
            lemma_concat_encodings(values@);
            assert(self.store().length() % wi == 0) by {
                vstd::arithmetic::div_mod::lemma_small_mod(0, wi as nat);
                vstd::arithmetic::div_mod::lemma_add_mod_noop(len0, m as int * wi, wi);
                vstd::arithmetic::div_mod::lemma_mod_multiples_basic(m as int, wi);
                vstd::arithmetic::mul::lemma_mul_is_commutative(m as int, wi);
            }
            assert(self.spec_len() == rows0 + m as int) by {
                assert(len0 + m as int * wi == (rows0 + m as int) * wi) by (nonlinear_arith)
                    requires
                        len0 == rows0 * wi,
                ;
                vstd::arithmetic::mul::lemma_mul_is_commutative(rows0 + m as int, wi);
                vstd::arithmetic::div_mod::lemma_div_multiples_vanish(rows0 + m as int, wi);
            }
            assert forall|k2: int| 0 <= k2 < values@.len() implies self.elem_bytes(rows0 + k2) == (
            #[trigger] values@[k2]).encoded() by {
                values@[k2].lemma_encoded_len();
                assert((rows0 + k2) * wi == len0 + k2 * wi) by (nonlinear_arith)
                    requires
                        len0 == rows0 * wi,
                ;
                assert((rows0 + k2 + 1) * wi == len0 + k2 * wi + wi) by (nonlinear_arith)
                    requires
                        len0 == rows0 * wi,
                ;
                assert(k2 * wi + wi <= m as int * wi) by (nonlinear_arith)
                    requires
                        k2 + 1 <= m,
                        0 < wi,
                ;
                assert(0 <= k2 * wi) by (nonlinear_arith)
                    requires
                        0 <= k2,
                        0 < wi,
                ;
                assert forall|x: int| 0 <= x < wi implies self.elem_bytes(rows0 + k2)[x]
                    == values@[k2].encoded()[x] by {
                    let i = len0 + k2 * wi + x;
                    assert(self.store().bytes()[i] == concat_encodings(
                        values@.subrange(0, m as int),
                    )[i - len0]);
                    assert(concat_encodings(values@)[k2 * wi + x] == values@[k2].encoded()[x]);
                    assert(self.elem_bytes(rows0 + k2)[x] == self.store().bytes()[(rows0 + k2) * wi
                        + x]);
                }
                assert(self.elem_bytes(rows0 + k2) =~= values@[k2].encoded());
            }
        }
    }

    /// Extends the view by `extra` zeroed records.
    pub fn extend_zeroed(&mut self, extra: usize)
        requires
            old(self).wf(),
            extra * T::spec_width() <= usize::MAX,
            fits_store(old(self).store().length() + extra * T::spec_width()),
        ensures
            final(self).wf(),
            final(self).spec_len() == old(self).spec_len() + extra,
            forall|i: int|
                0 <= i < old(self).store().length() ==> #[trigger] final(self).store().bytes()[i]
                    == old(self).store().bytes()[i],
            final(self).store().bytes().subrange(
                old(self).store().length(),
                final(self).store().length(),
            ) == zeros((extra * T::spec_width()) as nat),
    {
        let w = T::byte_width();
        proof {
            T::lemma_width();
            vstd::arithmetic::mul::lemma_mul_nonnegative(extra as int, T::spec_width() as int);
        }
        let ghost len0 = self.store().length();
        let nbytes = extra * w;
        self.raw.extend_zeroed(nbytes);
        proof {
            let wi = T::spec_width() as int;
            let rows0 = old(self).spec_len();
            vstd::arithmetic::div_mod::lemma_fundamental_div_mod(len0, wi);
            assert(self.store().length() % wi == 0) by {
                vstd::arithmetic::div_mod::lemma_small_mod(0, wi as nat);
                vstd::arithmetic::div_mod::lemma_add_mod_noop(len0, extra as int * wi, wi);
                vstd::arithmetic::div_mod::lemma_mod_multiples_basic(extra as int, wi);
                vstd::arithmetic::mul::lemma_mul_is_commutative(extra as int, wi);
            }
            assert(self.spec_len() == old(self).spec_len() + extra as int) by {
                assert(len0 + extra as int * wi == (rows0 + extra as int) * wi)
                    by (nonlinear_arith)
                    requires
                        len0 == rows0 * wi,
                ;
                vstd::arithmetic::mul::lemma_mul_is_commutative(rows0 + extra as int, wi);
                vstd::arithmetic::div_mod::lemma_div_multiples_vanish(rows0 + extra as int, wi);
            }
            assert forall|i: int| 0 <= i < len0 implies #[trigger] self.store().bytes()[i] == old(
                self,
            ).store().bytes()[i] by {
                assert(self.store().bytes().subrange(0, len0)[i] == old(
                    self,
                ).store().bytes().subrange(0, len0)[i]);
            }
        }
    }

    /// Checkpoints the underlying store; returns the journal record.
    pub fn sync(&mut self, tick: Tick) -> (r: Vec<u8>)
        requires
            old(self).wf(),
        ensures
            final(self).wf(),
            final(self).spec_len() == old(self).spec_len(),
            final(self).store().length() == old(self).store().length(),
            final(self).store().capacity() == old(self).store().capacity(),
            final(self).store().bytes() == old(self).store().bytes(),
            final(self).store().disk() == old(self).store().bytes(),
            forall|b: int| !final(self).store().dirty_block(b),
            r@ == encode_record(
                tick.value(),
                old(self).store().disk(),
                old(self).store().bytes(),
                old(self).store().dirty_blocks(),
            ),
    {
        self.raw.sync(tick)
    }

    /// Adds a journal record body's deltas back onto the live bytes.
    pub fn apply(&mut self, body: &[u8])
        requires
            old(self).wf(),
            crate::journal::body_wf(body@, old(self).store().capacity()),
        ensures
            final(self).wf(),
            final(self).spec_len() == old(self).spec_len(),
            final(self).store().length() == old(self).store().length(),
            final(self).store().capacity() == old(self).store().capacity(),
            final(self).store().disk() == old(self).store().disk(),
            final(self).store().bytes() == crate::journal::apply_body(
                old(self).store().bytes(),
                body@,
            ),
    {
        self.raw.apply(body)
    }

    /// Replays the journal `h` to undo every change recorded after the
    /// record carrying tick `to`.
    pub fn restore(&mut self, h: &[u8], to: Tick) -> (r: Result<(), StoreError>)
        requires
            old(self).wf(),
        ensures
            final(self).wf(),
            final(self).spec_len() == old(self).spec_len(),
            final(self).store().length() == old(self).store().length(),
            final(self).store().capacity() == old(self).store().capacity(),
            final(self).store().disk() == old(self).store().disk(),
            r is Err ==> *final(self) == *old(self),
            (r == Err::<(), StoreError>(StoreError::TickNotFound)) == (find_target(
                h@,
                0,
                to.value(),
            ) is None),
            find_target(h@, 0, to.value()) matches Some(p) ==> ((r is Ok) == tail_wf(
                h@,
                p,
                old(self).store().capacity(),
            )),
            find_target(h@, 0, to.value()) matches Some(p) ==> (r is Ok
                ==> final(self).store().bytes() == replay(h@, p, old(self).store().bytes())),
            r is Ok || r == Err::<(), StoreError>(StoreError::TickNotFound) || r == Err::<
                (),
                StoreError,
            >(StoreError::CorruptJournal),
    {
        self.raw.restore(h, to)
    }

    /// Reports, without mutating anything, how `restore` would end.
    pub fn store_probe(&self, h: &[u8], to: Tick) -> (r: Result<(), StoreError>)
        ensures
            (r == Err::<(), StoreError>(StoreError::TickNotFound)) == (find_target(
                h@,
                0,
                to.value(),
            ) is None),
            find_target(h@, 0, to.value()) matches Some(p) ==> ((r is Ok) == tail_wf(
                h@,
                p,
                self.store().capacity(),
            )),
            r is Ok || r == Err::<(), StoreError>(StoreError::TickNotFound) || r == Err::<
                (),
                StoreError,
            >(StoreError::CorruptJournal),
    {
        self.raw.probe_restore(h, to)
    }

    /// Whether `restore` with this journal and target would succeed.
    pub fn check_restore(&self, h: &[u8], to: Tick) -> (r: bool)
        ensures
            r == (find_target(h@, 0, to.value()) matches Some(p) && tail_wf(
                h@,
                p,
                self.store().capacity(),
            )),
    {
        self.raw.check_restore(h, to)
    }
}

} // verus!
