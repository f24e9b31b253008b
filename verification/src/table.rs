//! Archetype tables.
//!
//! A `Table` holds all component data for the entities sharing one exact
//! component-type set: one `Column` per component id of its fixed signature,
//! plus the row index relating entities to row positions. The signature is
//! strictly sorted, the entity list is duplicate-free, and every column holds
//! exactly one element per row.
use vstd::prelude::*;
use vstd::pervasive::unreached;

use crate::column::Column;
use crate::column::valid_align;
use crate::errors::EcsError;
use crate::order::distinct;
use crate::order::distinct_keys;
use crate::order::find_index;
use crate::order::find_key;
use crate::order::find_key_index;
use crate::order::find_u64;
use crate::order::has_key;
use crate::order::lemma_find_u64;
use crate::order::lemma_find_u64_at;
use crate::order::sorted_strict;

verus! {

/// Which value a supplied mapping holds for component `c`: the byte view of
/// its first pair keyed by `c`.
pub open spec fn value_for(vals: Seq<(u64, Vec<u8>)>, c: u64) -> Seq<u8> {
    vals[find_key(vals, c)].1@
}

/// Whether the key set of `vals` equals the component set `sig` exactly,
/// with no component supplied twice.
pub open spec fn keys_match(vals: Seq<(u64, Vec<u8>)>, sig: Seq<u64>) -> bool {
    &&& forall|j: int| 0 <= j < sig.len() ==> has_key(vals, #[trigger] sig[j])
    &&& forall|k: int| 0 <= k < vals.len() ==> sig.contains((#[trigger] vals[k]).0)
    &&& distinct_keys(vals)
}

/// All component data for entities sharing one exact component set.
pub struct Table {
    pub signature: Vec<u64>,
    pub cols: Vec<Column>,
    pub entities: Vec<u64>,
}

impl Table {
    /// Structural invariant: strictly sorted signature, one well-formed
    /// column per signature entry, a duplicate-free entity list, and every
    /// column holding exactly one element per row.
    pub open spec fn wf(self) -> bool {
        &&& sorted_strict(self.signature@)
        &&& self.cols@.len() == self.signature@.len()
        &&& distinct(self.entities@)
        &&& forall|j: int|
            0 <= j < self.cols@.len() ==> (#[trigger] self.cols@[j]).wf() && self.cols@[j].count
                == self.entities@.len()
    }

    /// Whether this table holds a row for `e`.
    pub open spec fn contains_entity(self, e: u64) -> bool {
        self.entities@.contains(e)
    }

    /// The row index of `e`.
    pub open spec fn row_of(self, e: u64) -> int {
        find_u64(self.entities@, e)
    }

    /// Whether `c` belongs to this table's signature.
    pub open spec fn has_component(self, c: u64) -> bool {
        self.signature@.contains(c)
    }

    /// The column index of component `c`.
    pub open spec fn col_of(self, c: u64) -> int {
        find_u64(self.signature@, c)
    }

    /// The bytes stored for entity `e` under component `c`.
    pub open spec fn value_of(self, e: u64, c: u64) -> Seq<u8> {
        self.cols@[self.col_of(c)].elem(self.row_of(e))
    }

    /// Whether the supplied value lengths agree with the column layouts.
    pub open spec fn sizes_match(self, vals: Seq<(u64, Vec<u8>)>) -> bool {
        forall|j: int|
            0 <= j < self.signature@.len() ==> value_for(vals, #[trigger] self.signature@[j]).len()
                == self.cols@[j].element_size
    }

    /// Builds an empty table for `signature`, one fresh column per component,
    /// laid out by the supplied sizes and alignments.
    pub fn create(signature: Vec<u64>, sizes: &Vec<usize>, aligns: &Vec<usize>) -> (t: Table)
        requires
            sorted_strict(signature@),
            sizes@.len() == signature@.len(),
            aligns@.len() == signature@.len(),
            forall|j: int| 0 <= j < sizes@.len() ==> #[trigger] sizes@[j] >= 1,
            forall|j: int| 0 <= j < aligns@.len() ==> valid_align(#[trigger] aligns@[j]),
        ensures
            t.wf(),
            t.signature@ == signature@,
            t.entities@ == Seq::<u64>::empty(),
            forall|j: int|
                0 <= j < signature@.len() ==> (#[trigger] t.cols@[j]).element_size == sizes@[j]
                    && t.cols@[j].align == aligns@[j],
    {
        let n = signature.len();
        let mut cols: Vec<Column> = Vec::new();
        let mut j: usize = 0;
        while j < n
            invariant
                j <= n,
                n == signature@.len(),
                sizes@.len() == n,
                aligns@.len() == n,
                forall|j2: int| 0 <= j2 < n ==> #[trigger] sizes@[j2] >= 1,
                forall|j2: int| 0 <= j2 < n ==> valid_align(#[trigger] aligns@[j2]),
                cols@.len() == j,
                forall|j2: int|
                    0 <= j2 < j ==> (#[trigger] cols@[j2]).wf() && cols@[j2].element_size
                        == sizes@[j2] && cols@[j2].align == aligns@[j2] && cols@[j2].count == 0,
            decreases n - j,
        {
            let c = match Column::create(sizes[j], aligns[j]) {
                Ok(c) => c,
                Err(_) => unreached(),
            };
            cols.push(c);
            j = j + 1;
        }
        Table { signature, cols, entities: Vec::new() }
    }

    /// The current number of rows.
    pub fn row_count(&self) -> (n: usize)
        ensures
            n == self.entities@.len(),
    {
        self.entities.len()
    }

    /// The table's component-set signature.
    pub fn signature(&self) -> (s: &Vec<u64>)
        ensures
            s@ == self.signature@,
    {
        &self.signature
    }

    /// Appends one row holding `values`, whose key set must equal the
    /// signature exactly and whose byte lengths must match the column
    /// layouts. On any failure the table is left unchanged.
    pub fn insert_row(&mut self, entity: u64, values: &Vec<(u64, Vec<u8>)>) -> (r: Result<
        (),
        EcsError,
    >)
        requires
            old(self).wf(),
        ensures
            final(self).wf(),
            final(self).signature@ == old(self).signature@,
            forall|j: int|
                0 <= j < final(self).cols@.len() ==> (#[trigger] final(self).cols@[j]).element_size
                    == old(self).cols@[j].element_size && final(self).cols@[j].align == old(
                    self,
                ).cols@[j].align,
            match r {
                Ok(()) => {
                    &&& !old(self).contains_entity(entity)
                    &&& keys_match(values@, old(self).signature@)
                    &&& old(self).sizes_match(values@)
                    &&& final(self).entities@ == old(self).entities@.push(entity)
                    &&& final(self).contains_entity(entity)
                    &&& final(self).row_of(entity) == old(self).entities@.len()
                    &&& forall|j: int|
                        0 <= j < old(self).signature@.len() ==> final(self).cols@[j].elem(
                            old(self).entities@.len() as int,
                        ) == value_for(values@, #[trigger] old(self).signature@[j])
                    &&& forall|e2: u64|
                        e2 != entity ==> preserves_entity(*old(self), *final(self), e2)
                },
                Err(EcsError::DuplicateEntity) => {
                    &&& old(self).contains_entity(entity)
                    &&& *final(self) == *old(self)
                },
                Err(EcsError::SignatureMismatch) => {
                    &&& !old(self).contains_entity(entity)
                    &&& !keys_match(values@, old(self).signature@)
                    &&& *final(self) == *old(self)
                },
                Err(EcsError::TypeLayoutMismatch) => {
                    &&& !old(self).contains_entity(entity)
                    &&& keys_match(values@, old(self).signature@)
                    &&& !old(self).sizes_match(values@)
                    &&& *final(self) == *old(self)
                },
                Err(_) => false,
            },
    {
        if find_index(&self.entities, entity).is_some() {
            return Err(EcsError::DuplicateEntity);
        }
        // Every signature component must be supplied.
        let n = self.signature.len();
        let mut j: usize = 0;
        while j < n
            invariant
                j <= n,
                n == self.signature@.len(),
                *self == *old(self),
                old(self).wf(),
                !old(self).contains_entity(entity),
                forall|j2: int| 0 <= j2 < j ==> has_key(values@, #[trigger] self.signature@[j2]),
            decreases n - j,
        {
            if find_key_index(values, self.signature[j]).is_none() {
                return Err(EcsError::SignatureMismatch);
            }
            j = j + 1;
        }
        // Every supplied key must belong to the signature.
        let m = values.len();
        let mut k: usize = 0;
        while k < m
            invariant
                k <= m,
                m == values@.len(),
                *self == *old(self),
                old(self).wf(),
                !old(self).contains_entity(entity),
                forall|k2: int| 0 <= k2 < k ==> self.signature@.contains((#[trigger] values@[k2]).0),
            decreases m - k,
        {
            if find_index(&self.signature, values[k].0).is_none() {
                return Err(EcsError::SignatureMismatch);
            }
            k = k + 1;
        }
        // No component may be supplied twice.
        let mut k1: usize = 0;
        while k1 < m
            invariant
                k1 <= m,
                m == values@.len(),
                *self == *old(self),
                old(self).wf(),
                !old(self).contains_entity(entity),
                forall|i: int, j2: int| 0 <= i < j2 < m && i < k1 ==> values@[i].0 != values@[j2].0,
            decreases m - k1,
        {
            let mut k2: usize = k1 + 1;
            while k2 < m
                invariant
                    k1 < k2 <= m || (k1 + 1 == k2 && k2 > m),
                    k1 < m,
                    m == values@.len(),
                    *self == *old(self),
                    old(self).wf(),
                    !old(self).contains_entity(entity),
                    forall|j2: int| (k1 as int) < j2 < k2 ==> values@[k1 as int].0 != values@[j2].0,
                decreases m - k2,
            {
                if values[k1].0 == values[k2].0 {
                    return Err(EcsError::SignatureMismatch);
                }
                k2 = k2 + 1;
            }
            k1 = k1 + 1;
        }
        // Supplied byte lengths must match the column layouts.
        let mut j: usize = 0;
        while j < n
            invariant
                j <= n,
                n == self.signature@.len(),
                *self == *old(self),
                old(self).wf(),
                !old(self).contains_entity(entity),
                self.wf(),
                keys_match(values@, self.signature@),
                forall|j2: int|
                    0 <= j2 < j ==> value_for(values@, #[trigger] self.signature@[j2]).len()
                        == self.cols@[j2].element_size,
            decreases n - j,
        {
            let vi = match find_key_index(values, self.signature[j]) {
                Some(vi) => vi,
                None => unreached(),
            };
            if values[vi].1.len() != self.cols[j].element_size {
                return Err(EcsError::TypeLayoutMismatch);
            }
            j = j + 1;
        }
        let ghost pre = *self;
        // All checks passed: append one element to every column, then
        // register the entity under the fresh row index.
        let mut j: usize = 0;
        while j < n
            invariant
                j <= n,
                n == pre.signature@.len(),
                pre.wf(),
                keys_match(values@, pre.signature@),
                pre.sizes_match(values@),
                self.signature@ == pre.signature@,
                self.entities@ == pre.entities@,
                self.cols@.len() == pre.cols@.len(),
                forall|j2: int|
                    j <= j2 < n ==> #[trigger] self.cols@[j2] == pre.cols@[j2],
                forall|j2: int|
                    0 <= j2 < j ==> (#[trigger] self.cols@[j2]).wf() && self.cols@[j2].element_size
                        == pre.cols@[j2].element_size && self.cols@[j2].align
                        == pre.cols@[j2].align && self.cols@[j2].count == pre.entities@.len() + 1,
                forall|j2: int, i: int|
                    0 <= j2 < j && 0 <= i < pre.entities@.len() ==> #[trigger] self.cols@[j2].elem(i)
                        == pre.cols@[j2].elem(i),
                forall|j2: int|
                    0 <= j2 < j ==> #[trigger] self.cols@[j2].elem(pre.entities@.len() as int)
                        == value_for(values@, pre.signature@[j2]),
            decreases n - j,
        {
            let vi = match find_key_index(values, self.signature[j]) {
                Some(vi) => vi,
                None => unreached(),
            };
            self.cols[j].push(&values[vi].1);
            j = j + 1;
        }
        self.entities.push(entity);
        proof {
            lemma_find_u64(pre.entities@, entity);
            assert(self.entities@[pre.entities@.len() as int] == entity);
            lemma_find_u64_at(self.entities@, entity, pre.entities@.len() as int);
            assert(self.entities@.contains(entity));
            assert forall|e2: u64|
                e2 != entity implies preserves_entity(pre, *self, e2) by {
                if pre.contains_entity(e2) {
                    let i = find_u64(pre.entities@, e2);
                    lemma_find_u64(pre.entities@, e2);
                    assert(self.entities@[i] == e2);
                    lemma_find_u64_at(self.entities@, e2, i);
                    assert(self.contains_entity(e2));
                    assert forall|c: u64| pre.has_component(c) implies self.value_of(e2, c)
                        == pre.value_of(e2, c) by {
                        lemma_find_u64(pre.signature@, c);
                        let j2 = pre.col_of(c);
                        assert(self.cols@[j2].elem(i) == pre.cols@[j2].elem(i));
                    }
                } else {
                    if self.contains_entity(e2) {
                        let w = choose|w: int|
                            0 <= w < self.entities@.len() && self.entities@[w] == e2;
                        assert(pre.entities@[w] == e2);
                        assert(pre.entities@.contains(e2));
                    }
                }
            }
        }
        Ok(())
    }

    /// Reads the bytes stored for `entity` under component `c`.
    pub fn get_component(&self, entity: u64, c: u64) -> (r: Result<Vec<u8>, EcsError>)
        requires
            self.wf(),
        ensures
            match r {
                Ok(v) => self.contains_entity(entity) && self.has_component(c) && v@
                    == self.value_of(entity, c),
                Err(EcsError::EntityNotFound) => !self.contains_entity(entity),
                Err(EcsError::ComponentNotFound) => self.contains_entity(entity)
                    && !self.has_component(c),
                Err(_) => false,
            },
    {
        let row = match find_index(&self.entities, entity) {
            Some(row) => row,
            None => {
                return Err(EcsError::EntityNotFound);
            },
        };
        let j = match find_index(&self.signature, c) {
            Some(j) => j,
            None => {
                return Err(EcsError::ComponentNotFound);
            },
        };
        match self.cols[j].get(row) {
            Ok(v) => Ok(v),
            Err(_) => unreached(),
        }
    }

    /// Overwrites the bytes stored for `entity` under component `c`; the
    /// supplied length must match the column layout.
    pub fn set_component(&mut self, entity: u64, c: u64, bytes: &Vec<u8>) -> (r: Result<(), EcsError>)
        requires
            old(self).wf(),
        ensures
            final(self).wf(),
            final(self).signature@ == old(self).signature@,
            final(self).entities@ == old(self).entities@,
            forall|j: int|
                0 <= j < final(self).cols@.len() ==> (#[trigger] final(self).cols@[j]).element_size
                    == old(self).cols@[j].element_size && final(self).cols@[j].align == old(
                    self,
                ).cols@[j].align,
            match r {
                Ok(()) => {
                    &&& old(self).contains_entity(entity)
                    &&& old(self).has_component(c)
                    &&& bytes@.len() == old(self).cols@[old(self).col_of(c)].element_size
                    &&& final(self).value_of(entity, c) == bytes@
                    &&& forall|c2: u64|
                        old(self).has_component(c2) && c2 != c ==> final(self).value_of(entity, c2)
                            == old(self).value_of(entity, c2)
                    &&& forall|e2: u64|
                        e2 != entity ==> preserves_entity(*old(self), *final(self), e2)
                },
                Err(EcsError::EntityNotFound) => !old(self).contains_entity(entity) && *final(self)
                    == *old(self),
                Err(EcsError::ComponentNotFound) => old(self).contains_entity(entity) && !old(
                    self,
                ).has_component(c) && *final(self) == *old(self),
                Err(EcsError::TypeLayoutMismatch) => {
                    &&& old(self).contains_entity(entity)
                    &&& old(self).has_component(c)
                    &&& bytes@.len() != old(self).cols@[old(self).col_of(c)].element_size
                    &&& *final(self) == *old(self)
                },
                Err(_) => false,
            },
    {
        let row = match find_index(&self.entities, entity) {
            Some(row) => row,
            None => {
                return Err(EcsError::EntityNotFound);
            },
        };
        let j = match find_index(&self.signature, c) {
            Some(j) => j,
            None => {
                return Err(EcsError::ComponentNotFound);
            },
        };
        if bytes.len() != self.cols[j].element_size {
            return Err(EcsError::TypeLayoutMismatch);
        }
        let ghost pre = *self;
        let res = self.cols[j].set(row, bytes);
        proof {
            if res.is_err() {
                assert(false);
            }
            assert forall|c2: u64|
                pre.has_component(c2) && c2 != c implies self.value_of(entity, c2)
                == pre.value_of(entity, c2) by {
                lemma_find_u64(pre.signature@, c2);
                let j2 = pre.col_of(c2);
                if j2 != j {
                    assert(self.cols@[j2] == pre.cols@[j2]);
                }
            }
            assert forall|e2: u64| e2 != entity implies preserves_entity(pre, *self, e2) by {
                if pre.contains_entity(e2) {
                    lemma_find_u64(pre.entities@, e2);
                    let i = pre.row_of(e2);
                    assert forall|c2: u64| pre.has_component(c2) implies self.value_of(e2, c2)
                        == pre.value_of(e2, c2) by {
                        lemma_find_u64(pre.signature@, c2);
                        let j2 = pre.col_of(c2);
                        if j2 != j {
                            assert(self.cols@[j2] == pre.cols@[j2]);
                        } else {
                            assert(i != row);
                            assert(self.cols@[j as int].elem(i) == pre.cols@[j as int].elem(i));
                        }
                    }
                }
            }
        }
        match res {
            Ok(()) => Ok(()),
            Err(_) => unreached(),
        }
    }

    /// Removes the row of `entity` by a swap-removal on every column: the
    /// last row moves into the vacated position. Returns the removed values,
    /// keyed in signature order, so a migration can carry them onward.
    pub fn remove_row(&mut self, entity: u64) -> (r: Result<Vec<(u64, Vec<u8>)>, EcsError>)
        requires
            old(self).wf(),
        ensures
            final(self).wf(),
            final(self).signature@ == old(self).signature@,
            forall|j: int|
                0 <= j < final(self).cols@.len() ==> (#[trigger] final(self).cols@[j]).element_size
                    == old(self).cols@[j].element_size && final(self).cols@[j].align == old(
                    self,
                ).cols@[j].align,
            match r {
                Ok(vals) => {
                    &&& old(self).contains_entity(entity)
                    &&& !final(self).contains_entity(entity)
                    &&& final(self).entities@ == old(self).entities@.update(
                        old(self).row_of(entity),
                        old(self).entities@.last(),
                    ).drop_last()
                    &&& vals@.len() == old(self).signature@.len()
                    &&& forall|j: int|
                        0 <= j < vals@.len() ==> (#[trigger] vals@[j]).0 == old(self).signature@[j]
                            && vals@[j].1@ == old(self).value_of(
                            entity,
                            old(self).signature@[j],
                        )
                    &&& keys_match(vals@, old(self).signature@)
                    &&& forall|e2: u64|
                        e2 != entity ==> preserves_entity(*old(self), *final(self), e2)
                },
                Err(e) => {
                    &&& e == EcsError::EntityNotFound
                    &&& !old(self).contains_entity(entity)
                    &&& *final(self) == *old(self)
                },
            },
    {
        let row = match find_index(&self.entities, entity) {
            Some(row) => row,
            None => {
                return Err(EcsError::EntityNotFound);
            },
        };
        let ghost pre = *self;
        let n = self.signature.len();
        // Copy the row out first: these are the values handed to a migration.
        let mut vals: Vec<(u64, Vec<u8>)> = Vec::new();
        let mut j: usize = 0;
        while j < n
            invariant
                j <= n,
                n == self.signature@.len(),
                *self == pre,
                pre.wf(),
                row < pre.entities@.len(),
                pre.entities@[row as int] == entity,
                find_u64(pre.entities@, entity) == row,
                vals@.len() == j,
                forall|j2: int|
                    0 <= j2 < j ==> (#[trigger] vals@[j2]).0 == pre.signature@[j2] && vals@[j2].1@
                        == pre.cols@[j2].elem(row as int),
            decreases n - j,
        {
            let v = match self.cols[j].get(row) {
                Ok(v) => v,
                Err(_) => unreached(),
            };
            let cid = self.signature[j];
            vals.push((cid, v));
            j = j + 1;
        }
        // Compact every column, then the entity list, with one swap-removal
        // each, so all stay aligned on the same row order.
        let mut j: usize = 0;
        while j < n
            invariant
                j <= n,
                n == pre.signature@.len(),
                pre.wf(),
                row < pre.entities@.len(),
                self.signature@ == pre.signature@,
                self.entities@ == pre.entities@,
                self.cols@.len() == pre.cols@.len(),
                forall|j2: int| j <= j2 < n ==> #[trigger] self.cols@[j2] == pre.cols@[j2],
                forall|j2: int|
                    0 <= j2 < j ==> (#[trigger] self.cols@[j2]).wf() && self.cols@[j2].element_size
                        == pre.cols@[j2].element_size && self.cols@[j2].align
                        == pre.cols@[j2].align && self.cols@[j2].count == pre.entities@.len() - 1,
                forall|j2: int, i: int|
                    0 <= j2 < j && 0 <= i < pre.entities@.len() - 1 ==> #[trigger] self.cols@[
                        j2
                    ].elem(i) == (if i == row {
                        pre.cols@[j2].elem(pre.entities@.len() - 1)
                    } else {
                        pre.cols@[j2].elem(i)
                    }),
            decreases n - j,
        {
            self.cols[j].swap_remove(row);
            j = j + 1;
        }
        self.entities.swap_remove(row);
        proof {
            let last = pre.entities@.len() - 1;
            let post = self.entities@;
            assert(post.len() == last);
            assert(forall|k: int|
                0 <= k < last ==> post[k] == (if k == row {
                    pre.entities@[last]
                } else {
                    pre.entities@[k]
                }));
            // The compacted entity list is still duplicate-free.
            assert forall|i: int, j2: int| 0 <= i < j2 < post.len() implies post[i] != post[j2] by {
                assert(i != row || j2 != row);
            }
            lemma_col_positions(pre);
            // Returned bytes are the entity's own values, in signature order.
            assert forall|j2: int|
                0 <= j2 < vals@.len() implies vals@[j2].1@ == pre.value_of(
                entity,
                pre.signature@[j2],
            ) by {
                assert(pre.col_of(pre.signature@[j2]) == j2);
            }
            // No component id repeats among the returned values.
            assert forall|i: int, j2: int|
                0 <= i < j2 < vals@.len() implies vals@[i].0 != vals@[j2].0 by {
                assert(pre.signature@[i] < pre.signature@[j2]);
            }
            // keys_match of the returned values: signature order, every key once.
            assert forall|j2: int|
                0 <= j2 < pre.signature@.len() implies has_key(
                vals@,
                #[trigger] pre.signature@[j2],
            ) by {
                assert(vals@[j2].0 == pre.signature@[j2]);
            }
            assert forall|k: int|
                0 <= k < vals@.len() implies pre.signature@.contains(
                (#[trigger] vals@[k]).0,
            ) by {
                assert(pre.signature@[k] == vals@[k].0);
            }
            // The removed entity no longer appears.
            if post.contains(entity) {
                let w = choose|w: int| 0 <= w < post.len() && post[w] == entity;
                if w == row {
                    assert(pre.entities@[last] == entity);
                    assert(pre.entities@[row as int] == entity);
                    assert(row < last);
                    assert(pre.entities@[row as int] != pre.entities@[last]);
                } else {
                    assert(pre.entities@[w] == entity);
                    assert(w != row);
                    assert(pre.entities@[w] != pre.entities@[row as int]);
                }
            }
            // Every other entity keeps its values.
            assert forall|e2: u64| e2 != entity implies preserves_entity(pre, *self, e2) by {
                if pre.contains_entity(e2) {
                    lemma_find_u64(pre.entities@, e2);
                    let i = pre.row_of(e2);
                    assert(i != row);
                    let p = if i == last {
                        row as int
                    } else {
                        i
                    };
                    assert(post[p] == e2);
                    assert(post.contains(e2));
                    assert forall|k: int| 0 <= k < p implies post[k] != e2 by {
                        assert(k != row || i == last || true);
                        if k == row {
                            assert(post[k] == pre.entities@[last]);
                        } else {
                            assert(post[k] == pre.entities@[k]);
                        }
                    }
                    lemma_find_u64_at(post, e2, p);
                    assert forall|c: u64| pre.has_component(c) implies self.value_of(e2, c)
                        == pre.value_of(e2, c) by {
                        lemma_find_u64(pre.signature@, c);
                        let j2 = pre.col_of(c);
                        if i == last {
                            assert(self.cols@[j2].elem(p) == pre.cols@[j2].elem(last));
                        } else {
                            assert(self.cols@[j2].elem(i) == pre.cols@[j2].elem(i));
                        }
                    }
                } else {
                    if self.contains_entity(e2) {
                        let w = choose|w: int| 0 <= w < post.len() && post[w] == e2;
                        if w == row {
                            assert(pre.entities@[last] == e2);
                        } else {
                            assert(pre.entities@[w] == e2);
                        }
                        assert(pre.entities@.contains(e2));
                    }
                }
            }
        }
        Ok(vals)
    }
}

/// In a strictly sorted signature, each component's column index is its own
/// position.
pub proof fn lemma_col_positions(t: Table)
    requires
        sorted_strict(t.signature@),
    ensures
        forall|j: int| 0 <= j < t.signature@.len() ==> t.col_of(#[trigger] t.signature@[j]) == j,
{
    assert forall|j: int| 0 <= j < t.signature@.len() implies t.col_of(t.signature@[j]) == j by {
        assert forall|k: int| 0 <= k < j implies t.signature@[k] != t.signature@[j] by {
            assert(t.signature@[k] < t.signature@[j]);
        }
        lemma_find_u64_at(t.signature@, t.signature@[j], j);
    }
}

/// Whether `post` still holds `e` exactly as `pre` did: same residency, and
/// the same bytes under every component of the (unchanged) signature.
pub open spec fn preserves_entity(pre: Table, post: Table, e: u64) -> bool {
    &&& post.contains_entity(e) == pre.contains_entity(e)
    &&& pre.contains_entity(e) ==> forall|c: u64|
        pre.has_component(c) ==> post.value_of(e, c) == pre.value_of(e, c)
}

} // verus!
