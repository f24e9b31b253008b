//! Type-erased dense columns.
//!
//! A `Column` owns one growable byte buffer holding `count` elements of
//! `element_size` bytes each, for a single component type. The caller
//! supplies size, alignment and raw bytes; this layer never interprets them.
//! Component values are plain byte buffers here, so releasing a removed
//! element is dropping its bytes; there is no user-supplied destructor to run.
use vstd::prelude::*;

use crate::errors::EcsError;

verus! {

/// `align` is a power of two exactly when `align & (align - 1)` is zero.
pub open spec fn valid_align(align: usize) -> bool {
    align >= 1 && align & ((align - 1) as usize) == 0
}

/// Checks that `align` is a power of two.
pub fn check_align(align: usize) -> (r: bool)
    ensures
        r == valid_align(align),
{
    align >= 1 && align & (align - 1) == 0
}

proof fn lemma_elem_bounds(i: int, cnt: int, es: int)
    requires
        0 <= i < cnt,
        es >= 1,
    ensures
        0 <= i * es,
        i * es + es <= cnt * es,
{
    assert(0 <= i * es && i * es + es <= cnt * es) by (nonlinear_arith)
        requires
            0 <= i < cnt,
            es >= 1,
    ;
}

proof fn lemma_elem_disjoint(i: int, j: int, es: int)
    requires
        0 <= i,
        0 <= j,
        i != j,
        es >= 1,
    ensures
        i < j ==> i * es + es <= j * es,
        j < i ==> j * es + es <= i * es,
{
    assert((i < j ==> i * es + es <= j * es) && (j < i ==> j * es + es <= i * es))
        by (nonlinear_arith)
        requires
            0 <= i,
            0 <= j,
            es >= 1,
    ;
}

/// An element of a well-formed column is exactly `element_size` bytes long.
pub proof fn lemma_elem_len(c: Column, i: int)
    requires
        c.wf(),
        0 <= i < c.count,
    ensures
        c.elem(i).len() == c.element_size,
{
    lemma_elem_bounds(i, c.count as int, c.element_size as int);
}

/// One dense, type-erased buffer: `count` elements of `element_size` bytes.
pub struct Column {
    pub element_size: usize,
    pub align: usize,
    pub count: usize,
    pub data: Vec<u8>,
}

impl Column {
    /// The buffer holds exactly `count * element_size` bytes of a non-empty,
    /// power-of-two-aligned element type.
    pub open spec fn wf(self) -> bool {
        &&& self.element_size >= 1
        &&& valid_align(self.align)
        &&& self.data@.len() == self.count * self.element_size
    }

    /// The bytes of the element stored at `row`.
    pub open spec fn elem(self, row: int) -> Seq<u8> {
        self.data@.subrange(
            row * self.element_size,
            row * self.element_size + self.element_size,
        )
    }

    /// Constructs an empty column; fails when the element size is zero or the
    /// alignment is not a power of two.
    pub fn create(element_size: usize, align: usize) -> (r: Result<Column, EcsError>)
        ensures
            match r {
                Ok(c) => {
                    &&& element_size >= 1
                    &&& valid_align(align)
                    &&& c.wf()
                    &&& c.element_size == element_size
                    &&& c.align == align
                    &&& c.count == 0
                },
                Err(e) => e == EcsError::TypeLayoutMismatch && (element_size == 0 || !valid_align(
                    align,
                )),
            },
    {
        if element_size == 0 || !check_align(align) {
            return Err(EcsError::TypeLayoutMismatch);
        }
        Ok(Column { element_size, align, count: 0, data: Vec::new() })
    }

    /// Appends one element, copying `element_size` bytes in; returns the new
    /// row index.
    pub fn push(&mut self, bytes: &Vec<u8>) -> (row: usize)
        requires
            old(self).wf(),
            bytes@.len() == old(self).element_size,
        ensures
            final(self).wf(),
            final(self).element_size == old(self).element_size,
            final(self).align == old(self).align,
            final(self).count == old(self).count + 1,
            row == old(self).count,
            forall|i: int| 0 <= i < old(self).count ==> final(self).elem(i) == old(self).elem(i),
            final(self).elem(old(self).count as int) == bytes@,
    {
        let ghost pre = *self;
        let es = self.element_size;
        let mut k: usize = 0;
        while k < es
            invariant
                k <= es,
                es == pre.element_size,
                bytes@.len() == es,
                self.element_size == pre.element_size,
                self.align == pre.align,
                self.count == pre.count,
                self.data@ == pre.data@ + bytes@.subrange(0, k as int),
            decreases es - k,
        {
            self.data.push(bytes[k]);
            proof {
                assert(bytes@.subrange(0, k + 1) =~= bytes@.subrange(0, k as int).push(
                    bytes@[k as int],
                ));
                assert(self.data@ =~= pre.data@ + bytes@.subrange(0, k + 1));
            }
            k = k + 1;
        }
        proof {
            assert(bytes@.subrange(0, es as int) =~= bytes@);
            let cnt = pre.count as int;
            let esi = es as int;
            assert(pre.count + 1 <= pre.count * esi + esi) by (nonlinear_arith)
                requires
                    esi >= 1,
                    pre.count >= 0,
            ;
        }
        let total = self.data.len();
        proof {
            assert(total == pre.count * (es as int) + es);
        }
        let row = self.count;
        self.count = self.count + 1;
        proof {
            let cnt = pre.count as int;
            let esi = es as int;
            assert((cnt + 1) * esi == cnt * esi + esi) by (nonlinear_arith);
            assert forall|i: int| 0 <= i < pre.count implies self.elem(i) == pre.elem(i) by {
                lemma_elem_bounds(i, cnt, esi);
                assert(self.elem(i) =~= pre.elem(i));
            }
            lemma_elem_bounds(cnt, cnt + 1, esi);
            assert(self.elem(cnt) =~= bytes@);
        }
        row
    }

    /// Bounds-checked read of the element at `row`, returned as a fresh byte
    /// vector.
    pub fn get(&self, row: usize) -> (r: Result<Vec<u8>, EcsError>)
        requires
            self.wf(),
        ensures
            match r {
                Ok(v) => row < self.count && v@ == self.elem(row as int),
                Err(e) => e == EcsError::IndexOutOfRange && row >= self.count,
            },
    {
        if row >= self.count {
            return Err(EcsError::IndexOutOfRange);
        }
        let es = self.element_size;
        let total = self.data.len();
        proof {
            lemma_elem_bounds(row as int, self.count as int, es as int);
            assert(row * (es as int) + es <= total);
        }
        let start = row * es;
        let mut out: Vec<u8> = Vec::new();
        let mut k: usize = 0;
        while k < es
            invariant
                k <= es,
                es == self.element_size,
                self.wf(),
                row < self.count,
                start == row * es,
                start + es <= self.data@.len(),
                start + es <= usize::MAX,
                out@ == self.data@.subrange(start as int, start + k),
            decreases es - k,
        {
            out.push(self.data[start + k]);
            proof {
                assert(out@ =~= self.data@.subrange(start as int, start + k + 1));
            }
            k = k + 1;
        }
        Ok(out)
    }

    /// Bounds-checked overwrite of the element at `row`.
    pub fn set(&mut self, row: usize, bytes: &Vec<u8>) -> (r: Result<(), EcsError>)
        requires
            old(self).wf(),
            bytes@.len() == old(self).element_size,
        ensures
            final(self).wf(),
            final(self).element_size == old(self).element_size,
            final(self).align == old(self).align,
            final(self).count == old(self).count,
            match r {
                Ok(()) => {
                    &&& row < old(self).count
                    &&& final(self).elem(row as int) == bytes@
                    &&& forall|i: int|
                        0 <= i < old(self).count && i != row ==> final(self).elem(i) == old(
                            self,
                        ).elem(i)
                },
                Err(e) => {
                    &&& e == EcsError::IndexOutOfRange
                    &&& row >= old(self).count
                    &&& *final(self) == *old(self)
                },
            },
    {
        if row >= self.count {
            return Err(EcsError::IndexOutOfRange);
        }
        let ghost pre = *self;
        let es = self.element_size;
        let total = self.data.len();
        proof {
            lemma_elem_bounds(row as int, self.count as int, es as int);
            assert(row * (es as int) + es <= total);
        }
        let start = row * es;
        let mut k: usize = 0;
        while k < es
            invariant
                k <= es,
                es == pre.element_size,
                bytes@.len() == es,
                row < pre.count,
                start == row * es,
                start + es <= self.data@.len(),
                start + es <= usize::MAX,
                self.element_size == pre.element_size,
                self.align == pre.align,
                self.count == pre.count,
                self.data@.len() == pre.data@.len(),
                forall|n: int|
                    0 <= n < self.data@.len() && !(start <= n < start + k) ==> self.data@[n]
                        == pre.data@[n],
                forall|n: int|
                    start <= n < start + k ==> self.data@[n] == bytes@[n - start],
            decreases es - k,
        {
            self.data[start + k] = bytes[k];
            k = k + 1;
        }
        proof {
            let cnt = pre.count as int;
            let esi = es as int;
            assert(self.elem(row as int) =~= bytes@);
            assert forall|i: int| 0 <= i < cnt && i != row implies self.elem(i) == pre.elem(i) by {
                lemma_elem_bounds(i, cnt, esi);
                lemma_elem_disjoint(i, row as int, esi);
                assert(self.elem(i) =~= pre.elem(i));
            }
        }
        Ok(())
    }

    /// Removes the element at `row` by moving the last element into its place
    /// and shrinking the buffer by one element; returns the row index the
    /// moved element formerly occupied, so the caller can fix up any external
    /// index that pointed at it.
    pub fn swap_remove(&mut self, row: usize) -> (moved: usize)
        requires
            old(self).wf(),
            row < old(self).count,
        ensures
            final(self).wf(),
            final(self).element_size == old(self).element_size,
            final(self).align == old(self).align,
            final(self).count == old(self).count - 1,
            moved == old(self).count - 1,
            forall|i: int|
                0 <= i < final(self).count ==> final(self).elem(i) == (if i == row {
                    old(self).elem(old(self).count - 1)
                } else {
                    old(self).elem(i)
                }),
    {
        let ghost pre = *self;
        let es = self.element_size;
        let last = self.count - 1;
        proof {
            lemma_elem_bounds(last as int, self.count as int, es as int);
            lemma_elem_bounds(row as int, self.count as int, es as int);
        }
        let total = self.data.len();
        if row < last {
            proof {
                assert(row * (es as int) + es <= total);
                assert(last * (es as int) + es <= total);
                lemma_elem_disjoint(row as int, last as int, es as int);
            }
            let dst = row * es;
            let src = last * es;
            let mut k: usize = 0;
            while k < es
                invariant
                    k <= es,
                    es == pre.element_size,
                    row < last,
                    last == pre.count - 1,
                    dst == row * es,
                    src == last * es,
                    dst + es <= src,
                    src + es <= self.data@.len(),
                    src + es <= usize::MAX,
                    self.element_size == pre.element_size,
                self.align == pre.align,
                self.count == pre.count,
                    self.data@.len() == pre.data@.len(),
                    forall|n: int|
                        0 <= n < self.data@.len() && !(dst <= n < dst + k) ==> self.data@[n]
                            == pre.data@[n],
                    forall|n: int|
                        dst <= n < dst + k ==> self.data@[n] == pre.data@[src + (n - dst)],
                decreases es - k,
            {
                let b = self.data[src + k];
                self.data[dst + k] = b;
                k = k + 1;
            }
            proof {
                lemma_elem_disjoint(row as int, last as int, es as int);
            }
        }
        let ghost mid = self.data@;
        let new_len = self.data.len() - es;
        self.data.truncate(new_len);
        self.count = last;
        proof {
            let cnt = pre.count as int;
            let esi = es as int;
            assert((cnt - 1) * esi == cnt * esi - esi) by (nonlinear_arith);
            assert(self.data@ == mid.subrange(0, (cnt - 1) * esi));
            assert forall|i: int|
                0 <= i < cnt - 1 implies self.elem(i) == (if i == row {
                pre.elem(cnt - 1)
            } else {
                pre.elem(i)
            }) by {
                lemma_elem_bounds(i, cnt - 1, esi);
                if i == row {
                    lemma_elem_bounds(cnt - 1, cnt, esi);
                    assert(self.elem(i) =~= pre.elem(cnt - 1));
                } else {
                    if row < last {
                        lemma_elem_disjoint(i, row as int, esi);
                    }
                    assert(self.elem(i) =~= pre.elem(i));
                }
            }
        }
        last
    }

    /// The current number of rows.
    pub fn row_count(&self) -> (n: usize)
        ensures
            n == self.count,
    {
        self.count
    }
}

} // verus!
