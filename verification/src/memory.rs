//! Register storage. One of two layouts is picked when a program is loaded
//! and never switched afterwards: a dense array indexed by register, or a
//! sparse table holding exactly the registers the program references.

use vstd::prelude::*;

verus! {

enum Store {
    Dense(Vec<u64>),
    Sparse(Vec<(usize, u64)>),
}

/// A register file. Reading an index that was never allocated conceptually
/// yields 0, but `get` and `set` insist on allocated indices: the engine
/// sizes its memory so that no access ever misses.
pub struct Memory {
    store: Store,
}

/// Index of the row holding register `r`, if any.
fn find_row(rows: &Vec<(usize, u64)>, r: usize) -> (found: Option<usize>)
    ensures
        match found {
            Some(k) => 0 <= k < rows@.len() && (#[trigger] rows@[k as int]).0 == r,
            None => forall|a: int| 0 <= a < rows@.len() ==> (#[trigger] rows@[a]).0 != r,
        },
{
    let mut k: usize = 0;
    while k < rows.len()
        invariant
            k <= rows.len(),
            forall|a: int| 0 <= a < k ==> (#[trigger] rows@[a]).0 != r,
        decreases rows.len() - k,
    {
        if rows[k].0 == r {
            return Some(k);
        }
        k = k + 1;
    }
    None
}

impl Memory {
    spec fn spec_rows(self) -> Seq<(usize, u64)> {
        match self.store {
            Store::Dense(_) => Seq::empty(),
            Store::Sparse(rows) => rows@,
        }
    }

    /// A sparse table keeps at most one row per register.
    pub closed spec fn wf(self) -> bool {
        match self.store {
            Store::Dense(_) => true,
            Store::Sparse(rows) => forall|i: int, j: int|
                0 <= i < j < rows@.len() ==> (#[trigger] rows@[i]).0 != (#[trigger] rows@[j]).0,
        }
    }

    /// Whether register `r` has a cell of its own.
    pub closed spec fn registered(self, r: int) -> bool {
        match self.store {
            Store::Dense(cells) => 0 <= r < cells@.len(),
            Store::Sparse(rows) => exists|i: int|
                0 <= i < rows@.len() && (#[trigger] rows@[i]).0 == r,
        }
    }

    /// The value of register `r`; 0 where no cell exists.
    pub closed spec fn read(self, r: int) -> u64 {
        match self.store {
            Store::Dense(cells) => if 0 <= r < cells@.len() {
                cells@[r]
            } else {
                0
            },
            Store::Sparse(rows) => if self.registered(r) {
                rows@[choose|i: int| 0 <= i < rows@.len() && (#[trigger] rows@[i]).0 == r].1
            } else {
                0
            },
        }
    }

    /// The whole register file as one total map, for contracts over the
    /// machine model.
    pub open spec fn reads(self) -> Map<int, u64> {
        Map::total(|r: int| self.read(r))
    }

    /// Dense layout: cells `0..size`, all 0.
    pub fn from_size(size: usize) -> (m: Memory)
        ensures
            m.wf(),
            forall|r: int| m.registered(r) <==> 0 <= r < size,
            forall|r: int| m.read(r) == 0,
    {
        let mut cells: Vec<u64> = Vec::new();
        let mut i: usize = 0;
        while i < size
            invariant
                i <= size,
                cells@.len() == i,
                forall|j: int| 0 <= j < i ==> cells@[j] == 0,
            decreases size - i,
        {
            cells.push(0);
            i = i + 1;
        }
        Memory { store: Store::Dense(cells) }
    }

    /// Sparse layout: one zeroed cell for each listed register, duplicates
    /// collapsed.
    pub fn from_registers(registers: &Vec<usize>) -> (m: Memory)
        ensures
            m.wf(),
            forall|r: usize| #[trigger] m.registered(r as int) <==> registers@.contains(r),
            forall|r: int| r < 0 ==> !m.registered(r),
            forall|r: int| m.read(r) == 0,
    {
        let mut rows: Vec<(usize, u64)> = Vec::new();
        let mut i: usize = 0;
        while i < registers.len()
            invariant
                i <= registers.len(),
                forall|a: int, b: int|
                    0 <= a < b < rows@.len() ==> (#[trigger] rows@[a]).0 != (#[trigger] rows@[b]).0,
                forall|a: int| 0 <= a < rows@.len() ==> (#[trigger] rows@[a]).1 == 0,
                forall|a: int|
                    0 <= a < rows@.len() ==> registers@.take(i as int).contains(
                        (#[trigger] rows@[a]).0,
                    ),
                forall|r: usize|
                    registers@.take(i as int).contains(r) ==> exists|a: int|
                        0 <= a < rows@.len() && (#[trigger] rows@[a]).0 == r,
            decreases registers.len() - i,
        {
            let r = registers[i];
            let ghost pre = rows@;
            let found = find_row(&rows, r);
            if found.is_none() {
                rows.push((r, 0));
                proof {
                    assert forall|a: int, b: int|
                        0 <= a < b < rows@.len() implies (#[trigger] rows@[a]).0 != (
                    #[trigger] rows@[b]).0 by {
                        if b == rows@.len() - 1 {
                            assert(rows@[a].0 != r);
                        }
                    }
                }
            }
            i = i + 1;
            proof {
                let full = registers@.take(i as int);
                let prev = registers@.take(i - 1);
                assert(full.drop_last() =~= prev);
                assert(full.last() == registers@[i - 1]);
                assert forall|x: usize| full.contains(x) implies exists|a: int|
                    0 <= a < rows@.len() && (#[trigger] rows@[a]).0 == x by {
                    let j = choose|j: int| 0 <= j < full.len() && full[j] == x;
                    if j < i - 1 {
                        assert(prev[j] == x);
                        assert(prev.contains(x));
                        let a = choose|a: int| 0 <= a < pre.len() && (#[trigger] pre[a]).0 == x;
                        assert(rows@[a].0 == x);
                    } else {
                        assert(x == r);
                        match found {
                            Some(k) => {
                                assert(rows@[k as int].0 == r);
                            }
                            None => {
                                assert(rows@[rows@.len() - 1].0 == r);
                            }
                        }
                    }
                }
                assert forall|a: int| 0 <= a < rows@.len() implies full.contains(
                    (#[trigger] rows@[a]).0,
                ) by {
                    if prev.contains(rows@[a].0) {
                        let j = choose|j: int| 0 <= j < prev.len() && #[trigger] prev[j] == rows@[a].0;
                        assert(full[j] == rows@[a].0);
                    } else {
                        assert(rows@[a].0 == r);
                        assert(full[i - 1] == r);
                    }
                }
            }
        }
        proof {
            assert(registers@.take(registers.len() as int) =~= registers@);
        }
        let m = Memory { store: Store::Sparse(rows) };
        proof {
            assert forall|r: usize| #[trigger] m.registered(r as int) <==> registers@.contains(
                r,
            ) by {
                if m.registered(r as int) {
                    let a = choose|a: int|
                        0 <= a < rows@.len() && (#[trigger] rows@[a]).0 == r as int;
                    assert(registers@.contains(rows@[a].0));
                }
                if registers@.contains(r) {
                    assert(registers@.take(registers@.len() as int).contains(r));
                    let a = choose|a: int| 0 <= a < rows@.len() && (#[trigger] rows@[a]).0 == r;
                    assert(0 <= a < rows@.len());
                    assert((rows@[a]).0 == r);
                    assert((rows@[a]).0 == r as int);
                    assert(m.spec_rows() == rows@);
                    assert(m.registered(r as int));
                }
            }
            assert forall|r: int| m.read(r) == 0 by {
                if m.registered(r) {
                    let a = choose|a: int|
                        0 <= a < rows@.len() && (#[trigger] rows@[a]).0 == r;
                }
            }
        }
        m
    }

    /// Whether `get` and `set` may target register `r`.
    pub fn is_registered(&self, r: usize) -> (b: bool)
        ensures
            b == self.registered(r as int),
    {
        match &self.store {
            Store::Dense(cells) => r < cells.len(),
            Store::Sparse(rows) => {
                let found = find_row(rows, r);
                proof {
                    match found {
                        Some(k) => {
                            assert(self.registered(r as int));
                        }
                        None => {
                            if self.registered(r as int) {
                                let i = choose|i: int|
                                    0 <= i < rows@.len() && (#[trigger] rows@[i]).0 == r as int;
                                assert(false);
                            }
                        }
                    }
                }
                found.is_some()
            }
        }
    }

    /// The value of register `r`.
    pub fn get(&self, r: usize) -> (v: u64)
        requires
            self.wf(),
            self.registered(r as int),
        ensures
            v == self.read(r as int),
    {
        match &self.store {
            Store::Dense(cells) => cells[r],
            Store::Sparse(rows) => {
                let found = find_row(rows, r);
                match found {
                    Some(k) => {
                        proof {
                            let i = choose|i: int|
                                0 <= i < rows@.len() && (#[trigger] rows@[i]).0 == r as int;
                            assert(i == k);
                        }
                        rows[k].1
                    }
                    None => {
                        proof {
                            let i = choose|i: int|
                                0 <= i < rows@.len() && (#[trigger] rows@[i]).0 == r as int;
                            assert(false);
                        }
                        0
                    }
                }
            }
        }
    }

    /// Store `v` in register `r`; every other register keeps its value and
    /// the set of allocated registers does not change.
    pub fn set(&mut self, r: usize, v: u64)
        requires
            old(self).wf(),
            old(self).registered(r as int),
        ensures
            final(self).wf(),
            forall|q: int| final(self).registered(q) == old(self).registered(q),
            forall|q: int|
                final(self).read(q) == if q == r as int {
                    v
                } else {
                    old(self).read(q)
                },
    {
        proof {
            assert(*self == *old(self));
        }
        let ghost mut went_sparse = false;
        let ghost mut hit: int = 0;
        match &mut self.store {
            Store::Dense(cells) => {
                cells.set(r, v);
            }
            Store::Sparse(rows) => {
                let ghost orig = rows@;
                proof {
                    assert(old(self).spec_rows() == orig);
                }
                let found = find_row(&*rows, r);
                match found {
                    Some(k) => {
                        rows.set(k, (r, v));
                        proof {
                            went_sparse = true;
                            hit = k as int;
                        }
                    }
                    None => {
                        proof {
                            let i = choose|i: int|
                                0 <= i < orig.len() && (#[trigger] orig[i]).0 == r as int;
                            assert(false);
                        }
                    }
                }
            }
        }
        proof {
            if went_sparse {
                let orig = old(self).spec_rows();
                let now = self.spec_rows();
                assert(now == orig.update(hit, (r, v)));
                assert(orig[hit].0 == r);
                assert forall|a: int| 0 <= a < now.len() implies (#[trigger] now[a]).0
                    == orig[a].0 by {}
                assert forall|a: int, b: int|
                    0 <= a < b < now.len() implies (#[trigger] now[a]).0 != (
                #[trigger] now[b]).0 by {
                    assert(orig[a].0 != orig[b].0);
                }
                assert forall|q: int| self.registered(q) == old(self).registered(q) by {
                    if old(self).registered(q) {
                        let i = choose|i: int|
                            0 <= i < orig.len() && (#[trigger] orig[i]).0 == q;
                        assert((now[i]).0 == q);
                    }
                    if self.registered(q) {
                        let i = choose|i: int|
                            0 <= i < now.len() && (#[trigger] now[i]).0 == q;
                        assert((orig[i]).0 == q);
                    }
                }
                assert forall|q: int| self.read(q) == (if q == r as int {
                    v
                } else {
                    old(self).read(q)
                }) by {
                    if self.registered(q) {
                        let i = choose|i: int|
                            0 <= i < now.len() && (#[trigger] now[i]).0 == q;
                        let j = choose|j: int|
                            0 <= j < orig.len() && (#[trigger] orig[j]).0 == q;
                        assert(now[j].0 == q);
                        if i != j {
                            assert(false);
                        }
                        if q == r as int {
                            assert(orig[hit].0 == r);
                            if i != hit {
                                assert(false);
                            }
                        }
                    }
                }
            }
        }
    }

    /// Clear every allocated register to 0.
    pub fn reset(&mut self)
        requires
            old(self).wf(),
        ensures
            final(self).wf(),
            forall|q: int| final(self).registered(q) == old(self).registered(q),
            forall|q: int| final(self).read(q) == 0,
    {
        proof {
            assert(*self == *old(self));
        }
        let ghost mut went_sparse = false;
        match &mut self.store {
            Store::Dense(cells) => {
                let n = cells.len();
                let mut i: usize = 0;
                while i < n
                    invariant
                        i <= n,
                        cells@.len() == n,
                        forall|j: int| 0 <= j < i ==> cells@[j] == 0,
                    decreases n - i,
                {
                    cells.set(i, 0);
                    i = i + 1;
                }
            }
            Store::Sparse(rows) => {
                let ghost orig = rows@;
                proof {
                    assert(old(self).spec_rows() == orig);
                    went_sparse = true;
                }
                let n = rows.len();
                let mut i: usize = 0;
                while i < n
                    invariant
                        i <= n,
                        rows@.len() == n,
                        orig.len() == n,
                        forall|j: int|
                            0 <= j < n ==> (#[trigger] rows@[j]).0 == (#[trigger] orig[j]).0,
                        forall|j: int| 0 <= j < i ==> (#[trigger] rows@[j]).1 == 0,
                    decreases n - i,
                {
                    let key = rows[i].0;
                    rows.set(i, (key, 0));
                    i = i + 1;
                }
            }
        }
        proof {
            if went_sparse {
                let orig = old(self).spec_rows();
                let now = self.spec_rows();
                assert forall|a: int, b: int|
                    0 <= a < b < now.len() implies (#[trigger] now[a]).0 != (
                #[trigger] now[b]).0 by {
                    assert(orig[a].0 != orig[b].0);
                }
                assert forall|q: int| self.registered(q) == old(self).registered(q) by {
                    if old(self).registered(q) {
                        let a = choose|a: int|
                            0 <= a < orig.len() && (#[trigger] orig[a]).0 == q;
                        assert((now[a]).0 == q);
                    }
                    if self.registered(q) {
                        let a = choose|a: int|
                            0 <= a < now.len() && (#[trigger] now[a]).0 == q;
                        assert((orig[a]).0 == q);
                    }
                }
                assert forall|q: int| self.read(q) == 0 by {
                    if self.registered(q) {
                        let a = choose|a: int|
                            0 <= a < now.len() && (#[trigger] now[a]).0 == q;
                    }
                }
            }
        }
    }
}

} // verus!
