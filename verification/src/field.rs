//! Bookkeeping of the falling drops: which columns are still free for new
//! drops, whether the field must grow or shrink, how a drop rotates through
//! the glyph pool, and when it has fallen past the bottom of the screen.

use vstd::prelude::*;

verus! {

pub open spec fn strictly_increasing(s: Seq<usize>) -> bool {
    forall|i: int, j: int| 0 <= i < j < s.len() ==> s[i] < s[j]
}

/// Columns handed out for new drops are all different and none is occupied.
pub open spec fn fresh_columns(taken: Seq<usize>, occupied: Seq<usize>) -> bool {
    &&& forall|i: int, j: int| 0 <= i < j < taken.len() ==> taken[i] != taken[j]
    &&& forall|c: usize| taken.contains(c) ==> !occupied.contains(c)
}

/// The columns of a grid `cols` wide that no drop occupies, in ascending
/// order, together with the columns already handed out for new drops.
pub struct FreeColumns {
    cols: Vec<usize>,
    taken: Ghost<Seq<usize>>,
    occupied: Ghost<Seq<usize>>,
}

impl View for FreeColumns {
    type V = Seq<usize>;

    closed spec fn view(&self) -> Seq<usize> {
        self.cols@
    }
}

impl FreeColumns {
    #[verifier::type_invariant]
    closed spec fn ascending(self) -> bool {
        &&& strictly_increasing(self.cols@)
        &&& fresh_columns(self.taken@, self.occupied@)
        &&& forall|c: usize| self.cols@.contains(c) ==> !self.occupied@.contains(c) && !self.taken@.contains(c)
    }

    /// The columns handed out so far, in the order they were taken.
    pub closed spec fn taken(&self) -> Seq<usize> {
        self.taken@
    }

    /// The columns the existing drops occupy.
    pub closed spec fn occupied(&self) -> Seq<usize> {
        self.occupied@
    }

    /// The columns below `cols` that none of `drop_cols` names.
    pub fn new(drop_cols: &[usize], cols: usize) -> (r: FreeColumns)
        ensures
            strictly_increasing(r@),
            forall|c: usize| #[trigger] r@.contains(c) <==> (c < cols && !drop_cols@.contains(c)),
            r.taken() == Seq::<usize>::empty(),
            r.occupied() == drop_cols@,
    {
        let mut used: Vec<bool> = Vec::new();
        let mut x: usize = 0;
        while x < cols
            invariant
                x <= cols,
                used@.len() == x,
                forall|c: int| 0 <= c < x ==> !#[trigger] used@[c],
            decreases cols - x,
        {
            used.push(false);
            x = x + 1;
        }
        let mut i: usize = 0;
        while i < drop_cols.len()
            invariant
                i <= drop_cols.len(),
                used@.len() == cols,
                forall|c: int|
                    0 <= c < cols ==> (#[trigger] used@[c] <==> exists|j: int| 0 <= j < i && drop_cols@[j] == c),
            decreases drop_cols.len() - i,
        {
            let d = drop_cols[i];
            if d < cols {
                used.set(d, true);
            }
            assert forall|c: int|
                0 <= c < cols implies (#[trigger] used@[c] <==> exists|j: int| 0 <= j < i + 1 && drop_cols@[j] == c) by {
                if c == d {
                    assert(drop_cols@[i as int] == c);
                } else {
                    if exists|j: int| 0 <= j < i + 1 && drop_cols@[j] == c {
                        let j = choose|j: int| 0 <= j < i + 1 && drop_cols@[j] == c;
                        assert(j != i);
                    }
                }
            }
            i = i + 1;
        }
        let mut free: Vec<usize> = Vec::new();
        let mut x: usize = 0;
        while x < cols
            invariant
                x <= cols,
                used@.len() == cols,
                forall|c: int|
                    0 <= c < cols ==> (#[trigger] used@[c] <==> exists|j: int| 0 <= j < drop_cols@.len() && drop_cols@[j] == c),
                strictly_increasing(free@),
                forall|j: int| 0 <= j < free@.len() ==> #[trigger] free@[j] < x,
                forall|c: usize| #[trigger] free@.contains(c) <==> (c < x && !used@[c as int]),
            decreases cols - x,
        {
            let ghost prev = free@;
            if !used[x] {
                free.push(x);
                assert forall|c: usize| #[trigger] free@.contains(c) <==> (c < x + 1 && !used@[c as int]) by {
                    if c == x {
                        assert(free@[free@.len() - 1] == c);
                    } else if free@.contains(c) {
                        let j = choose|j: int| 0 <= j < free@.len() && free@[j] == c;
                        assert(prev[j] == c);
                        assert(prev.contains(c));
                    } else if c < x && !used@[c as int] {
                        assert(prev.contains(c));
                        let j = choose|j: int| 0 <= j < prev.len() && prev[j] == c;
                        assert(free@[j] == c);
                    }
                }
            }
            x = x + 1;
        }
        proof {
            assert forall|c: usize| #[trigger] free@.contains(c) <==> (c < cols && !drop_cols@.contains(c)) by {
                if c < cols {
                    if drop_cols@.contains(c) {
                        let j = choose|j: int| 0 <= j < drop_cols@.len() && drop_cols@[j] == c;
                        assert(used@[c as int]);
                    }
                }
            }
        }
        FreeColumns { cols: free, taken: Ghost(Seq::empty()), occupied: Ghost(drop_cols@) }
    }

    /// How many columns are free.
    pub fn len(&self) -> (n: usize)
        ensures
            n == self@.len(),
    {
        self.cols.len()
    }

    pub fn is_empty(&self) -> (b: bool)
        ensures
            b == (self@.len() == 0),
    {
        self.cols.len() == 0
    }

    /// Takes the free column at position `idx`; it is no longer free afterwards.
    pub fn take(&mut self, idx: usize) -> (c: usize)
        requires
            idx < old(self)@.len(),
        ensures
            c == old(self)@[idx as int],
            final(self)@ == old(self)@.remove(idx as int),
            strictly_increasing(final(self)@),
            !final(self)@.contains(c),
            final(self).taken() == old(self).taken().push(c),
            final(self).occupied() == old(self).occupied(),
            fresh_columns(final(self).taken(), final(self).occupied()),
            final(self)@.len() + final(self).taken().len() == old(self)@.len() + old(self).taken().len(),
    {
        proof {
            use_type_invariant(&*self);
        }
        let ghost before = self.cols@;
        let mut rest: Vec<usize> = Vec::new();
        std::mem::swap(&mut rest, &mut self.cols);
        let c = rest.remove(idx);
        assert(strictly_increasing(rest@)) by {
            assert forall|i: int, j: int| 0 <= i < j < rest@.len() implies rest@[i] < rest@[j] by {
                let bi = if i < idx { i } else { i + 1 };
                let bj = if j < idx { j } else { j + 1 };
                assert(rest@[i] == before[bi]);
                assert(rest@[j] == before[bj]);
            }
        }
        assert(!rest@.contains(c)) by {
            if rest@.contains(c) {
                let k = choose|k: int| 0 <= k < rest@.len() && rest@[k] == c;
                let bk = if k < idx { k } else { k + 1 };
                assert(rest@[k] == before[bk]);
            }
        }
        let ghost taken = self.taken@;
        let ghost occ = self.occupied@;
        assert(before.contains(c));
        assert(!taken.contains(c) && !occ.contains(c));
        assert forall|x: usize| rest@.contains(x) implies !occ.contains(x) && !taken.push(c).contains(x) by {
            let k = choose|k: int| 0 <= k < rest@.len() && rest@[k] == x;
            let bk = if k < idx { k } else { k + 1 };
            assert(rest@[k] == before[bk]);
            assert(before.contains(x));
            if taken.push(c).contains(x) {
                let t = choose|t: int| 0 <= t < taken.push(c).len() && taken.push(c)[t] == x;
                if t < taken.len() {
                    assert(taken.contains(x));
                }
            }
        }
        assert(fresh_columns(taken.push(c), occ)) by {
            assert forall|x: usize| taken.push(c).contains(x) implies !occ.contains(x) by {
                let t = choose|t: int| 0 <= t < taken.push(c).len() && taken.push(c)[t] == x;
                if t < taken.len() {
                    assert(taken.contains(x));
                }
            }
            assert forall|i: int, j: int| 0 <= i < j < taken.push(c).len() implies taken.push(c)[i] != taken.push(c)[j] by {
                if j == taken.len() {
                    assert(taken.contains(taken[i]));
                }
            }
        }
        *self = FreeColumns { cols: rest, taken: Ghost(taken.push(c)), occupied: Ghost(occ) };
        c
    }
}

/// The grid size the field was last laid out for.
#[derive(Clone, Copy, Debug, PartialEq, Eq, Structural)]
pub struct Viewport {
    pub cols: usize,
    pub rows: usize,
}

impl Viewport {
    /// Records the current grid size; answers whether it differs from the
    /// last one, in which case the drops must be laid out afresh.
    pub fn resize(&mut self, cols: usize, rows: usize) -> (changed: bool)
        ensures
            changed == (old(self).cols != cols || old(self).rows != rows),
            final(self).cols == cols,
            final(self).rows == rows,
    {
        if cols != self.cols || rows != self.rows {
            self.cols = cols;
            self.rows = rows;
            true
        } else {
            false
        }
    }
}

/// What to do with the drop list to reach the wanted number of drops.
#[derive(Clone, Copy, Debug, PartialEq, Eq, Structural)]
pub enum Refill {
    /// Drop the surplus drops from the end of the list.
    Trim,
    /// Spawn drops on free columns.
    Grow,
    /// Leave the list as it is.
    Hold,
}

pub open spec fn refill_for(current: nat, target: nat) -> Refill {
    if current > target {
        Refill::Trim
    } else if current < target && target > 0 {
        Refill::Grow
    } else {
        Refill::Hold
    }
}

pub fn refill_plan(current: usize, target: usize) -> (r: Refill)
    ensures
        r == refill_for(current as nat, target as nat),
{
    if current > target {
        Refill::Trim
    } else if current < target && target > 0 {
        Refill::Grow
    } else {
        Refill::Hold
    }
}

/// Number of columns that take drops at the given density setting: every
/// `density`-th column, a density of 0 counting as 1.
pub fn density_columns(cols: usize, density: u32) -> (n: usize)
    ensures
        n == cols as int / (if density == 0 { 1int } else { density as int }),
        n <= cols,
{
    let step: usize = if density == 0 {
        1
    } else {
        density as usize
    };
    cols / step
}

pub open spec fn span(len: nat) -> nat {
    if len == 0 {
        1
    } else {
        len
    }
}

/// The bound for random positions in a pool of `len` glyphs (at least 1).
pub fn pool_span(len: usize) -> (n: usize)
    ensures
        n == span(len as nat),
{
    if len == 0 {
        1
    } else {
        len
    }
}

/// The next rotation step of a drop's glyphs through a pool of `pool_len`.
pub fn advance_char_rot(char_rot: usize, pool_len: usize) -> (r: usize)
    ensures
        r == (char_rot + 1) % (span(pool_len as nat) as int),
        r < span(pool_len as nat),
{
    let m = pool_span(pool_len);
    let next: u128 = char_rot as u128 + 1;
    (next % (m as u128)) as usize
}

/// Whether a drop whose head is on `head_row` has fallen entirely past the
/// bottom of a grid of `rows` rows and must be spawned afresh.
pub fn fell_past_bottom(head_row: i32, rows: usize, length: usize) -> (b: bool)
    ensures
        b == (head_row > rows + length),
{
    (head_row as i128) > (rows as i128) + (length as i128)
}

/// How many extra glyphs a new drop on `layer` may have beyond the minimum of 4.
pub fn trail_extra(layer: u8) -> (n: usize)
    ensures
        n == (if layer == 0 { 10usize } else { 16usize }),
{
    if layer == 0 {
        10
    } else {
        16
    }
}

/// Length of a new drop from a roll below `trail_extra` of its layer: far
/// drops get 4 to 13 glyphs, near drops 4 to 19.
pub fn drop_length(roll: usize) -> (n: usize)
    requires
        roll <= usize::MAX - 4,
    ensures
        n == roll + 4,
        roll < 10 ==> 4 <= n < 14,
        roll < 16 ==> 4 <= n < 20,
{
    roll + 4
}

/// Whether the field takes another new drop: fewer drops than wanted and a
/// free column left.
pub fn keep_growing(current: usize, target: usize, free: &FreeColumns) -> (b: bool)
    ensures
        b == (current < target && free@.len() > 0),
{
    current < target && !free.is_empty()
}

/// Growing the field by taking free columns while `keep_growing` holds, each
/// new drop on a column it takes, ends with `min(target, current + free)`
/// drops: every taken column adds one drop and leaves the free list.
pub proof fn lemma_growth_count(current0: int, free0: int, target: int, current: int, free: int)
    requires
        0 <= current0 <= target,
        0 <= free,
        current + free == current0 + free0,
        current0 <= current <= target,
        !(current < target && free > 0),
    ensures
        current == if target < current0 + free0 { target } else { current0 + free0 },
{
}

/// The field grows exactly when it has fewer drops than wanted, is trimmed
/// exactly when it has more, and is held exactly when it has as many.
pub proof fn lemma_refill_decision(current: nat, target: nat)
    ensures
        (refill_for(current, target) == Refill::Grow) <==> current < target,
        (refill_for(current, target) == Refill::Trim) <==> current > target,
        (refill_for(current, target) == Refill::Hold) <==> current == target,
{
}

} // verus!
