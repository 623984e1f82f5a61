//! Sets of small numbers held as rows of booleans, and the counting that
//! shows a shrinking row to have fewer members.
use vstd::prelude::*;

verus! {

/// The number of `true` entries of a row.
pub open spec fn count_true(row: Seq<bool>) -> nat
    decreases row.len(),
{
    if row.len() == 0 {
        0
    } else {
        count_true(row.drop_last()) + if row.last() {
            1nat
        } else {
            0nat
        }
    }
}

/// The number of `true` entries of a table.
pub open spec fn total_true(rows: Seq<Seq<bool>>) -> nat
    decreases rows.len(),
{
    if rows.len() == 0 {
        0
    } else {
        total_true(rows.drop_last()) + count_true(rows.last())
    }
}

/// The rows of a table of vectors.
pub open spec fn table(v: Seq<Vec<bool>>) -> Seq<Seq<bool>> {
    Seq::new(v.len(), |i: int| v[i]@)
}

/// Every member of `a` is a member of `b`.
pub open spec fn row_within(a: Seq<bool>, b: Seq<bool>) -> bool {
    &&& a.len() == b.len()
    &&& forall|i: int| 0 <= i < a.len() ==> (#[trigger] a[i] ==> b[i])
}

pub proof fn lemma_count_bound(row: Seq<bool>)
    ensures
        count_true(row) <= row.len(),
    decreases row.len(),
{
    if row.len() > 0 {
        lemma_count_bound(row.drop_last());
    }
}

/// A row within another has at most as many members, and fewer if the two
/// differ.
pub proof fn lemma_count_within(a: Seq<bool>, b: Seq<bool>)
    requires
        row_within(a, b),
    ensures
        count_true(a) <= count_true(b),
        a != b ==> count_true(a) < count_true(b),
    decreases a.len(),
{
    if a.len() > 0 {
        let pa = a.drop_last();
        let pb = b.drop_last();
        assert(row_within(pa, pb)) by {
            assert forall|i: int| 0 <= i < pa.len() && #[trigger] pa[i] implies pb[i] by {
                assert(a[i] ==> b[i]);
            }
        }
        lemma_count_within(pa, pb);
        assert(a.last() ==> b.last());
        if a != b {
            if a.last() == b.last() {
                if pa == pb {
                    assert(a =~= pa.push(a.last()));
                    assert(b =~= pb.push(b.last()));
                }
            }
        }
    } else {
        assert(a =~= b);
    }
}

/// Replacing one row changes the total by the change of that row.
pub proof fn lemma_total_update(rows: Seq<Seq<bool>>, v: int, row: Seq<bool>)
    requires
        0 <= v < rows.len(),
    ensures
        total_true(rows.update(v, row)) + count_true(rows[v]) == total_true(rows) + count_true(row),
    decreases rows.len(),
{
    let n = rows.len();
    if v == n - 1 {
        assert(rows.update(v, row).drop_last() =~= rows.drop_last());
    } else {
        lemma_total_update(rows.drop_last(), v, row);
        assert(rows.update(v, row).drop_last() =~= rows.drop_last().update(v, row));
    }
}

/// A new member makes one more.
pub proof fn lemma_count_set(row: Seq<bool>, i: int)
    requires
        0 <= i < row.len(),
        !row[i],
    ensures
        count_true(row.update(i, true)) == count_true(row) + 1,
    decreases row.len(),
{
    if i == row.len() - 1 {
        assert(row.update(i, true).drop_last() =~= row.drop_last());
    } else {
        lemma_count_set(row.drop_last(), i);
        assert(row.update(i, true).drop_last() =~= row.drop_last().update(i, true));
    }
}

/// A row without members counts nothing, and only such a row does.
pub proof fn lemma_count_none(row: Seq<bool>)
    ensures
        count_true(row) == 0 <==> forall|k: int| 0 <= k < row.len() ==> !row[k],
    decreases row.len(),
{
    if row.len() > 0 {
        lemma_count_none(row.drop_last());
        if count_true(row) == 0 {
            assert forall|k: int| 0 <= k < row.len() implies !row[k] by {
                if k < row.len() - 1 {
                    assert(!row.drop_last()[k]);
                }
            }
        }
        if forall|k: int| 0 <= k < row.len() ==> !row[k] {
            assert forall|k: int| 0 <= k < row.drop_last().len() implies !row.drop_last()[k] by {
                assert(!row[k]);
            }
            assert(!row[row.len() - 1]);
        }
    }
}

/// A row has exactly two members, at `i` and at `j`, exactly when it has
/// them and counts two.
pub proof fn lemma_count_two(row: Seq<bool>, i: int, j: int)
    requires
        0 <= i < row.len(),
        0 <= j < row.len(),
        i != j,
        row[i],
        row[j],
    ensures
        count_true(row) == 2 <==> forall|k: int| 0 <= k < row.len() && k != i && k != j ==> !row[k],
{
    let one = row.update(i, false);
    let none = one.update(j, false);
    lemma_count_set(one, i);
    assert(one.update(i, true) =~= row);
    lemma_count_set(none, j);
    assert(none.update(j, true) =~= one);
    lemma_count_none(none);
    if count_true(row) == 2 {
        assert forall|k: int| 0 <= k < row.len() && k != i && k != j implies !row[k] by {
            assert(!none[k]);
        }
    }
    if forall|k: int| 0 <= k < row.len() && k != i && k != j ==> !row[k] {
        assert forall|k: int| 0 <= k < none.len() implies !none[k] by {
            if k != i && k != j {
                assert(!row[k]);
            }
        }
    }
}

/// A row of `n` entries, all equal to `value`.
pub fn filled_row(n: usize, value: bool) -> (r: Vec<bool>)
    ensures
        r.len() == n,
        forall|i: int| 0 <= i < n ==> r[i] == value,
{
    let mut r: Vec<bool> = Vec::new();
    let mut i: usize = 0;
    while i < n
        invariant
            i <= n,
            r.len() == i,
            forall|k: int| 0 <= k < i ==> r[k] == value,
        decreases n - i,
    {
        r.push(value);
        i += 1;
    }
    r
}

/// Whether two rows are equal.
pub fn same_row(a: &Vec<bool>, b: &Vec<bool>) -> (r: bool)
    ensures
        r == (a@ == b@),
{
    if a.len() != b.len() {
        return false;
    }
    let mut i: usize = 0;
    while i < a.len()
        invariant
            i <= a.len(),
            a.len() == b.len(),
            forall|k: int| 0 <= k < i ==> a[k] == b[k],
        decreases a.len() - i,
    {
        if a[i] != b[i] {
            return false;
        }
        i += 1;
    }
    assert(a@ =~= b@);
    true
}

/// The members of a row, in ascending order.
pub fn members(row: &Vec<bool>) -> (r: Vec<usize>)
    ensures
        forall|x: usize| #[trigger] r@.contains(x) <==> x < row.len() && row[x as int],
        forall|i: int, j: int| 0 <= i < j < r.len() ==> r[i] < r[j],
        r.len() == count_true(row@),
{
    let mut r: Vec<usize> = Vec::new();
    let mut i: usize = 0;
    assert(row@.take(0) =~= Seq::empty());
    while i < row.len()
        invariant
            i <= row.len(),
            forall|x: usize| #[trigger] r@.contains(x) <==> x < i && row[x as int],
            forall|a: int, b: int| 0 <= a < b < r.len() ==> r[a] < r[b],
            forall|a: int| 0 <= a < r.len() ==> r[a] < i,
            r.len() == count_true(row@.take(i as int)),
        decreases row.len() - i,
    {
        let ghost before = r@;
        proof {
            assert(row@.take(i + 1).drop_last() =~= row@.take(i as int));
        }
        if row[i] {
            r.push(i);
            proof {
                assert forall|x: usize| #[trigger] r@.contains(x) <==> x < i + 1 && row[x as int] by {
                    if r@.contains(x) {
                        let k = choose|k: int| 0 <= k < r.len() && r[k] == x;
                        if k < before.len() {
                            assert(before.contains(x));
                        }
                    }
                    if x < i + 1 && row[x as int] {
                        if x < i {
                            assert(before.contains(x));
                            let k = choose|k: int| 0 <= k < before.len() && before[k] == x;
                            assert(r[k] == x);
                        } else {
                            assert(r[r.len() - 1] == x);
                        }
                    }
                }
            }
        } else {
            proof {
                assert forall|x: usize| #[trigger] r@.contains(x) <==> x < i + 1 && row[x as int] by {}
            }
        }
        i += 1;
    }
    assert(row@.take(i as int) =~= row@);
    r
}

} // verus!
