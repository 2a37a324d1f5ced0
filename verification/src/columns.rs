//! Laying groups of helpers out in columns.
//!
//! A group is a run of helper lines; its size is the number of lines it
//! takes. Groups are placed in order, a whole group per column slot, with
//! one blank line between two groups in the same column.
use vstd::prelude::*;

verus! {

broadcast use Seq::lemma_flatten_push;

/// The sum of the first `n` sizes.
pub open spec fn sum_first(sizes: Seq<usize>, n: nat) -> int
    decreases n,
{
    if n == 0 || n > sizes.len() {
        0
    } else {
        sum_first(sizes, (n - 1) as nat) + sizes[n - 1]
    }
}

/// The height of the first `n` groups stacked in one column, one blank
/// line between each two of them.
pub open spec fn stacked(sizes: Seq<usize>, n: nat) -> int {
    if n == 0 {
        0
    } else {
        sum_first(sizes, n) + n - 1
    }
}

/// The height of all the groups stacked in one column.
pub open spec fn total_height(sizes: Seq<usize>) -> int {
    stacked(sizes, sizes.len())
}

/// The largest of the first `n` sizes, or `dflt` when `n` is zero.
pub open spec fn largest_first(sizes: Seq<usize>, n: nat, dflt: int) -> int
    decreases n,
{
    if n == 0 || n > sizes.len() {
        dflt
    } else if n == 1 {
        sizes[0] as int
    } else {
        let m = largest_first(sizes, (n - 1) as nat, dflt);
        if sizes[n - 1] > m {
            sizes[n - 1] as int
        } else {
            m
        }
    }
}

/// The column count that is asked for, at least one.
pub open spec fn at_least_one(ncols: usize) -> int {
    if ncols == 0 {
        1
    } else {
        ncols as int
    }
}

/// The first height tried: the largest group (1 when there are none).
/// No column can be lower than a group it holds.
pub open spec fn first_target(sizes: Seq<usize>) -> int {
    largest_first(sizes, sizes.len(), 1)
}

/// One group placed: into the last column when it fits under `target`
/// there (or that column is still empty), else into a new column.
/// The pair is the columns so far and the height of the last one.
pub open spec fn place(
    cols: Seq<Seq<usize>>,
    h: int,
    g: usize,
    s: int,
    target: int,
) -> (Seq<Seq<usize>>, int) {
    let last = cols.last();
    let need = if last.len() == 0 {
        s
    } else {
        h + 1 + s
    };
    if need > target && last.len() > 0 {
        (cols.push(seq![g]), s)
    } else {
        (cols.update(cols.len() - 1, last.push(g)), need)
    }
}

/// The first `n` groups placed in order under a column height of `target`,
/// starting from one empty column.
pub open spec fn packing(sizes: Seq<usize>, target: int, n: nat) -> (Seq<Seq<usize>>, int)
    decreases n,
{
    if n == 0 {
        (seq![Seq::empty()], 0)
    } else {
        let p = packing(sizes, target, (n - 1) as nat);
        place(p.0, p.1, (n - 1) as usize, sizes[n - 1] as int, target)
    }
}

/// All groups placed under a column height of `target`.
pub open spec fn columns_for(sizes: Seq<usize>, target: int) -> Seq<Seq<usize>> {
    packing(sizes, target, sizes.len()).0
}

/// Whether the groups fit in `ncols` columns (at least one) under `target`.
pub open spec fn fits(sizes: Seq<usize>, target: int, ncols: usize) -> bool {
    columns_for(sizes, target).len() <= at_least_one(ncols)
}

/// The columns as sequences of group numbers.
pub open spec fn rows_of(v: Seq<Vec<usize>>) -> Seq<Seq<usize>> {
    Seq::new(v.len(), |i: int| v[i]@)
}

/// The group numbers 0, 1, ..., n - 1.
pub open spec fn group_numbers(n: nat) -> Seq<usize> {
    Seq::new(n, |i: int| i as usize)
}

/// The height of one column: its groups and the blank lines between them.
pub open spec fn column_height(sizes: Seq<usize>, col: Seq<usize>) -> int
    decreases col.len(),
{
    if col.len() == 0 {
        0
    } else if col.len() == 1 {
        sizes[col[0] as int] as int
    } else {
        column_height(sizes, col.drop_last()) + 1 + sizes[col.last() as int]
    }
}

pub proof fn lemma_sum_nonneg(sizes: Seq<usize>, n: nat)
    ensures
        0 <= sum_first(sizes, n),
    decreases n,
{
    if n > 0 {
        lemma_sum_nonneg(sizes, (n - 1) as nat);
    }
}

pub proof fn lemma_sum_grows(sizes: Seq<usize>, a: nat, b: nat)
    requires
        a <= b <= sizes.len(),
    ensures
        sum_first(sizes, a) <= sum_first(sizes, b),
        0 <= sum_first(sizes, a),
    decreases b,
{
    lemma_sum_nonneg(sizes, a);
    if a < b {
        lemma_sum_grows(sizes, a, (b - 1) as nat);
    }
}

proof fn lemma_largest_bounds(sizes: Seq<usize>, n: nat, dflt: int)
    requires
        n <= sizes.len(),
    ensures
        forall|i: int| 0 <= i < n ==> sizes[i] <= largest_first(sizes, n, dflt),
        n > 0 ==> exists|i: int| 0 <= i < n && sizes[i] == largest_first(sizes, n, dflt),
    decreases n,
{
    if n == 1 {
        assert(sizes[0] == largest_first(sizes, n, dflt));
    } else if n > 1 {
        lemma_largest_bounds(sizes, (n - 1) as nat, dflt);
        let m = largest_first(sizes, (n - 1) as nat, dflt);
        let w = choose|i: int| 0 <= i < n - 1 && sizes[i] == m;
        if sizes[n - 1] > m {
            assert(sizes[n - 1] == largest_first(sizes, n, dflt));
        } else {
            assert(sizes[w] == largest_first(sizes, n, dflt));
        }
    }
}

/// The shape of a packing: at least one column, the last one empty only
/// before any group is placed, its height known and bounded, and the
/// columns read in order give back every group number once.
proof fn lemma_packing_shape(sizes: Seq<usize>, target: int, n: nat)
    requires
        n <= sizes.len() <= usize::MAX,
    ensures
        packing(sizes, target, n).0.len() >= 1,
        packing(sizes, target, n).0.len() <= n || n == 0,
        (packing(sizes, target, n).0.last().len() == 0) == (n == 0),
        packing(sizes, target, n).1 == column_height(sizes, packing(sizes, target, n).0.last()),
        0 <= packing(sizes, target, n).1 <= stacked(sizes, n),
        packing(sizes, target, n).0.flatten() == group_numbers(n),
        n == 0 ==> packing(sizes, target, n).0.len() == 1,
    decreases n,
{
    let p = packing(sizes, target, n);
    if n == 0 {
        assert(seq![Seq::<usize>::empty()].flatten() =~= Seq::<usize>::empty()) by {
            Seq::<Seq<usize>>::empty().lemma_flatten_push(Seq::<usize>::empty());
            assert(Seq::<Seq<usize>>::empty().push(Seq::<usize>::empty()) =~= seq![
                Seq::<usize>::empty(),
            ]);
        }
        assert(group_numbers(0) =~= Seq::<usize>::empty());
    } else {
        let q = packing(sizes, target, (n - 1) as nat);
        lemma_packing_shape(sizes, target, (n - 1) as nat);
        lemma_sum_grows(sizes, 0, (n - 1) as nat);
        let g = (n - 1) as usize;
        let last = q.0.last();
        assert(group_numbers(n) =~= group_numbers((n - 1) as nat).push(g));
        let need = if last.len() == 0 {
            sizes[n - 1] as int
        } else {
            q.1 + 1 + sizes[n - 1]
        };
        if need > target && last.len() > 0 {
            assert(p.0 == q.0.push(seq![g]));
            assert(seq![g].drop_last() =~= Seq::<usize>::empty());
            assert(seq![g].len() == 1 && seq![g][0] == g);
            assert(p.0.flatten() =~= q.0.flatten() + seq![g]);
        } else {
            let dl = q.0.drop_last();
            assert(q.0 =~= dl.push(last));
            assert(p.0 =~= dl.push(last.push(g)));
            assert(p.0.flatten() =~= dl.flatten() + last.push(g));
            assert(q.0.flatten() =~= dl.flatten() + last);
            assert(last.push(g).drop_last() =~= last);
            assert(last.push(g).last() == g);
            assert(p.0.last() == last.push(g));
            if last.len() == 0 {
                assert(q.0.len() == 1);
                assert(last.push(g) =~= seq![g]);
                assert(seq![g].len() == 1 && seq![g][0] == g);
            }
        }
    }
}

/// When the height allowed is at least the whole stack, every group
/// lands in the one column.
proof fn lemma_tall_enough(sizes: Seq<usize>, target: int, n: nat)
    requires
        n <= sizes.len() <= usize::MAX,
        target >= total_height(sizes),
    ensures
        packing(sizes, target, n).0.len() == 1,
        packing(sizes, target, n).1 == stacked(sizes, n),
    decreases n,
{
    if n > 0 {
        lemma_tall_enough(sizes, target, (n - 1) as nat);
        lemma_packing_shape(sizes, target, (n - 1) as nat);
        lemma_sum_grows(sizes, n, sizes.len());
        lemma_sum_grows(sizes, 0, (n - 1) as nat);
    }
}

/// Under a height that no single group exceeds, every column stays within
/// that height, and once a group is placed no column is left empty.
pub proof fn lemma_columns_stay_under(sizes: Seq<usize>, target: int, n: nat)
    requires
        n <= sizes.len() <= usize::MAX,
        forall|i: int| 0 <= i < sizes.len() ==> sizes[i] <= target,
        target >= 0,
    ensures
        forall|c: int|
            0 <= c < packing(sizes, target, n).0.len() ==> column_height(
                sizes,
                #[trigger] packing(sizes, target, n).0[c],
            ) <= target,
        n > 0 ==> forall|c: int|
            0 <= c < packing(sizes, target, n).0.len() ==> (#[trigger] packing(
                sizes,
                target,
                n,
            ).0[c]).len() > 0,
    decreases n,
{
    if n > 0 {
        let m = (n - 1) as nat;
        lemma_columns_stay_under(sizes, target, m);
        lemma_packing_shape(sizes, target, m);
        let q = packing(sizes, target, m);
        let p = packing(sizes, target, n);
        let g = m as usize;
        let last = q.0.last();
        let need = if last.len() == 0 {
            sizes[m as int] as int
        } else {
            q.1 + 1 + sizes[m as int]
        };
        if need > target && last.len() > 0 {
            assert(seq![g].len() == 1 && seq![g][0] == g);
            assert forall|c: int| 0 <= c < p.0.len() implies column_height(sizes, #[trigger] p.0[c])
                <= target && p.0[c].len() > 0 by {
                if c < q.0.len() {
                    assert(p.0[c] == q.0[c]);
                } else {
                    assert(p.0[c] == seq![g]);
                }
            }
        } else {
            let col = last.push(g);
            assert(col.drop_last() =~= last);
            assert(col.last() == g);
            if last.len() == 0 {
                assert(col =~= seq![g]);
                assert(seq![g].len() == 1 && seq![g][0] == g);
            }
            assert forall|c: int| 0 <= c < p.0.len() implies column_height(sizes, #[trigger] p.0[c])
                <= target && p.0[c].len() > 0 by {
                if c < q.0.len() - 1 {
                    assert(p.0[c] == q.0[c]);
                } else {
                    assert(p.0[c] == col);
                }
            }
        }
    }
}

/// Read in order, the columns give back every group number once: no
/// group is split, none is lost, and their order is kept.
pub proof fn law_columns_keep_order(sizes: Seq<usize>, target: int)
    requires
        sizes.len() <= usize::MAX,
    ensures
        columns_for(sizes, target).flatten() == group_numbers(sizes.len()),
        columns_for(sizes, target).len() >= 1,
{
    lemma_packing_shape(sizes, target, sizes.len());
}

/// What `balance` gives: the packing under the least height, from
/// `first_target` up, at which the groups fit in the columns; every column
/// within that height and, when there are groups, none empty; and the
/// group numbers in order when the columns are read one after another.
pub open spec fn balanced(sizes: Seq<usize>, ncols: usize, cols: Seq<Seq<usize>>) -> bool {
    &&& exists|t: int|
        {
            &&& first_target(sizes) <= t
            &&& fits(sizes, t, ncols)
            &&& forall|u: int| first_target(sizes) <= u < t ==> !fits(sizes, u, ncols)
            &&& cols == columns_for(sizes, t)
            &&& forall|c: int| 0 <= c < cols.len() ==> column_height(sizes, #[trigger] cols[c]) <= t
            &&& sizes.len() > 0 ==> forall|c: int| 0 <= c < cols.len() ==> (#[trigger] cols[c]).len() > 0
        }
    &&& 1 <= cols.len() <= at_least_one(ncols)
    &&& cols.flatten() == group_numbers(sizes.len())
}

/// How many groups the columns before column `c` hold.
pub open spec fn groups_before(cols: Seq<Seq<usize>>, c: int) -> int
    decreases c,
{
    if c <= 0 || c > cols.len() {
        0
    } else {
        groups_before(cols, c - 1) + cols[c - 1].len()
    }
}

/// Reading the columns in order, the `k`-th group of column `c` comes
/// after the groups of the columns before it.
pub proof fn lemma_flat_index(cols: Seq<Seq<usize>>, c: int, k: int)
    requires
        0 <= c < cols.len(),
        0 <= k < cols[c].len(),
    ensures
        0 <= groups_before(cols, c) + k < cols.flatten().len(),
        cols.flatten()[groups_before(cols, c) + k] == cols[c][k],
    decreases cols.len(),
{
    cols.lemma_flatten_and_flatten_alt_are_equivalent();
    let d = cols.drop_last();
    d.lemma_flatten_and_flatten_alt_are_equivalent();
    assert(cols.flatten_alt() == d.flatten_alt() + cols.last());
    lemma_groups_before_len(d, d.len() as int);
    if c < cols.len() - 1 {
        lemma_flat_index(d, c, k);
        assert(groups_before(d, c) == groups_before(cols, c)) by {
            lemma_groups_before_prefix(cols, c);
        }
    } else {
        assert(groups_before(d, c) == groups_before(cols, c)) by {
            lemma_groups_before_prefix(cols, c);
        }
    }
}

proof fn lemma_groups_before_prefix(cols: Seq<Seq<usize>>, c: int)
    requires
        0 <= c < cols.len(),
    ensures
        groups_before(cols.drop_last(), c) == groups_before(cols, c),
    decreases c,
{
    if c > 0 {
        lemma_groups_before_prefix(cols, c - 1);
    }
}

/// The groups before the end are all the groups.
pub proof fn lemma_groups_before_len(cols: Seq<Seq<usize>>, c: int)
    requires
        c == cols.len(),
    ensures
        groups_before(cols, c) == cols.flatten().len(),
    decreases c,
{
    cols.lemma_flatten_and_flatten_alt_are_equivalent();
    if c > 0 {
        let d = cols.drop_last();
        lemma_groups_before_len(d, c - 1);
        d.lemma_flatten_and_flatten_alt_are_equivalent();
        lemma_groups_before_prefix(cols, c - 1);
    }
}

/// The height of the tallest column, 0 for none.
pub open spec fn tallest(sizes: Seq<usize>, cols: Seq<Seq<usize>>) -> int
    decreases cols.len(),
{
    if cols.len() == 0 {
        0
    } else {
        let m = tallest(sizes, cols.drop_last());
        let h = column_height(sizes, cols.last());
        if h > m {
            h
        } else {
            m
        }
    }
}

/// The height of groups `a` up to `b - 1` stacked in one column.
pub open spec fn run_height(sizes: Seq<usize>, a: int, b: int) -> int {
    if b <= a {
        0
    } else {
        sum_first(sizes, b as nat) - sum_first(sizes, a as nat) + (b - a) - 1
    }
}

/// Whether `cols` splits the groups, in order, into at most `ncols`
/// columns (at least one), none of them empty.
pub open spec fn arrangement(sizes: Seq<usize>, ncols: usize, cols: Seq<Seq<usize>>) -> bool {
    &&& 1 <= cols.len() <= at_least_one(ncols)
    &&& cols.flatten() == group_numbers(sizes.len())
    &&& forall|c: int| 0 <= c < cols.len() ==> (#[trigger] cols[c]).len() > 0
}

proof fn lemma_tallest_at_least(sizes: Seq<usize>, cols: Seq<Seq<usize>>, c: int)
    requires
        0 <= c < cols.len(),
    ensures
        column_height(sizes, cols[c]) <= tallest(sizes, cols),
    decreases cols.len(),
{
    if c < cols.len() - 1 {
        lemma_tallest_at_least(sizes, cols.drop_last(), c);
        assert(cols.drop_last()[c] == cols[c]);
    }
}

proof fn lemma_tallest_at_most(sizes: Seq<usize>, cols: Seq<Seq<usize>>, t: int)
    requires
        t >= 0,
        forall|c: int| 0 <= c < cols.len() ==> column_height(sizes, #[trigger] cols[c]) <= t,
    ensures
        tallest(sizes, cols) <= t,
    decreases cols.len(),
{
    if cols.len() > 0 {
        let d = cols.drop_last();
        assert forall|c: int| 0 <= c < d.len() implies column_height(sizes, #[trigger] d[c]) <= t by {
            assert(d[c] == cols[c]);
        }
        lemma_tallest_at_most(sizes, d, t);
        assert(cols.last() == cols[cols.len() - 1]);
    }
}

/// A column of consecutive groups is as tall as their run.
proof fn lemma_run_column(sizes: Seq<usize>, col: Seq<usize>, a: int)
    requires
        0 <= a,
        a + col.len() <= sizes.len(),
        forall|k: int| 0 <= k < col.len() ==> col[k] == a + k,
    ensures
        column_height(sizes, col) == run_height(sizes, a, a + col.len()),
    decreases col.len(),
{
    let n = col.len() as int;
    if n == 1 {
        assert(col[0] == a);
    } else if n > 1 {
        let d = col.drop_last();
        assert forall|k: int| 0 <= k < d.len() implies d[k] == a + k by {
            assert(d[k] == col[k]);
        }
        lemma_run_column(sizes, d, a);
        assert(col.last() == col[n - 1]);
    }
}

proof fn lemma_run_grows(sizes: Seq<usize>, a: int, b: int, b2: int)
    requires
        0 <= a <= b <= b2 <= sizes.len(),
    ensures
        run_height(sizes, a, b) <= run_height(sizes, a, b2),
        run_height(sizes, a, b) >= 0,
{
    lemma_sum_grows(sizes, a as nat, b as nat);
    lemma_sum_grows(sizes, b as nat, b2 as nat);
}

proof fn lemma_groups_before_nonneg(cols: Seq<Seq<usize>>, c: int)
    ensures
        0 <= groups_before(cols, c),
    decreases c,
{
    if c > 0 {
        lemma_groups_before_nonneg(cols, c - 1);
    }
}

/// The groups before column `c` grow with `c`, by the length of each
/// column.
proof fn lemma_groups_before_grows(cols: Seq<Seq<usize>>, c: int, d: int)
    requires
        0 <= c <= d <= cols.len(),
    ensures
        0 <= groups_before(cols, c) <= groups_before(cols, d),
        c < d && (forall|e: int| 0 <= e < cols.len() ==> (#[trigger] cols[e]).len() > 0)
            ==> groups_before(cols, c) < groups_before(cols, d),
    decreases d - c,
{
    lemma_groups_before_nonneg(cols, c);
    if c < d {
        lemma_groups_before_grows(cols, c, d - 1);
    }
}

/// In an arrangement, column `c` holds the groups from the number of
/// groups before it on, one after another, and is as tall as their run.
proof fn lemma_arranged_column(sizes: Seq<usize>, other: Seq<Seq<usize>>, c: int)
    requires
        sizes.len() <= usize::MAX,
        other.flatten() == group_numbers(sizes.len()),
        0 <= c < other.len(),
    ensures
        0 <= groups_before(other, c),
        groups_before(other, c + 1) == groups_before(other, c) + other[c].len(),
        groups_before(other, c + 1) <= sizes.len(),
        forall|k: int| 0 <= k < other[c].len() ==> other[c][k] == groups_before(other, c) + k,
        column_height(sizes, other[c]) == run_height(
            sizes,
            groups_before(other, c),
            groups_before(other, c + 1),
        ),
{
    let b = groups_before(other, c);
    lemma_groups_before_len(other, other.len() as int);
    lemma_groups_before_grows(other, c + 1, other.len() as int);
    lemma_groups_before_grows(other, c, c + 1);
    assert forall|k: int| 0 <= k < other[c].len() implies other[c][k] == b + k by {
        lemma_flat_index(other, c, k);
    }
    lemma_run_column(sizes, other[c], b);
}

/// Greedy placing keeps up with any arrangement whose columns all fit
/// under the height `t`: after `j` groups it uses no more columns than the
/// arrangement has started, and when as many, its last column is no taller
/// than the arrangement's column so far.
proof fn lemma_greedy_keeps_up(sizes: Seq<usize>, t: int, other: Seq<Seq<usize>>, j: int, c: int)
    requires
        sizes.len() <= usize::MAX,
        other.flatten() == group_numbers(sizes.len()),
        forall|e: int| 0 <= e < other.len() ==> (#[trigger] other[e]).len() > 0,
        forall|e: int| 0 <= e < other.len() ==> column_height(sizes, #[trigger] other[e]) <= t,
        1 <= j <= sizes.len(),
        0 <= c < other.len(),
        groups_before(other, c) <= j - 1 < groups_before(other, c + 1),
    ensures
        packing(sizes, t, j as nat).0.len() < c + 1 || (packing(sizes, t, j as nat).0.len() == c + 1
            && packing(sizes, t, j as nat).1 <= run_height(sizes, groups_before(other, c), j)),
    decreases j,
{
    lemma_arranged_column(sizes, other, c);
    let s = sizes[j - 1] as int;
    let p = packing(sizes, t, j as nat);
    if j == 1 {
        if c > 0 {
            lemma_groups_before_grows(other, 0, c);
        }
        assert(packing(sizes, t, 0).0 == seq![Seq::<usize>::empty()]);
    } else {
        let q = packing(sizes, t, (j - 1) as nat);
        lemma_packing_shape(sizes, t, (j - 1) as nat);
        lemma_sum_grows(sizes, 0, (j - 1) as nat);
        let gc = groups_before(other, c);
        let need = q.1 + 1 + s;
        assert(p == place(q.0, q.1, (j - 1) as usize, s, t));
        if gc <= j - 2 {
            lemma_greedy_keeps_up(sizes, t, other, j - 1, c);
            lemma_run_grows(sizes, gc, j, groups_before(other, c + 1));
            lemma_run_grows(sizes, gc, j - 1, j);
            assert(run_height(sizes, gc, j) == run_height(sizes, gc, j - 1) + 1 + s);
        } else {
            assert(gc == j - 1);
            assert(c > 0) by {
                if c == 0 {
                    assert(groups_before(other, 0) == 0);
                }
            }
            lemma_groups_before_grows(other, c - 1, c);
            lemma_greedy_keeps_up(sizes, t, other, j - 1, c - 1);
            assert(run_height(sizes, gc, j) == s);
        }
    }
}

/// Under a height that some arrangement's columns all fit under, placing
/// the groups greedily needs no more columns than that arrangement.
proof fn lemma_greedy_fits(sizes: Seq<usize>, t: int, other: Seq<Seq<usize>>)
    requires
        sizes.len() <= usize::MAX,
        sizes.len() > 0,
        other.len() >= 1,
        other.flatten() == group_numbers(sizes.len()),
        forall|e: int| 0 <= e < other.len() ==> (#[trigger] other[e]).len() > 0,
        forall|e: int| 0 <= e < other.len() ==> column_height(sizes, #[trigger] other[e]) <= t,
    ensures
        packing(sizes, t, sizes.len()).0.len() <= other.len(),
{
    let last = other.len() - 1;
    lemma_arranged_column(sizes, other, last);
    lemma_groups_before_len(other, other.len() as int);
    lemma_greedy_keeps_up(sizes, t, other, sizes.len() as int, last);
}

/// In an arrangement, group `i` stands in some column.
pub proof fn lemma_column_of(other: Seq<Seq<usize>>, i: int, d: int)
    requires
        0 <= d <= other.len(),
        0 <= i < groups_before(other, d),
    ensures
        exists|c: int|
            0 <= c < d && groups_before(other, c) <= i < #[trigger] groups_before(other, c + 1),
    decreases d,
{
    if i < groups_before(other, d - 1) {
        lemma_column_of(other, i, d - 1);
        let c = choose|c: int|
            0 <= c < d - 1 && groups_before(other, c) <= i < #[trigger] groups_before(other, c + 1);
        assert(groups_before(other, c) <= i < groups_before(other, c + 1));
    } else {
        assert(groups_before(other, d - 1) <= i < groups_before(other, (d - 1) + 1));
    }
}

/// No column of an arrangement is lower than the largest group.
proof fn lemma_tallest_holds_largest(sizes: Seq<usize>, other: Seq<Seq<usize>>)
    requires
        sizes.len() <= usize::MAX,
        sizes.len() > 0,
        other.len() >= 1,
        other.flatten() == group_numbers(sizes.len()),
    ensures
        first_target(sizes) <= tallest(sizes, other),
{
    lemma_largest_bounds(sizes, sizes.len(), 1);
    let i = choose|i: int| 0 <= i < sizes.len() && sizes[i] == largest_first(sizes, sizes.len(), 1);
    lemma_groups_before_len(other, other.len() as int);
    lemma_column_of(other, i, other.len() as int);
    let c = choose|c: int|
        0 <= c < other.len() && groups_before(other, c) <= i < #[trigger] groups_before(other, c + 1);
    lemma_arranged_column(sizes, other, c);
    let a = groups_before(other, c);
    let b = groups_before(other, c + 1);
    lemma_sum_grows(sizes, a as nat, i as nat);
    lemma_sum_grows(sizes, (i + 1) as nat, b as nat);
    lemma_tallest_at_least(sizes, other, c);
}

/// The columns are as even in height as whole groups allow: however else
/// the groups are split in order into at most `ncols` columns, none empty,
/// its tallest column is at least as tall as the tallest of these.
pub proof fn law_columns_as_even_as_groups_allow(
    sizes: Seq<usize>,
    ncols: usize,
    cols: Seq<Seq<usize>>,
    other: Seq<Seq<usize>>,
)
    requires
        sizes.len() <= usize::MAX,
        balanced(sizes, ncols, cols),
        arrangement(sizes, ncols, other),
    ensures
        tallest(sizes, cols) <= tallest(sizes, other),
{
    let ft = first_target(sizes);
    let t = choose|t: int|
        {
            &&& ft <= t
            &&& fits(sizes, t, ncols)
            &&& forall|u: int| ft <= u < t ==> !fits(sizes, u, ncols)
            &&& cols == columns_for(sizes, t)
            &&& forall|c: int| 0 <= c < cols.len() ==> column_height(sizes, #[trigger] cols[c]) <= t
            &&& sizes.len() > 0 ==> forall|c: int| 0 <= c < cols.len() ==> (#[trigger] cols[c]).len() > 0
        };
    lemma_largest_bounds(sizes, sizes.len(), 1);
    lemma_tallest_at_most(sizes, cols, t);
    let m = tallest(sizes, other);
    assert(sizes.len() > 0) by {
        lemma_groups_before_len(other, other.len() as int);
        lemma_groups_before_grows(other, 0, other.len() as int);
        lemma_groups_before_grows(other, 0, 1);
    }
    lemma_tallest_holds_largest(sizes, other);
    if t > m {
        assert forall|e: int| 0 <= e < other.len() implies column_height(sizes, #[trigger] other[e])
            <= m by {
            lemma_tallest_at_least(sizes, other, e);
        }
        lemma_greedy_fits(sizes, m, other);
        assert(fits(sizes, m, ncols));
    }
}

/// With one column asked for (or none), every group goes in that one
/// column, in order.
pub proof fn law_one_column_holds_every_group(sizes: Seq<usize>, ncols: usize, cols: Seq<Seq<usize>>)
    requires
        ncols <= 1,
        balanced(sizes, ncols, cols),
    ensures
        cols == seq![group_numbers(sizes.len())],
{
    assert(cols.len() == 1);
    assert(cols =~= Seq::<Seq<usize>>::empty().push(cols[0]));
    Seq::<Seq<usize>>::empty().lemma_flatten_push(cols[0]);
    assert(Seq::<Seq<usize>>::empty().flatten() =~= Seq::<usize>::empty());
    assert(cols[0] =~= group_numbers(sizes.len()));
}

/// Groups of these sizes into at most `ncols` columns, in order, as even
/// in height as whole groups allow. One blank line sits between groups.
///
/// The heights tried start at the largest group and grow by one until the
/// groups fit; placing groups greedily fits under a height exactly when
/// some split does, so the least such height is the lowest possible.
pub fn balance(sizes: &[usize], ncols: usize) -> (cols: Vec<Vec<usize>>)
    requires
        total_height(sizes@) <= usize::MAX,
    ensures
        balanced(sizes@, ncols, rows_of(cols@)),
{
    let n = sizes.len();
    let ghost ss = sizes@;
    let mut sum: usize = 0;
    let mut big: usize = 1;
    let mut i: usize = 0;
    proof {
        lemma_sum_grows(ss, 0, n as nat);
    }
    while i < n
        invariant
            ss == sizes@,
            n == ss.len(),
            i <= n,
            sum == sum_first(ss, i as nat),
            sum_first(ss, n as nat) <= usize::MAX,
            big == largest_first(ss, i as nat, 1),
        decreases n - i,
    {
        proof {
            lemma_sum_grows(ss, (i + 1) as nat, n as nat);
        }
        let s = sizes[i];
        if i == 0 || s > big {
            big = s;
        }
        sum = sum + s;
        i = i + 1;
    }
    let total: usize = if n == 0 {
        0
    } else {
        sum + (n - 1)
    };
    assert(total == total_height(ss));
    let per: usize = if ncols == 0 {
        1
    } else {
        ncols
    };
    proof {
        lemma_largest_bounds(ss, n as nat, 1);
    }
    let mut target: usize = big;
    let ghost start = target as int;
    assert(start == first_target(ss));
    let ghost bound: int = if start > total {
        start
    } else {
        total as int
    };
    loop
        invariant
            ss == sizes@,
            n == ss.len(),
            total == total_height(ss),
            total <= usize::MAX,
            per == at_least_one(ncols),
            start == first_target(ss),
            bound == if start > total {
                start
            } else {
                total as int
            },
            start <= target <= bound,
            forall|i: int| 0 <= i < n ==> ss[i] <= start,
            forall|u: int| start <= u < target ==> !fits(ss, u, ncols),
        decreases bound - target,
    {
        let mut cols: Vec<Vec<usize>> = Vec::new();
        let mut cur: Vec<usize> = Vec::new();
        let mut h: usize = 0;
        let mut g: usize = 0;
        while g < n
            invariant
                ss == sizes@,
                n == ss.len(),
                total == total_height(ss),
                total <= usize::MAX,
                g <= n,
                rows_of(cols@).push(cur@) == packing(ss, target as int, g as nat).0,
                h == packing(ss, target as int, g as nat).1,
                (cur@.len() == 0) == (g == 0),
                h <= stacked(ss, g as nat),
            decreases n - g,
        {
            proof {
                lemma_packing_shape(ss, target as int, g as nat);
                lemma_sum_grows(ss, (g + 1) as nat, n as nat);
                lemma_sum_grows(ss, 0, g as nat);
            }
            let ghost before = packing(ss, target as int, g as nat).0;
            let s = sizes[g];
            let need: usize = if cur.len() == 0 {
                s
            } else {
                h + 1 + s
            };
            if need > target && cur.len() > 0 {
                let ghost old_cols = rows_of(cols@);
                let ghost old_cur = cur@;
                cols.push(cur);
                cur = Vec::new();
                cur.push(g);
                h = s;
                proof {
                    assert(rows_of(cols@) =~= old_cols.push(old_cur));
                    assert(before.last() == old_cur);
                    assert(old_cols.push(old_cur) =~= before);
                    assert(cur@ =~= seq![g]);
                }
            } else {
                let ghost old_cols = rows_of(cols@);
                let ghost old_cur = cur@;
                cur.push(g);
                h = need;
                proof {
                    assert(before.last() == old_cur);
                    assert(old_cols.push(cur@) =~= before.update(before.len() - 1, old_cur.push(g)));
                }
            }
            g = g + 1;
            proof {
                lemma_packing_shape(ss, target as int, g as nat);
            }
        }
        let ghost done = rows_of(cols@).push(cur@);
        cols.push(cur);
        assert(rows_of(cols@) =~= done);
        proof {
            lemma_packing_shape(ss, target as int, n as nat);
        }
        if cols.len() <= per {
            assert(fits(ss, target as int, ncols));
            proof {
                lemma_columns_stay_under(ss, target as int, n as nat);
                let t = target as int;
                assert(forall|c: int| 0 <= c < cols.len() ==> column_height(ss, #[trigger] rows_of(cols@)[c]) <= t);
            }
            assert(rows_of(cols@) == columns_for(ss, target as int));
            return cols;
        }
        proof {
            if target >= total {
                lemma_tall_enough(ss, target as int, n as nat);
            }
        }
        target = target + 1;
    }
}

} // verus!
