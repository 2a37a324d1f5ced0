//! Where everything goes in the window: the helpers in columns at the top,
//! a group never split across two columns; below them a line and the
//! search field; under it the programs found, down each column, then across.
//!
//! The layout is computed from the terminal's size and from the display
//! width of each name, which the terminal library measures.
use vstd::prelude::*;
use crate::columns;
use crate::columns::tallest;
use crate::helpers;
use crate::launcher::{self, Item, Launch, Spot};
use crate::text;

verus! {

/// The widest a program name gets drawn.
pub const PROG_W: usize = 28;

/// A helper drawn on screen, and where.
#[derive(Clone, Copy, PartialEq, Eq, Structural, Debug)]
pub struct Row {
    pub helper: usize,
    pub x: usize,
    pub y: usize,
}

/// What stands under the search field.
#[derive(Clone, Copy, PartialEq, Eq, Structural, Debug)]
pub enum Note {
    /// Nothing typed yet: a hint to type.
    Hint,
    /// Something typed, and no program holds it.
    NoMatch,
    /// The programs found, as many as there is room for.
    Cells,
}

/// One laid-out screen.
pub struct Frame {
    /// The widest helper name.
    pub name_w: usize,
    /// The width of a helper's cell: its name, and its key beside it.
    pub cell: usize,
    /// The distance from one helper column to the next.
    pub col_w: usize,
    /// How many helpers each group has.
    pub sizes: Vec<usize>,
    /// The groups in each helper column.
    pub columns: Vec<Vec<usize>>,
    /// The helpers that fit above the bottom bar.
    pub rows: Vec<Row>,
    /// The line of the search field.
    pub field_y: usize,
    /// The first line under the search field.
    pub top: usize,
    /// The width a program name is drawn in.
    pub prog_w: usize,
    pub note: Note,
}

/// The largest of some widths, 0 for none.
pub open spec fn widest(ws: Seq<usize>) -> int
    decreases ws.len(),
{
    if ws.len() == 0 {
        0
    } else {
        let m = widest(ws.drop_last());
        if ws.last() > m {
            ws.last() as int
        } else {
            m
        }
    }
}

/// A helper's cell: the widest name, then two spaces and the widest key
/// when any helper has a key.
pub open spec fn cell_width(name_w: int, hot_w: int) -> int {
    name_w + if hot_w > 0 {
        2 + hot_w
    } else {
        0
    }
}

/// How many columns of width `col_w` fit across `w` cells, less the
/// margin, and at least one.
pub open spec fn columns_across(w: int, col_w: int) -> int {
    let room = if w >= 2 {
        w - 2
    } else {
        0
    };
    if room / col_w >= 1 {
        room / col_w
    } else {
        1
    }
}

/// The last line that holds helpers or programs: the one above the bar.
pub open spec fn bottom_line(rows: int) -> int {
    if rows >= 1 {
        rows - 1
    } else {
        0
    }
}

/// Whether `sizes` counts the helpers of each group: as many groups as
/// the last helper's group says, and group `g` made of the helpers from
/// `sum_first(sizes, g)` up to `sum_first(sizes, g + 1)`.
#[verifier::opaque]
pub open spec fn sizes_fit(hs: Seq<helpers::HelperText>, sizes: Seq<usize>) -> bool {
    &&& sizes.len() == if hs.len() == 0 {
        0
    } else {
        hs.last().3 + 1
    }
    &&& columns::sum_first(sizes, sizes.len()) == hs.len()
    &&& forall|i: int|
        0 <= i < hs.len() ==> columns::sum_first(sizes, (#[trigger] hs[i]).3) <= i
            < columns::sum_first(sizes, hs[i].3 + 1)
}

/// Where group `g` stands: its column, and its place in that column.
pub open spec fn slot_of(cols: Seq<Seq<usize>>, g: int) -> (int, int) {
    choose|c: int, k: int| 0 <= c < cols.len() && 0 <= k < cols[c].len() && cols[c][k] == g
}

/// How far down its column the `k`-th group starts: below the groups
/// above it and one blank line.
pub open spec fn group_top(sizes: Seq<usize>, col: Seq<usize>, k: int) -> int {
    if k == 0 {
        0
    } else {
        columns::column_height(sizes, col.take(k)) + 1
    }
}

/// The column of helpers a helper of group `g` stands in, as a cell.
pub open spec fn helper_x(cols: Seq<Seq<usize>>, col_w: int, g: int) -> int {
    3 + slot_of(cols, g).0 * col_w
}

/// The line of helper `i` of group `g`: its group's place in its column,
/// then its place in its group.
pub open spec fn helper_y(sizes: Seq<usize>, cols: Seq<Seq<usize>>, g: int, i: int) -> int {
    let s = slot_of(cols, g);
    3 + group_top(sizes, cols[s.0], s.1) + (i - columns::sum_first(sizes, g as nat))
}

/// The first `n` helpers that are drawn, in order, each as its number
/// and place: those whose line lies above the bottom line.
#[verifier::opaque]
pub open spec fn drawn(
    hs: Seq<helpers::HelperText>,
    sizes: Seq<usize>,
    cols: Seq<Seq<usize>>,
    col_w: int,
    bottom: int,
    n: nat,
) -> Seq<(int, int, int)>
    decreases n,
{
    if n == 0 {
        Seq::empty()
    } else {
        let before = drawn(hs, sizes, cols, col_w, bottom, (n - 1) as nat);
        let j = n - 1;
        let g = hs[j].3 as int;
        let y = helper_y(sizes, cols, g, j);
        if y < bottom {
            before.push((j, helper_x(cols, col_w, g), y))
        } else {
            before
        }
    }
}

/// The rows as numbers and places.
pub open spec fn rows_view(rows: Seq<Row>) -> Seq<(int, int, int)> {
    Seq::new(rows.len(), |m: int| (rows[m].helper as int, rows[m].x as int, rows[m].y as int))
}

/// The spots of the lit helpers among the rows, in order.
#[verifier::opaque]
pub open spec fn lit_spots(rows: Seq<(int, int, int)>, lit: Seq<bool>) -> Seq<Spot>
    decreases rows.len(),
{
    if rows.len() == 0 {
        Seq::empty()
    } else {
        let before = lit_spots(rows.drop_last(), lit);
        let r = rows.last();
        if lit[r.0] {
            before.push(Spot { item: Item::Helper(r.0 as usize), x: r.1 as usize, y: r.2 as usize })
        } else {
            before
        }
    }
}

/// The widths of the programs found.
pub open spec fn hit_widths(hits: Seq<usize>, prog_w: Seq<usize>) -> Seq<usize> {
    Seq::new(hits.len(), |k: int| prog_w[hits[k] as int])
}

/// The spots of the programs: the first `m` hits, down columns of height
/// `h` that stand `col_w` apart, from line `top`.
pub open spec fn prog_spots(hits: Seq<usize>, m: int, h: int, col_w: int, top: int) -> Seq<Spot> {
    Seq::new(
        m as nat,
        |k: int|
            Spot {
                item: Item::Prog(hits[k]),
                x: (3 + (k / h) * col_w) as usize,
                y: (top + k % h) as usize,
            },
    )
}

proof fn lemma_widest(ws: Seq<usize>)
    ensures
        0 <= widest(ws),
        forall|i: int| 0 <= i < ws.len() ==> ws[i] <= widest(ws),
        ws.len() > 0 ==> exists|i: int| 0 <= i < ws.len() && ws[i] == widest(ws),
    decreases ws.len(),
{
    if ws.len() > 0 {
        lemma_widest(ws.drop_last());
        if ws.len() > 1 && widest(ws.drop_last()) >= ws.last() {
            let i = choose|i: int| 0 <= i < ws.len() - 1 && ws.drop_last()[i] == widest(ws.drop_last());
            assert(ws[i] == widest(ws));
        } else {
            assert(ws[ws.len() - 1] == widest(ws));
        }
        assert forall|i: int| 0 <= i < ws.len() implies ws[i] <= widest(ws) by {
            if i < ws.len() - 1 {
                assert(ws[i] == ws.drop_last()[i]);
            }
        }
    }
}

/// The widest of some widths.
fn widest_of(ws: &Vec<usize>) -> (r: usize)
    ensures
        r == widest(ws@),
{
    let mut m: usize = 0;
    let mut i: usize = 0;
    while i < ws.len()
        invariant
            i <= ws.len(),
            m == widest(ws@.take(i as int)),
        decreases ws.len() - i,
    {
        assert(ws@.take(i + 1).drop_last() =~= ws@.take(i as int));
        if ws[i] > m {
            m = ws[i];
        }
        i = i + 1;
    }
    assert(ws@.take(i as int) =~= ws@);
    m
}

proof fn lemma_sum_push(s: Seq<usize>, v: usize, m: nat)
    requires
        m <= s.len(),
    ensures
        columns::sum_first(s.push(v), m) == columns::sum_first(s, m),
        columns::sum_first(s.push(v), (s.len() + 1) as nat) == columns::sum_first(s, s.len()) + v,
    decreases m,
{
    if m > 0 {
        lemma_sum_push(s, v, (m - 1) as nat);
    }
    lemma_sum_push_all(s, v, s.len());
}

proof fn lemma_sum_push_all(s: Seq<usize>, v: usize, m: nat)
    requires
        m <= s.len(),
    ensures
        columns::sum_first(s.push(v), m) == columns::sum_first(s, m),
    decreases m,
{
    if m > 0 {
        lemma_sum_push_all(s, v, (m - 1) as nat);
    }
}

proof fn lemma_sum_bump(s: Seq<usize>, last: int, m: nat)
    requires
        0 <= last < s.len(),
        s[last] < usize::MAX,
        m <= s.len(),
    ensures
        m <= last ==> columns::sum_first(s.update(last, (s[last] + 1) as usize), m)
            == columns::sum_first(s, m),
        m > last ==> columns::sum_first(s.update(last, (s[last] + 1) as usize), m)
            == columns::sum_first(s, m) + 1,
    decreases m,
{
    if m > 0 {
        lemma_sum_bump(s, last, (m - 1) as nat);
    }
}

proof fn lemma_part_le_sum(s: Seq<usize>, g: int)
    requires
        0 <= g < s.len(),
    ensures
        s[g] <= columns::sum_first(s, s.len()),
{
    columns::lemma_sum_grows(s, (g + 1) as nat, s.len());
    columns::lemma_sum_grows(s, g as nat, g as nat);
}

/// The sizes read so far fit the first `i` helpers.
pub open spec fn sizes_so_far(ht: Seq<helpers::HelperText>, sizes: Seq<usize>, i: int) -> bool {
    &&& i == 0 ==> sizes.len() == 0
    &&& i > 0 ==> sizes.len() == ht[i - 1].3 + 1
    &&& columns::sum_first(sizes, sizes.len()) == i
    &&& forall|j: int| 0 <= j < i ==> (#[trigger] ht[j]).3 < sizes.len()
    &&& forall|j: int|
        0 <= j < i ==> columns::sum_first(sizes, (#[trigger] ht[j]).3) <= j < columns::sum_first(
            sizes,
            ht[j].3 + 1,
        )
}

proof fn lemma_sizes_new_group(ht: Seq<helpers::HelperText>, sizes: Seq<usize>, i: int)
    requires
        helpers::groups_in_order(ht),
        0 <= i < ht.len(),
        sizes_so_far(ht, sizes, i),
        i == 0 || ht[i].3 != ht[i - 1].3,
    ensures
        sizes_so_far(ht, sizes.push(1), i + 1),
{
    let t = sizes.push(1);
    lemma_sum_push(sizes, 1, sizes.len());
    if i > 0 {
        assert(ht[i].3 == ht[i - 1].3 + 1);
    } else {
        assert(ht[0].3 == 0);
    }
    assert forall|j: int| 0 <= j < i + 1 implies columns::sum_first(t, (#[trigger] ht[j]).3) <= j
        < columns::sum_first(t, ht[j].3 + 1) by {
        if j < i {
            lemma_sum_push(sizes, 1, ht[j].3);
            lemma_sum_push(sizes, 1, (ht[j].3 + 1) as nat);
        }
    }
}

proof fn lemma_sizes_same_group(ht: Seq<helpers::HelperText>, sizes: Seq<usize>, i: int)
    requires
        helpers::groups_in_order(ht),
        0 < i < ht.len(),
        sizes_so_far(ht, sizes, i),
        ht[i].3 == ht[i - 1].3,
        i < usize::MAX,
    ensures
        sizes[sizes.len() - 1] < usize::MAX,
        sizes_so_far(
            ht,
            sizes.update(sizes.len() - 1, (sizes[sizes.len() - 1] + 1) as usize),
            i + 1,
        ),
{
    let last = sizes.len() - 1;
    lemma_part_le_sum(sizes, last);
    let t = sizes.update(last, (sizes[last] + 1) as usize);
    lemma_sum_bump(sizes, last, sizes.len());
    columns::lemma_sum_grows(sizes, last as nat, sizes.len());
    lemma_sum_bump(sizes, last, last as nat);
    assert forall|j: int| 0 <= j < i + 1 implies columns::sum_first(t, (#[trigger] ht[j]).3) <= j
        < columns::sum_first(t, ht[j].3 + 1) by {
        lemma_sum_bump(sizes, last, ht[j].3);
        lemma_sum_bump(sizes, last, (ht[j].3 + 1) as nat);
    }
}

/// How many helpers each group has.
fn group_sizes(hs: &Vec<helpers::Helper>) -> (sizes: Vec<usize>)
    requires
        helpers::groups_in_order(helpers::helpers_text(hs@)),
    ensures
        sizes_fit(helpers::helpers_text(hs@), sizes@),
{
    let ghost ht = helpers::helpers_text(hs@);
    let mut sizes: Vec<usize> = Vec::new();
    let mut i: usize = 0;
    while i < hs.len()
        invariant
            ht == helpers::helpers_text(hs@),
            helpers::groups_in_order(ht),
            i <= hs.len(),
            sizes_so_far(ht, sizes@, i as int),
        decreases hs.len() - i,
    {
        assert(ht[i as int] == helpers::helper_text(hs@[i as int]));
        if i == 0 || hs[i].group != hs[i - 1].group {
            proof {
                if i > 0 {
                    assert(ht[i - 1] == helpers::helper_text(hs@[i - 1]));
                }
                lemma_sizes_new_group(ht, sizes@, i as int);
            }
            sizes.push(1);
        } else {
            proof {
                assert(ht[i - 1] == helpers::helper_text(hs@[i - 1]));
                lemma_sizes_same_group(ht, sizes@, i as int);
            }
            let last = sizes.len() - 1;
            let v = sizes[last] + 1;
            sizes.set(last, v);
        }
        i = i + 1;
    }
    proof {
        reveal(sizes_fit);
    }
    sizes
}

proof fn lemma_groups_before_grows(cols: Seq<Seq<usize>>, a: int, b: int)
    requires
        0 <= a < b <= cols.len(),
    ensures
        columns::groups_before(cols, a) + cols[a].len() <= columns::groups_before(cols, b),
    decreases b - a,
{
    if a + 1 < b {
        lemma_groups_before_grows(cols, a, b - 1);
    }
}

/// In columns that read as 0, 1, 2, ... the `k`-th group of column `c` is
/// number `groups_before(c) + k`, and that is the only place it stands.
proof fn lemma_slot(cols: Seq<Seq<usize>>, n: nat, c: int, k: int)
    requires
        cols.flatten() == columns::group_numbers(n),
        n <= usize::MAX,
        0 <= c < cols.len(),
        0 <= k < cols[c].len(),
    ensures
        cols[c][k] == columns::groups_before(cols, c) + k,
        slot_of(cols, cols[c][k] as int) == (c, k),
{
    columns::lemma_flat_index(cols, c, k);
    let g = cols[c][k] as int;
    assert(g == columns::groups_before(cols, c) + k);
    let s = slot_of(cols, g);
    assert(exists|c2: int, k2: int|
        0 <= c2 < cols.len() && 0 <= k2 < cols[c2].len() && cols[c2][k2] == g) by {
        assert(cols[c][k] == g);
    }
    let (c2, k2) = s;
    columns::lemma_flat_index(cols, c2, k2);
    if c2 < c {
        lemma_groups_before_grows(cols, c2, c);
    } else if c2 > c {
        lemma_groups_before_grows(cols, c, c2);
    }
}

/// The group sizes add up to the number of helpers, and there are no
/// more groups than helpers.
proof fn lemma_sizes_total(hs: Seq<helpers::HelperText>, sizes: Seq<usize>)
    requires
        sizes_fit(hs, sizes),
        helpers::groups_in_order(hs),
    ensures
        columns::sum_first(sizes, sizes.len()) == hs.len(),
        sizes.len() <= hs.len(),
{
    reveal(sizes_fit);
    if hs.len() > 0 {
        lemma_group_le_index(hs, hs.len() - 1);
    }
}

proof fn lemma_group_le_index(hs: Seq<helpers::HelperText>, i: int)
    requires
        helpers::groups_in_order(hs),
        0 <= i < hs.len(),
    ensures
        hs[i].3 <= i,
    decreases i,
{
    if i > 0 {
        lemma_group_le_index(hs, i - 1);
        assert(hs[i - 1].3 <= hs[i].3 <= hs[i - 1].3 + 1);
    }
}

/// The helper at `i`, which lies in the run of group `g`, is in group `g`.
proof fn lemma_group_of(hs: Seq<helpers::HelperText>, sizes: Seq<usize>, g: int, i: int)
    requires
        sizes_fit(hs, sizes),
        0 <= g < sizes.len(),
        columns::sum_first(sizes, g as nat) <= i < columns::sum_first(sizes, (g + 1) as nat),
    ensures
        0 <= i < hs.len(),
        hs[i].3 == g,
{
    reveal(sizes_fit);
    columns::lemma_sum_grows(sizes, (g + 1) as nat, sizes.len());
    columns::lemma_sum_nonneg(sizes, g as nat);
    let gi = hs[i].3 as int;
    assert(columns::sum_first(sizes, gi as nat) <= i < columns::sum_first(sizes, (gi + 1) as nat));
    if gi + 1 > sizes.len() {
        assert(columns::sum_first(sizes, (gi + 1) as nat) == 0);
    }
    if gi < g {
        columns::lemma_sum_grows(sizes, (gi + 1) as nat, g as nat);
    } else if gi > g {
        columns::lemma_sum_grows(sizes, (g + 1) as nat, gi as nat);
    }
}

proof fn lemma_drawn_next(
    ht: Seq<helpers::HelperText>,
    sizes: Seq<usize>,
    cvs: Seq<Seq<usize>>,
    col_w: int,
    bottom: int,
    i: nat,
    c: int,
    k: int,
    g: int,
    x: int,
    y: int,
)
    requires
        i < ht.len(),
        ht[i as int].3 == g,
        slot_of(cvs, g) == (c, k),
        y == 3 + group_top(sizes, cvs[c], k) + (i - columns::sum_first(sizes, g as nat)),
        x == 3 + c * col_w,
    ensures
        drawn(ht, sizes, cvs, col_w, bottom, i + 1) == if y < bottom {
            drawn(ht, sizes, cvs, col_w, bottom, i).push((i as int, x, y))
        } else {
            drawn(ht, sizes, cvs, col_w, bottom, i)
        },
{
    reveal(drawn);
}

proof fn lemma_lit_spots_next(rows: Seq<(int, int, int)>, r: (int, int, int), lit: Seq<bool>)
    ensures
        lit_spots(rows.push(r), lit) == if lit[r.0] {
            lit_spots(rows, lit).push(
                Spot { item: Item::Helper(r.0 as usize), x: r.1 as usize, y: r.2 as usize },
            )
        } else {
            lit_spots(rows, lit)
        },
{
    reveal(lit_spots);
    assert(rows.push(r).drop_last() =~= rows);
}

impl Launch {
    /// The helpers of one group laid out down column `c` from line `y0`,
    /// starting at helper `i0`; the lit ones become spots.
    fn place_group(
        &self,
        rows: &mut Vec<Row>,
        spots: &mut Vec<Spot>,
        i0: usize,
        y0: usize,
        x: usize,
        size: usize,
        bottom: usize,
        Ghost(sizes): Ghost<Seq<usize>>,
        Ghost(cvs): Ghost<Seq<Seq<usize>>>,
        Ghost(col_w): Ghost<int>,
        Ghost(c): Ghost<int>,
        Ghost(k): Ghost<int>,
        Ghost(g): Ghost<int>,
    ) -> (r: (usize, usize))
        requires
            self.lit@.len() >= self.helpers@.len(),
            sizes_fit(helpers::helpers_text(self.helpers@), sizes),
            0 <= g < sizes.len(),
            size == sizes[g],
            slot_of(cvs, g) == (c, k),
            i0 == columns::sum_first(sizes, g as nat),
            columns::sum_first(sizes, (g + 1) as nat) == i0 + size,
            y0 == 3 + group_top(sizes, cvs[c], k),
            y0 + size <= usize::MAX,
            i0 + size <= usize::MAX,
            x == 3 + c * col_w,
            rows_view(old(rows)@) == drawn(
                helpers::helpers_text(self.helpers@),
                sizes,
                cvs,
                col_w,
                bottom as int,
                i0 as nat,
            ),
            old(spots)@ == lit_spots(rows_view(old(rows)@), self.lit@),
            forall|m: int|
                0 <= m < old(spots)@.len() ==> launcher::spot_ok(
                    #[trigger] old(spots)@[m],
                    self.helpers@.len() as int,
                    self.progs@.len() as int,
                ),
        ensures
            forall|m: int|
                0 <= m < final(spots)@.len() ==> launcher::spot_ok(
                    #[trigger] final(spots)@[m],
                    self.helpers@.len() as int,
                    self.progs@.len() as int,
                ),
            r.0 == i0 + size,
            r.1 == y0 + size,
            rows_view(final(rows)@) == drawn(
                helpers::helpers_text(self.helpers@),
                sizes,
                cvs,
                col_w,
                bottom as int,
                r.0 as nat,
            ),
            final(spots)@ == lit_spots(rows_view(final(rows)@), self.lit@),
    {
        let ghost ht = helpers::helpers_text(self.helpers@);
        let mut i = i0;
        let mut yy = y0;
        let mut n: usize = 0;
        while n < size
            invariant
                self.lit@.len() >= self.helpers@.len(),
                ht == helpers::helpers_text(self.helpers@),
                sizes_fit(ht, sizes),
                0 <= g < sizes.len(),
                slot_of(cvs, g) == (c, k),
                columns::sum_first(sizes, (g + 1) as nat) == i0 + size,
                n <= size,
                i == i0 + n,
                yy == y0 + n,
                y0 + size <= usize::MAX,
                i0 + size <= usize::MAX,
                i0 == columns::sum_first(sizes, g as nat),
                y0 == 3 + group_top(sizes, cvs[c], k),
                x == 3 + c * col_w,
                rows_view(rows@) == drawn(ht, sizes, cvs, col_w, bottom as int, i as nat),
                spots@ == lit_spots(rows_view(rows@), self.lit@),
                forall|m: int|
                    0 <= m < spots@.len() ==> launcher::spot_ok(
                        #[trigger] spots@[m],
                        self.helpers@.len() as int,
                        self.progs@.len() as int,
                    ),
            decreases size - n,
        {
            proof {
                lemma_group_of(ht, sizes, g, i as int);
                lemma_drawn_next(ht, sizes, cvs, col_w, bottom as int, i as nat, c, k, g, x as int, yy as int);
            }
            let ghost before = rows_view(rows@);
            if yy < bottom {
                let row = Row { helper: i, x, y: yy };
                rows.push(row);
                assert(rows_view(rows@) =~= before.push((i as int, x as int, yy as int)));
                proof {
                    lemma_lit_spots_next(before, (i as int, x as int, yy as int), self.lit@);
                }
                if self.lit[i] {
                    spots.push(Spot { item: Item::Helper(i), x, y: yy });
                }
            }
            yy = yy + 1;
            i = i + 1;
            n = n + 1;
        }
        (i, yy)
    }

    /// The helpers laid out in the columns, their lit ones as spots.
    /// Gives the rows drawn and the height of the tallest column.
    fn place_helpers(
        &self,
        sizes: &Vec<usize>,
        cols: &Vec<Vec<usize>>,
        col_w: usize,
        bottom: usize,
        spots: &mut Vec<Spot>,
    ) -> (r: (Vec<Row>, usize))
        requires
            self.lit@.len() >= self.helpers@.len(),
            self.helpers@.len() <= usize::MAX / 4,
            helpers::groups_in_order(helpers::helpers_text(self.helpers@)),
            sizes_fit(helpers::helpers_text(self.helpers@), sizes@),
            columns::rows_of(cols@).flatten() == columns::group_numbers(sizes@.len()),
            cols@.len() >= 1,
            (cols@.len() - 1) * col_w + 3 <= usize::MAX,
            old(spots)@.len() == 0,
        ensures
            rows_view(r.0@) == drawn(
                helpers::helpers_text(self.helpers@),
                sizes@,
                columns::rows_of(cols@),
                col_w as int,
                bottom as int,
                self.helpers@.len(),
            ),
            final(spots)@ == lit_spots(rows_view(r.0@), self.lit@),
            forall|m: int|
                0 <= m < final(spots)@.len() ==> launcher::spot_ok(
                    #[trigger] final(spots)@[m],
                    self.helpers@.len() as int,
                    self.progs@.len() as int,
                ),
            r.1 == tallest(sizes@, columns::rows_of(cols@)),
            r.1 <= self.helpers@.len() + sizes@.len(),
    {
        let ghost ht = helpers::helpers_text(self.helpers@);
        let ghost cvs = columns::rows_of(cols@);
        let ghost ng = sizes@.len();
        let ghost n = self.helpers@.len();
        let ng_exec = sizes.len();
        proof {
            columns::lemma_groups_before_len(cvs, cvs.len() as int);
            columns::lemma_sum_nonneg(sizes@, 0);
            lemma_sizes_total(ht, sizes@);
        }
        let mut rows: Vec<Row> = Vec::new();
        let mut height: usize = 0;
        let mut i: usize = 0;
        let mut c: usize = 0;
        assert(cvs.take(0) =~= Seq::<Seq<usize>>::empty());
        assert(rows_view(rows@) =~= Seq::<(int, int, int)>::empty());
        proof {
            reveal(drawn);
            reveal(lit_spots);
        }
        while c < cols.len()
            invariant
                self.lit@.len() >= self.helpers@.len(),
                ht == helpers::helpers_text(self.helpers@),
                cvs == columns::rows_of(cols@),
                n == self.helpers@.len(),
                n <= usize::MAX / 4,
                ng == sizes@.len(),
                ng == ng_exec,
                ng <= n,
                columns::sum_first(sizes@, ng) == n,
                helpers::groups_in_order(ht),
                sizes_fit(ht, sizes@),
                cvs.flatten() == columns::group_numbers(ng),
                columns::groups_before(cvs, cvs.len() as int) == ng,
                (cols@.len() - 1) * col_w + 3 <= usize::MAX,
                c <= cols.len(),
                0 <= columns::groups_before(cvs, c as int) <= ng,
                i == columns::sum_first(sizes@, columns::groups_before(cvs, c as int) as nat),
                rows_view(rows@) == drawn(ht, sizes@, cvs, col_w as int, bottom as int, i as nat),
                spots@ == lit_spots(rows_view(rows@), self.lit@),
                forall|m: int|
                    0 <= m < spots@.len() ==> launcher::spot_ok(
                        #[trigger] spots@[m],
                        self.helpers@.len() as int,
                        self.progs@.len() as int,
                    ),
                height == tallest(sizes@, cvs.take(c as int)),
                height <= i + columns::groups_before(cvs, c as int),
            decreases cols.len() - c,
        {
            proof {
                assert((c as int) * (col_w as int) <= (cols@.len() - 1) * (col_w as int)) by (nonlinear_arith)
                    requires
                        c < cols@.len(),
                ;
            }
            let x = 3 + c * col_w;
            let ghost gb = columns::groups_before(cvs, c as int);
            let ghost col = cvs[c as int];
            assert(col == cols@[c as int]@);
            proof {
                lemma_groups_before_grows(cvs, c as int, cvs.len() as int);
            }
            let mut yy: usize = 3;
            let mut k: usize = 0;
            let ghost i_col = i;
            while k < cols[c].len()
                invariant
                    self.lit@.len() >= self.helpers@.len(),
                    ht == helpers::helpers_text(self.helpers@),
                    cvs == columns::rows_of(cols@),
                    n == self.helpers@.len(),
                    n <= usize::MAX / 4,
                    ng == sizes@.len(),
                    ng == ng_exec,
                    ng <= n,
                    columns::sum_first(sizes@, ng) == n,
                    sizes_fit(ht, sizes@),
                    cvs.flatten() == columns::group_numbers(ng),
                    c < cols.len(),
                    col == cvs[c as int],
                    col == cols@[c as int]@,
                    gb == columns::groups_before(cvs, c as int),
                    0 <= gb,
                    gb + col.len() <= ng,
                    x == 3 + c * col_w,
                    k <= col.len(),
                    i == columns::sum_first(sizes@, (gb + k) as nat),
                    yy == 3 + if k == 0 {
                        0
                    } else {
                        columns::column_height(sizes@, col.take(k as int))
                    },
                    yy <= 3 + i + gb + k,
                    yy >= 3,
                    i >= i_col,
                    rows_view(rows@) == drawn(ht, sizes@, cvs, col_w as int, bottom as int, i as nat),
                    spots@ == lit_spots(rows_view(rows@), self.lit@),
                    forall|m: int|
                        0 <= m < spots@.len() ==> launcher::spot_ok(
                            #[trigger] spots@[m],
                            self.helpers@.len() as int,
                            self.progs@.len() as int,
                        ),
                decreases col.len() - k,
            {
                let g = cols[c][k];
                proof {
                    lemma_slot(cvs, ng, c as int, k as int);
                    columns::lemma_sum_grows(sizes@, (g + 1) as nat, ng);
                    columns::lemma_sum_grows(sizes@, (gb + k) as nat, (g + 1) as nat);
                }
                if k > 0 {
                    yy = yy + 1;
                }
                let size = sizes[g];
                let (ni, ny) = self.place_group(
                    &mut rows,
                    spots,
                    i,
                    yy,
                    x,
                    size,
                    bottom,
                    Ghost(sizes@),
                    Ghost(cvs),
                    Ghost(col_w as int),
                    Ghost(c as int),
                    Ghost(k as int),
                    Ghost(g as int),
                );
                i = ni;
                yy = ny;
                proof {
                    let t = col.take(k + 1);
                    assert(t.drop_last() =~= col.take(k as int));
                    assert(t.last() == g);
                    if k == 0 {
                        assert(t.len() == 1);
                    }
                }
                k = k + 1;
            }
            proof {
                assert(columns::groups_before(cvs, c + 1) == gb + col.len());
                assert(col.take(col.len() as int) =~= col);
                let t = cvs.take(c + 1);
                assert(t.drop_last() =~= cvs.take(c as int));
                assert(t.last() == col);
                if col.len() == 0 {
                    assert(columns::column_height(sizes@, col) == 0);
                }
            }
            if yy - 3 > height {
                height = yy - 3;
            }
            c = c + 1;
        }
        assert(cvs.take(c as int) =~= cvs);
        (rows, height)
    }
}

/// The smaller of two widths.
fn narrower(a: usize, b: usize) -> (r: usize)
    ensures
        r == if a < b {
            a
        } else {
            b
        },
{
    if a < b {
        a
    } else {
        b
    }
}

/// How many columns of width `col_w` fit across `w`.
fn across(w: usize, col_w: usize) -> (r: usize)
    requires
        col_w > 0,
    ensures
        r == columns_across(w as int, col_w as int),
        r >= 1,
        r == 1 || r * col_w + 2 <= w,
{
    let room = if w >= 2 {
        w - 2
    } else {
        0
    };
    let q = room / col_w;
    assert(q * col_w <= room) by (nonlinear_arith)
        requires
            col_w > 0,
            q == room / col_w,
    ;
    if q >= 1 {
        q
    } else {
        1
    }
}

/// Whether `f` and the spots are the layout of launcher `l` on a terminal
/// `w` cells wide and `rows` lines high, for these display widths.
///
/// The helpers: the widest name, the cell of a helper and the distance
/// between helper columns; the size of each group; the groups balanced
/// over as many columns as fit across; the helpers drawn, those above the
/// bottom line, each in its group's column and at its place there; the
/// search field two lines under the tallest column (line 4 with no
/// helpers); the programs from two lines under the field.
/// The spots: the lit helpers drawn, in order; then, when something is
/// typed and some program holds it, the programs, down columns as tall as
/// the room under the field, as many as those columns hold.
pub open spec fn frame_ok(
    l: Launch,
    w: int,
    rows: int,
    name_w: Seq<usize>,
    hot_w: Seq<usize>,
    prog_w: Seq<usize>,
    f: Frame,
    spots: Seq<Spot>,
) -> bool {
    let hs = helpers::helpers_text(l.helpers@);
    let bottom = bottom_line(rows);
    let cols = columns::rows_of(f.columns@);
    let hspots = lit_spots(rows_view(f.rows@), l.lit@);
    let h = if bottom > f.top {
        bottom - f.top
    } else {
        0
    };
    &&& if hs.len() == 0 {
        f.rows@.len() == 0 && f.field_y == 4
    } else {
        &&& f.name_w == widest(name_w)
        &&& f.cell == cell_width(widest(name_w), widest(hot_w))
        &&& f.col_w == f.cell + 4
        &&& sizes_fit(hs, f.sizes@)
        &&& columns::balanced(f.sizes@, columns_across(w, f.col_w as int) as usize, cols)
        &&& rows_view(f.rows@) == drawn(hs, f.sizes@, cols, f.col_w as int, bottom, hs.len())
        &&& f.field_y == 3 + tallest(f.sizes@, cols) + 2
    }
    &&& f.top == f.field_y + 2
    &&& if text::trimmed(l.query@).len() == 0 {
        f.note == Note::Hint && spots == hspots
    } else if l.hits@.len() == 0 {
        f.note == Note::NoMatch && spots == hspots
    } else if h == 0 {
        f.note == Note::Cells && spots == hspots
    } else {
        &&& f.note == Note::Cells
        &&& f.prog_w == (if widest(hit_widths(l.hits@, prog_w)) < PROG_W {
            widest(hit_widths(l.hits@, prog_w))
        } else {
            PROG_W as int
        })
        &&& spots == hspots + prog_spots(
            l.hits@,
            shown_count(l.hits@.len() as int, h, columns_across(w, f.prog_w + 4)),
            h,
            f.prog_w + 4,
            f.top as int,
        )
    }
}

/// The number of programs shown: all hits, or as many as the columns hold.
pub open spec fn shown_count(nhits: int, h: int, ncols: int) -> int {
    if nhits < h * ncols {
        nhits
    } else {
        h * ncols
    }
}

impl Launch {
    /// The programs found, down columns of height `h` from line `top`,
    /// appended to the spots. Gives the width a name is drawn in.
    fn place_programs(&mut self, w: usize, top: usize, h: usize, prog_w: &Vec<usize>) -> (pw: usize)
        requires
            old(self).drawable(),
            prog_w@.len() == old(self).progs@.len(),
            h > 0,
            top + h <= usize::MAX,
        ensures
            final(self).drawable(),
            final(self).helpers == old(self).helpers,
            final(self).progs == old(self).progs,
            final(self).query == old(self).query,
            final(self).lit == old(self).lit,
            final(self).hits == old(self).hits,
            final(self).sel == old(self).sel,
            pw == (if widest(hit_widths(old(self).hits@, prog_w@)) < PROG_W {
                widest(hit_widths(old(self).hits@, prog_w@))
            } else {
                PROG_W as int
            }),
            final(self).spots@ == old(self).spots@ + prog_spots(
                old(self).hits@,
                shown_count(
                    old(self).hits@.len() as int,
                    h as int,
                    columns_across(w as int, pw + 4),
                ),
                h as int,
                pw + 4,
                top as int,
            ),
    {
        let mut ws: Vec<usize> = Vec::new();
        let mut k: usize = 0;
        while k < self.hits.len()
            invariant
                self.drawable(),
                prog_w@.len() == self.progs@.len(),
                self.hits == old(self).hits,
                k <= self.hits.len(),
                ws@ == hit_widths(self.hits@, prog_w@).take(k as int),
            decreases self.hits.len() - k,
        {
            assert(self.hits@[k as int] < self.progs@.len());
            ws.push(prog_w[self.hits[k]]);
            k = k + 1;
            assert(ws@ =~= hit_widths(self.hits@, prog_w@).take(k as int));
        }
        assert(ws@ =~= hit_widths(self.hits@, prog_w@));
        let pw = narrower(widest_of(&ws), PROG_W);
        let cw = pw + 4;
        let ncols = across(w, cw);
        let ghost base = self.spots@;
        let ghost m = shown_count(self.hits@.len() as int, h as int, ncols as int);
        let mut k: usize = 0;
        while k < self.hits.len() && k / h < ncols
            invariant
                self.drawable(),
                self.helpers == old(self).helpers,
                self.progs == old(self).progs,
                self.query == old(self).query,
                self.lit == old(self).lit,
                self.hits == old(self).hits,
                self.sel == old(self).sel,
                base.len() <= self.spots@.len(),
                h > 0,
                top + h <= usize::MAX,
                cw == pw + 4,
                pw <= PROG_W,
                ncols >= 1,
                ncols == 1 || ncols * cw + 2 <= w,
                k <= self.hits.len(),
                k <= h * ncols,
                m == shown_count(self.hits@.len() as int, h as int, ncols as int),
                self.spots@ == base + prog_spots(self.hits@, k as int, h as int, cw as int, top as int),
            decreases self.hits.len() - k,
        {
            let col = k / h;
            let line = k % h;
            assert(col == 0 || col * cw + cw + 2 <= w) by (nonlinear_arith)
                requires
                    col < ncols,
                    ncols == 1 || ncols * cw + 2 <= w,
            ;
            assert(3 + col * cw <= usize::MAX) by (nonlinear_arith)
                requires
                    col == 0 || col * cw + cw + 2 <= w,
                    cw >= 4,
                    w <= usize::MAX,
            ;
            assert(line < h) by (nonlinear_arith)
                requires
                    h > 0,
                    line == k % h,
            ;
            assert(k + 1 <= h * ncols) by (nonlinear_arith)
                requires
                    h > 0,
                    col == k / h,
                    col < ncols,
            ;
            assert(self.hits@[k as int] < self.progs@.len());
            let spot = Spot { item: Item::Prog(self.hits[k]), x: 3 + col * cw, y: top + line };
            self.spots.push(spot);
            k = k + 1;
            assert(self.spots@ =~= base + prog_spots(self.hits@, k as int, h as int, cw as int, top as int));
        }
        assert(k as int == m) by (nonlinear_arith)
            requires
                h > 0,
                k <= self.hits@.len(),
                k <= h * ncols,
                k == self.hits@.len() || k / h >= ncols,
                m == shown_count(self.hits@.len() as int, h as int, ncols as int),
        ;
        pw
    }

    /// The whole screen laid out for a terminal `w` cells wide and `rows`
    /// lines high, given the display width of each helper name
    /// (`name_w`), each hotkey (`hot_w`) and each program (`prog_w`).
    /// The spots are those of this layout, in the order the cursor walks
    /// them: the lit helpers, then the programs.
    pub fn layout(
        &mut self,
        w: usize,
        rows: usize,
        name_w: &Vec<usize>,
        hot_w: &Vec<usize>,
        prog_w: &Vec<usize>,
    ) -> (f: Frame)
        requires
            old(self).drawable(),
            name_w@.len() == old(self).helpers@.len(),
            hot_w@.len() == old(self).helpers@.len(),
            prog_w@.len() == old(self).progs@.len(),
            old(self).helpers@.len() <= usize::MAX / 8,
            forall|i: int| 0 <= i < name_w@.len() ==> #[trigger] name_w@[i] <= usize::MAX / 8,
            forall|i: int| 0 <= i < hot_w@.len() ==> #[trigger] hot_w@[i] <= usize::MAX / 8,
        ensures
            final(self).drawable(),
            old(self).wf() ==> final(self).wf(),
            final(self).helpers == old(self).helpers,
            final(self).progs == old(self).progs,
            final(self).query == old(self).query,
            final(self).lit == old(self).lit,
            final(self).hits == old(self).hits,
            final(self).sel == old(self).sel,
            frame_ok(*old(self), w as int, rows as int, name_w@, hot_w@, prog_w@, f, final(self).spots@),
    {
        let n = self.helpers.len();
        let bottom: usize = if rows >= 1 {
            rows - 1
        } else {
            0
        };
        self.spots.clear();
        let mut y: usize = 3;
        let mut nw: usize = 0;
        let mut cell: usize = 0;
        let mut col_w: usize = 4;
        let mut sizes: Vec<usize> = Vec::new();
        let mut cols: Vec<Vec<usize>> = Vec::new();
        let mut drawn_rows: Vec<Row> = Vec::new();
        if n > 0 {
            nw = widest_of(name_w);
            let hw = widest_of(hot_w);
            proof {
                lemma_widest(name_w@);
                lemma_widest(hot_w@);
            }
            cell = nw + if hw > 0 {
                2 + hw
            } else {
                0
            };
            col_w = cell + 4;
            sizes = group_sizes(&self.helpers);
            proof {
                lemma_sizes_total(helpers::helpers_text(self.helpers@), sizes@);
                columns::lemma_sum_nonneg(sizes@, 0);
            }
            let ncols = across(w, col_w);
            assert(columns::total_height(sizes@) <= usize::MAX) by {
                assert(columns::total_height(sizes@) <= 2 * n);
            }
            cols = columns::balance(sizes.as_slice(), ncols);
            assert((cols@.len() - 1) * col_w + 3 <= usize::MAX) by (nonlinear_arith)
                requires
                    1 <= cols@.len() <= ncols,
                    ncols == 1 || ncols * col_w + 2 <= w,
            ;
            let ghost empty_spots = self.spots@;
            let mut spots: Vec<Spot> = Vec::new();
            let (r, height) = self.place_helpers(&sizes, &cols, col_w, bottom, &mut spots);
            self.spots = spots;
            drawn_rows = r;
            y = y + height + 1;
        }
        let field_y = y + 1;
        let top = field_y + 2;
        let h = if bottom > top {
            bottom - top
        } else {
            0
        };
        let ghost helper_spots = self.spots@;
        proof {
            if n == 0 {
                reveal(lit_spots);
                assert(rows_view(drawn_rows@) =~= Seq::<(int, int, int)>::empty());
            }
        }
        let qs = text::chars_of(self.query.as_str());
        let (a, b) = text::trim_bounds(&qs, 0, qs.len());
        assert(qs@.subrange(0, qs.len() as int) =~= qs@);
        let mut note = Note::Cells;
        let mut pw: usize = 0;
        if a == b {
            note = Note::Hint;
        } else if self.hits.len() == 0 {
            note = Note::NoMatch;
        } else if h > 0 {
            pw = self.place_programs(w, top, h, prog_w);
        }
        Frame {
            name_w: nw,
            cell,
            col_w,
            sizes,
            columns: cols,
            rows: drawn_rows,
            field_y,
            top,
            prog_w: pw,
            note,
        }
    }
}

} // verus!

verus! {

/// The helpers drawn come in their order in the file, each once, each
/// above the bottom line, at the column of its group and the line of its
/// place.
pub proof fn law_rows_in_order(
    hs: Seq<helpers::HelperText>,
    sizes: Seq<usize>,
    cols: Seq<Seq<usize>>,
    col_w: int,
    bottom: int,
    n: nat,
)
    requires
        n <= hs.len(),
    ensures
        forall|m: int|
            0 <= m < drawn(hs, sizes, cols, col_w, bottom, n).len() ==> {
                let e = #[trigger] drawn(hs, sizes, cols, col_w, bottom, n)[m];
                &&& 0 <= e.0 < n
                &&& e.1 == helper_x(cols, col_w, hs[e.0].3 as int)
                &&& e.2 == helper_y(sizes, cols, hs[e.0].3 as int, e.0)
                &&& e.2 < bottom
            },
        forall|m1: int, m2: int|
            0 <= m1 < m2 < drawn(hs, sizes, cols, col_w, bottom, n).len() ==> (#[trigger] drawn(
                hs,
                sizes,
                cols,
                col_w,
                bottom,
                n,
            )[m1]).0 < (#[trigger] drawn(hs, sizes, cols, col_w, bottom, n)[m2]).0,
    decreases n,
{
    reveal(drawn);
    if n > 0 {
        let p = (n - 1) as nat;
        law_rows_in_order(hs, sizes, cols, col_w, bottom, p);
        let before = drawn(hs, sizes, cols, col_w, bottom, p);
        let d = drawn(hs, sizes, cols, col_w, bottom, n);
        let j = n - 1;
        let g = hs[j].3 as int;
        let y = helper_y(sizes, cols, g, j);
        if y < bottom {
            assert(d == before.push((j, helper_x(cols, col_w, g), y)));
            assert forall|m: int| 0 <= m < d.len() implies {
                let e = #[trigger] d[m];
                &&& 0 <= e.0 < n
                &&& e.1 == helper_x(cols, col_w, hs[e.0].3 as int)
                &&& e.2 == helper_y(sizes, cols, hs[e.0].3 as int, e.0)
                &&& e.2 < bottom
            } by {
                if m < before.len() {
                    assert(d[m] == before[m]);
                }
            }
            assert forall|m1: int, m2: int| 0 <= m1 < m2 < d.len() implies (#[trigger] d[m1]).0 < (
            #[trigger] d[m2]).0 by {
                assert(d[m1] == before[m1]);
                if m2 < before.len() {
                    assert(d[m2] == before[m2]);
                }
            }
        } else {
            assert(d == before);
        }
    }
}

/// A group never splits across two columns: two helpers of one group that
/// are drawn stand in the same column, as many lines apart as they are
/// apart in the file.
pub proof fn law_group_never_splits(
    hs: Seq<helpers::HelperText>,
    sizes: Seq<usize>,
    cols: Seq<Seq<usize>>,
    col_w: int,
    bottom: int,
    n: nat,
    m1: int,
    m2: int,
)
    requires
        n <= hs.len(),
        0 <= m1 < drawn(hs, sizes, cols, col_w, bottom, n).len(),
        0 <= m2 < drawn(hs, sizes, cols, col_w, bottom, n).len(),
        hs[drawn(hs, sizes, cols, col_w, bottom, n)[m1].0].3 == hs[drawn(
            hs,
            sizes,
            cols,
            col_w,
            bottom,
            n,
        )[m2].0].3,
    ensures
        drawn(hs, sizes, cols, col_w, bottom, n)[m1].1 == drawn(hs, sizes, cols, col_w, bottom, n)[m2].1,
        drawn(hs, sizes, cols, col_w, bottom, n)[m2].2 - drawn(hs, sizes, cols, col_w, bottom, n)[m1].2
            == drawn(hs, sizes, cols, col_w, bottom, n)[m2].0 - drawn(
            hs,
            sizes,
            cols,
            col_w,
            bottom,
            n,
        )[m1].0,
{
    law_rows_in_order(hs, sizes, cols, col_w, bottom, n);
    let d = drawn(hs, sizes, cols, col_w, bottom, n);
    let e1 = d[m1];
    let e2 = d[m2];
    assert(e1.1 == helper_x(cols, col_w, hs[e1.0].3 as int));
    assert(e2.1 == helper_x(cols, col_w, hs[e2.0].3 as int));
}

/// The spots of the helpers are lit helpers, each drawn.
pub proof fn law_helper_spots_are_lit(rows: Seq<(int, int, int)>, lit: Seq<bool>, k: int)
    requires
        0 <= k < lit_spots(rows, lit).len(),
    ensures
        exists|m: int|
            0 <= m < rows.len() && #[trigger] rows[m].0 as usize == (match lit_spots(
                rows,
                lit,
            )[k].item {
                Item::Helper(i) => i,
                Item::Prog(i) => i,
            }) && lit[rows[m].0] && lit_spots(rows, lit)[k].item is Helper,
    decreases rows.len(),
{
    reveal(lit_spots);
    let before = lit_spots(rows.drop_last(), lit);
    if k < before.len() {
        law_helper_spots_are_lit(rows.drop_last(), lit, k);
        let m = choose|m: int|
            0 <= m < rows.drop_last().len() && #[trigger] rows.drop_last()[m].0 as usize == (
            match before[k].item {
                Item::Helper(i) => i,
                Item::Prog(i) => i,
            }) && lit[rows.drop_last()[m].0] && before[k].item is Helper;
        assert(rows[m] == rows.drop_last()[m]);
        assert(lit_spots(rows, lit)[k] == before[k]);
    } else {
        let m = rows.len() - 1;
        assert(rows[m] == rows.last());
    }
}

/// Group `g`, one of the groups the columns hold, stands somewhere in them.
proof fn lemma_group_placed(cols: Seq<Seq<usize>>, n: nat, g: int)
    requires
        cols.flatten() == columns::group_numbers(n),
        n <= usize::MAX,
        0 <= g < n,
    ensures
        0 <= slot_of(cols, g).0 < cols.len(),
        0 <= slot_of(cols, g).1 < cols[slot_of(cols, g).0].len(),
        cols[slot_of(cols, g).0][slot_of(cols, g).1] == g,
        g == columns::groups_before(cols, slot_of(cols, g).0) + slot_of(cols, g).1,
{
    columns::lemma_groups_before_len(cols, cols.len() as int);
    columns::lemma_column_of(cols, g, cols.len() as int);
    let c = choose|c: int|
        0 <= c < cols.len() && columns::groups_before(cols, c) <= g < #[trigger] columns::groups_before(
            cols,
            c + 1,
        );
    let k = g - columns::groups_before(cols, c);
    assert(columns::groups_before(cols, c + 1) == columns::groups_before(cols, c) + cols[c].len());
    lemma_slot(cols, n, c, k);
}

/// Of two drawn helpers next to each other in the file and in the same
/// column, the second is one line lower in the same group and two lines
/// lower when it starts the next group.
proof fn lemma_next_line(
    hs: Seq<helpers::HelperText>,
    sizes: Seq<usize>,
    cols: Seq<Seq<usize>>,
    cw: int,
    bottom: int,
    m1: int,
    m2: int,
)
    requires
        helpers::groups_in_order(hs),
        sizes_fit(hs, sizes),
        cols.flatten() == columns::group_numbers(sizes.len()),
        sizes.len() <= usize::MAX,
        cw >= 4,
        0 <= m1 < drawn(hs, sizes, cols, cw, bottom, hs.len()).len(),
        0 <= m2 < drawn(hs, sizes, cols, cw, bottom, hs.len()).len(),
        drawn(hs, sizes, cols, cw, bottom, hs.len())[m2].0 == drawn(hs, sizes, cols, cw, bottom, hs.len())[m1].0 + 1,
        drawn(hs, sizes, cols, cw, bottom, hs.len())[m2].1 == drawn(hs, sizes, cols, cw, bottom, hs.len())[m1].1,
    ensures
        ({
            let d = drawn(hs, sizes, cols, cw, bottom, hs.len());
            &&& hs[d[m2].0].3 == hs[d[m1].0].3 ==> d[m2].2 == d[m1].2 + 1
            &&& hs[d[m2].0].3 != hs[d[m1].0].3 ==> d[m2].2 == d[m1].2 + 2
        }),
{
    let n = hs.len();
    let d = drawn(hs, sizes, cols, cw, bottom, n);
    law_rows_in_order(hs, sizes, cols, cw, bottom, n);
    let e1 = d[m1];
    let e2 = d[m2];
    let i = e1.0;
    let g1 = hs[i].3 as int;
    let g2 = hs[i + 1].3 as int;
    assert(g1 <= g2 <= g1 + 1);
    reveal(sizes_fit);
    assert(columns::sum_first(sizes, hs[i].3) <= i < columns::sum_first(sizes, hs[i].3 + 1));
    assert(columns::sum_first(sizes, hs[i + 1].3) <= i + 1 < columns::sum_first(sizes, hs[i + 1].3 + 1));
    assert(g2 < sizes.len()) by {
        if g2 + 1 > sizes.len() {
            assert(columns::sum_first(sizes, (g2 + 1) as nat) == 0);
        }
    }
    if g1 != g2 {
        assert(g2 == g1 + 1);
        lemma_group_placed(cols, sizes.len(), g1);
        lemma_group_placed(cols, sizes.len(), g2);
        let (c1, k1) = slot_of(cols, g1);
        let (c2, k2) = slot_of(cols, g2);
        assert(e1.1 == 3 + c1 * cw);
        assert(e2.1 == 3 + c2 * cw);
        assert(c1 == c2) by (nonlinear_arith)
            requires
                3 + c1 * cw == 3 + c2 * cw,
                cw >= 4,
        ;
        assert(k2 == k1 + 1);
        let col = cols[c1];
        let t = col.take(k1 + 1);
        assert(t.last() == g1);
        if k1 > 0 {
            assert(t.drop_last() =~= col.take(k1));
        } else {
            assert(t.len() == 1 && t[0] == g1);
        }
        assert(group_top(sizes, col, k2) == group_top(sizes, col, k1) + sizes[g1] + 1);
        assert(columns::sum_first(sizes, (g1 + 1) as nat) == columns::sum_first(sizes, g1 as nat)
            + sizes[g1]);
        assert(i + 1 == columns::sum_first(sizes, (g1 + 1) as nat));
    }
}

/// Within one column, the lines of helpers follow one another, and one
/// blank line sits between two groups: of two helpers next to each other
/// in the file and drawn in the same column, the second stands one line
/// below the first when they share a group, and two lines below when it
/// starts the next group.
pub proof fn law_blank_line_between_groups(
    l: Launch,
    w: int,
    rows: int,
    name_w: Seq<usize>,
    hot_w: Seq<usize>,
    prog_w: Seq<usize>,
    f: Frame,
    spots: Seq<Spot>,
    m1: int,
    m2: int,
)
    requires
        l.drawable(),
        frame_ok(l, w, rows, name_w, hot_w, prog_w, f, spots),
        0 <= m1 < f.rows@.len(),
        0 <= m2 < f.rows@.len(),
        f.rows@[m2].helper == f.rows@[m1].helper + 1,
        f.rows@[m2].x == f.rows@[m1].x,
    ensures
        l.helpers@[f.rows@[m2].helper as int].group == l.helpers@[f.rows@[m1].helper as int].group
            ==> f.rows@[m2].y == f.rows@[m1].y + 1,
        l.helpers@[f.rows@[m2].helper as int].group != l.helpers@[f.rows@[m1].helper as int].group
            ==> f.rows@[m2].y == f.rows@[m1].y + 2,
{
    let hs = helpers::helpers_text(l.helpers@);
    let cols = columns::rows_of(f.columns@);
    let sizes = f.sizes@;
    let bottom = bottom_line(rows);
    let cw = f.col_w as int;
    let n = hs.len();
    assert(n > 0) by {
        if n == 0 {
            assert(f.rows@.len() == 0);
        }
    }
    let d = drawn(hs, sizes, cols, cw, bottom, n);
    assert(rows_view(f.rows@) == d);
    assert(d[m1] == (f.rows@[m1].helper as int, f.rows@[m1].x as int, f.rows@[m1].y as int));
    assert(d[m2] == (f.rows@[m2].helper as int, f.rows@[m2].x as int, f.rows@[m2].y as int));
    assert(cols.flatten() == columns::group_numbers(sizes.len()));
    assert(sizes.len() == f.sizes.len());
    law_rows_in_order(hs, sizes, cols, cw, bottom, n);
    lemma_next_line(hs, sizes, cols, cw, bottom, m1, m2);
    assert(hs[d[m1].0].3 == l.helpers@[f.rows@[m1].helper as int].group);
    assert(hs[d[m2].0].3 == l.helpers@[f.rows@[m2].helper as int].group);
}

} // verus!
