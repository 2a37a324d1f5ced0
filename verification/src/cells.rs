//! Text cut or padded to a number of terminal cells. How many cells a
//! character takes is measured by the terminal library, and comes in here
//! as one width per character.
use vstd::prelude::*;
use crate::text;

verus! {

/// How many characters, from the start, fit in `max` cells when they take
/// `ws` cells each: up to the first one that would go past `max`.
pub open spec fn fitting(ws: Seq<usize>, max: int) -> nat
    decreases ws.len(),
{
    if ws.len() == 0 || ws[0] > max {
        0
    } else {
        1 + fitting(ws.drop_first(), max - ws[0])
    }
}

/// The cells the first `n` characters take.
pub open spec fn cells_of(ws: Seq<usize>, n: int) -> int
    decreases n,
{
    if n <= 0 || n > ws.len() {
        0
    } else {
        cells_of(ws, n - 1) + ws[n - 1]
    }
}

proof fn lemma_fitting_step(ws: Seq<usize>, k: int, max: int)
    requires
        0 <= k < ws.len(),
        cells_of(ws, k) + ws[k] <= max,
    ensures
        fitting(ws.skip(k), max - cells_of(ws, k)) == 1 + fitting(
            ws.skip(k + 1),
            max - cells_of(ws, k + 1),
        ),
{
    assert(ws.skip(k).drop_first() =~= ws.skip(k + 1));
    assert(ws.skip(k)[0] == ws[k]);
}

/// The first characters of `s` that fit in `max` cells, never cutting a
/// character in two; `ws` holds how many cells each character of `s` takes.
pub fn take_cells(s: &str, ws: &Vec<usize>, max: usize) -> (r: String)
    requires
        ws@.len() == s@.len(),
    ensures
        r@ == s@.take(fitting(ws@, max as int) as int),
{
    let cs = text::chars_of(s);
    let mut out = String::new();
    let mut used: usize = 0;
    let mut k: usize = 0;
    assert(ws@.skip(0) =~= ws@);
    while k < cs.len()
        invariant
            cs@ == s@,
            ws@.len() == cs@.len(),
            k <= cs.len(),
            used == cells_of(ws@, k as int),
            used <= max,
            fitting(ws@, max as int) == k + fitting(ws@.skip(k as int), max - used),
            out@ == cs@.take(k as int),
        decreases cs.len() - k,
    {
        let add = ws[k];
        if add > max - used {
            proof {
                assert(ws@.skip(k as int)[0] == ws@[k as int]);
            }
            return out;
        }
        proof {
            lemma_fitting_step(ws@, k as int, max as int);
        }
        out.push(cs[k]);
        used = used + add;
        k = k + 1;
        assert(out@ =~= cs@.take(k as int));
    }
    proof {
        assert(ws@.skip(k as int).len() == 0);
        assert(cs@.take(k as int) =~= cs@);
    }
    out
}

/// `n` spaces.
pub open spec fn spaces(n: int) -> Seq<char> {
    Seq::new(n as nat, |i: int| ' ')
}

/// `s`, which takes `have` cells, padded with spaces to `w` cells; as it
/// is when it already takes `w` or more.
pub fn pad_to(s: &str, have: usize, w: usize) -> (r: String)
    ensures
        r@ == s@ + spaces(if have < w {
            w - have
        } else {
            0
        }),
{
    let cs = text::chars_of(s);
    let mut out = text::string_of(&cs, 0, cs.len());
    assert(cs@.subrange(0, cs.len() as int) =~= cs@);
    let n: usize = if have < w {
        w - have
    } else {
        0
    };
    let mut k: usize = 0;
    while k < n
        invariant
            k <= n,
            out@ == s@ + spaces(k as int),
        decreases n - k,
    {
        out.push(' ');
        k = k + 1;
        assert(out@ =~= s@ + spaces(k as int));
    }
    out
}

/// How many characters fit in `max` cells, and the cells they take.
fn fit_count(ws: &Vec<usize>, max: usize) -> (r: (usize, usize))
    ensures
        r.0 == fitting(ws@, max as int),
        r.1 == cells_of(ws@, r.0 as int),
        r.1 <= max,
{
    let mut used: usize = 0;
    let mut k: usize = 0;
    assert(ws@.skip(0) =~= ws@);
    while k < ws.len()
        invariant
            k <= ws.len(),
            used == cells_of(ws@, k as int),
            used <= max,
            fitting(ws@, max as int) == k + fitting(ws@.skip(k as int), max - used),
        decreases ws.len() - k,
    {
        let add = ws[k];
        if add > max - used {
            assert(ws@.skip(k as int)[0] == ws@[k as int]);
            return (k, used);
        }
        proof {
            lemma_fitting_step(ws@, k as int, max as int);
        }
        used = used + add;
        k = k + 1;
    }
    assert(ws@.skip(k as int).len() == 0);
    (k, used)
}

proof fn lemma_cells_grow(ws: Seq<usize>, a: int, b: int)
    requires
        0 <= a <= b <= ws.len(),
    ensures
        cells_of(ws, a) <= cells_of(ws, b),
    decreases b,
{
    if a < b {
        lemma_cells_grow(ws, a, b - 1);
    }
}

/// The text `fit` gives: the whole of `s` and spaces when it fits in `w`
/// cells; nothing when `w` is 0; otherwise as much of `s` as fits in
/// `w - 1` cells, the mark `…` in the last cell, and spaces.
pub open spec fn fitted(s: Seq<char>, ws: Seq<usize>, w: int) -> Seq<char> {
    let have = cells_of(ws, ws.len() as int);
    if have <= w {
        s + spaces(w - have)
    } else if w <= 0 {
        Seq::empty()
    } else {
        let k = fitting(ws, w - 1);
        s.take(k as int).push('…') + spaces(w - 1 - cells_of(ws, k as int))
    }
}

/// `s` in exactly `w` cells: cut with a mark when too long, padded with
/// spaces when short. `ws` holds how many cells each character of `s`
/// takes; the mark takes one.
pub fn fit(s: &str, ws: &Vec<usize>, w: usize) -> (r: String)
    requires
        ws@.len() == s@.len(),
    ensures
        r@ == fitted(s@, ws@, w as int),
        cells_of(ws@, ws@.len() as int) <= w || w == 0 || cells_of(
            ws@,
            fitting(ws@, w - 1) as int,
        ) + 1 <= w,
{
    let (k, used) = fit_count(ws, w);
    proof {
        law_cut_fits(ws@, w as int);
        if k < ws.len() {
            lemma_cells_grow(ws@, k + 1, ws@.len() as int);
        }
    }
    if k == ws.len() {
        return pad_to(s, used, w);
    }
    if w == 0 {
        return String::new();
    }
    let (_, used2) = fit_count(ws, w - 1);
    let mut t = take_cells(s, ws, w - 1);
    t.push('…');
    pad_to(t.as_str(), used2 + 1, w)
}

} // verus!

verus! {

/// What is kept fits: its cells add up to at most `max`, and when a
/// character is left out, the next one would not have fit.
pub proof fn law_cut_fits(ws: Seq<usize>, max: int)
    requires
        max >= 0,
    ensures
        fitting(ws, max) <= ws.len(),
        cells_of(ws, fitting(ws, max) as int) <= max,
        fitting(ws, max) < ws.len() ==> cells_of(ws, fitting(ws, max) as int) + ws[fitting(
            ws,
            max,
        ) as int] > max,
{
    lemma_fitting_from(ws, 0, max);
    assert(ws.skip(0) =~= ws);
}

proof fn lemma_fitting_from(ws: Seq<usize>, k: int, max: int)
    requires
        0 <= k <= ws.len(),
        cells_of(ws, k) <= max,
    ensures
        k + fitting(ws.skip(k), max - cells_of(ws, k)) <= ws.len(),
        cells_of(ws, k + fitting(ws.skip(k), max - cells_of(ws, k))) <= max,
        k + fitting(ws.skip(k), max - cells_of(ws, k)) < ws.len() ==> cells_of(
            ws,
            k + fitting(ws.skip(k), max - cells_of(ws, k)),
        ) + ws[k + fitting(ws.skip(k), max - cells_of(ws, k))] > max,
    decreases ws.len() - k,
{
    let t = ws.skip(k);
    if k < ws.len() {
        assert(t[0] == ws[k]);
        if cells_of(ws, k) + ws[k] <= max {
            lemma_fitting_step(ws, k, max);
            lemma_fitting_from(ws, k + 1, max);
        }
    }
}

} // verus!
