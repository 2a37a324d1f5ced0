//! The launcher's state: the helpers, the programs, what was typed, and the
//! items on screen that the cursor can move to; and what each key does.
use vstd::prelude::*;
use crate::helpers::{self, Helper};
use crate::search;
use crate::text;

verus! {

/// An item the cursor can rest on.
#[derive(Clone, Copy, PartialEq, Eq, Structural, Debug)]
pub enum Item {
    Helper(usize),
    Prog(usize),
}

/// Where an item you can move to sits on screen, from the last layout.
#[derive(Clone, Copy, PartialEq, Eq, Structural, Debug)]
pub struct Spot {
    pub item: Item,
    pub x: usize,
    pub y: usize,
}

/// The launcher's whole state.
pub struct Launch {
    pub helpers: Vec<Helper>,
    pub progs: Vec<String>,
    pub query: String,
    /// Which helpers hold the query.
    pub lit: Vec<bool>,
    /// The programs that hold the query, best first.
    pub hits: Vec<usize>,
    pub spots: Vec<Spot>,
    pub sel: usize,
}

/// What a key asks of the window around the launcher.
pub enum Step {
    /// Keep reading keys.
    Stay,
    /// Close without running anything.
    Close,
    /// Close and run this command.
    Run(String),
}

/// Whether a spot names an item that exists.
pub open spec fn spot_ok(s: Spot, nhelpers: int, nprogs: int) -> bool {
    match s.item {
        Item::Helper(i) => i < nhelpers,
        Item::Prog(i) => i < nprogs,
    }
}

/// The query as it is matched: trimmed, then in lower case.
pub open spec fn match_key(query: Seq<char>) -> Seq<char> {
    text::lowercase_of(text::trimmed(query))
}

/// The lower-case names of the programs.
pub open spec fn lowered_progs(progs: Seq<String>) -> Seq<Seq<char>> {
    Seq::new(progs.len(), |i: int| text::lowercase_of(progs[i]@))
}

/// Whether a helper is lit for a match key: every helper is, for an
/// empty one; otherwise those whose lower-case name holds it.
pub open spec fn lit_for(name: Seq<char>, q: Seq<char>) -> bool {
    q.len() == 0 || text::holds(text::lowercase_of(name), q)
}

/// The spec fn form of the text of a program or helper command an item
/// stands for.
pub open spec fn item_text(l: Launch, item: Item) -> Seq<char> {
    match item {
        Item::Helper(i) => l.helpers@[i as int].cmd@,
        Item::Prog(i) => l.progs@[i as int]@,
    }
}

impl Launch {
    /// The state holds together: one lit flag per helper, groups in
    /// order, hits and spots that name existing items.
    pub open spec fn wf(self) -> bool {
        &&& self.lit@.len() == self.helpers@.len()
        &&& helpers::groups_in_order(helpers::helpers_text(self.helpers@))
        &&& forall|k: int| 0 <= k < self.hits@.len() ==> (#[trigger] self.hits@[k]) < self.progs@.len()
        &&& forall|k: int|
            0 <= k < self.spots@.len() ==> spot_ok(
                #[trigger] self.spots@[k],
                self.helpers@.len() as int,
                self.progs@.len() as int,
            )
    }

    /// What laying the state out reads: a lit flag for every helper (more
    /// are ignored), groups in order, hits and spots that name existing
    /// items.
    pub open spec fn drawable(self) -> bool {
        &&& self.lit@.len() >= self.helpers@.len()
        &&& helpers::groups_in_order(helpers::helpers_text(self.helpers@))
        &&& forall|k: int| 0 <= k < self.hits@.len() ==> (#[trigger] self.hits@[k]) < self.progs@.len()
        &&& forall|k: int|
            0 <= k < self.spots@.len() ==> spot_ok(
                #[trigger] self.spots@[k],
                self.helpers@.len() as int,
                self.progs@.len() as int,
            )
    }

    /// The lit flags, hits and cursor are those that the query calls for.
    pub open spec fn filtered(self) -> bool {
        let q = match_key(self.query@);
        &&& (q.len() == 0) == (text::trimmed(self.query@).len() == 0)
        &&& self.lit@.len() == self.helpers@.len()
        &&& forall|i: int|
            0 <= i < self.helpers@.len() ==> #[trigger] self.lit@[i] == lit_for(
                self.helpers@[i].name@,
                q,
            )
        &&& search::ranked(lowered_progs(self.progs@), search::byte_lens(self.progs@), q, self.hits@)
        &&& self.sel == 0
    }

    /// A fresh launcher: nothing typed, every helper lit, nothing found yet.
    pub fn new(helpers: Vec<Helper>, progs: Vec<String>) -> (l: Launch)
        requires
            helpers::groups_in_order(helpers::helpers_text(helpers@)),
        ensures
            l.wf(),
            l.helpers == helpers,
            l.progs == progs,
            l.query@.len() == 0,
            l.lit@.len() == helpers@.len(),
            forall|i: int| 0 <= i < l.lit@.len() ==> #[trigger] l.lit@[i],
            l.hits@.len() == 0,
            l.spots@.len() == 0,
            l.sel == 0,
    {
        let mut lit: Vec<bool> = Vec::new();
        let mut i: usize = 0;
        while i < helpers.len()
            invariant
                i <= helpers.len(),
                lit@.len() == i,
                forall|k: int| 0 <= k < i ==> #[trigger] lit@[k],
            decreases helpers.len() - i,
        {
            lit.push(true);
            i = i + 1;
        }
        Launch {
            helpers,
            progs,
            query: String::new(),
            lit,
            hits: Vec::new(),
            spots: Vec::new(),
            sel: 0,
        }
    }
}

/// Whether spot `s` lies in the next column over from `cx`.
pub open spec fn beyond(s: Spot, cx: usize, right: bool) -> bool {
    if right {
        s.x > cx
    } else {
        s.x < cx
    }
}

/// How far spot `s` lies from `(cx, cy)`: across, then down or up.
pub open spec fn gap_to(s: Spot, cx: usize, cy: usize) -> (int, int) {
    (
        if s.x >= cx {
            s.x - cx
        } else {
            cx - s.x
        },
        if s.y >= cy {
            s.y - cy
        } else {
            cy - s.y
        },
    )
}

/// Whether gap `a` is nearer than gap `b`: less across, or as far across
/// and less down or up.
pub open spec fn nearer(a: (int, int), b: (int, int)) -> bool {
    a.0 < b.0 || (a.0 == b.0 && a.1 < b.1)
}

/// Whether spot `j` is the nearest one in the next column over from
/// `cur`, the first of them in the list when several are as near.
pub open spec fn nearest_beyond(spots: Seq<Spot>, cur: Spot, right: bool, j: int) -> bool {
    &&& 0 <= j < spots.len()
    &&& beyond(spots[j], cur.x, right)
    &&& forall|k: int|
        0 <= k < spots.len() && beyond(#[trigger] spots[k], cur.x, right) ==> {
            &&& !nearer(gap_to(spots[k], cur.x, cur.y), gap_to(spots[j], cur.x, cur.y))
            &&& (k < j ==> gap_to(spots[k], cur.x, cur.y) != gap_to(spots[j], cur.x, cur.y))
        }
}

/// The cursor after a move left or right: onto the nearest spot in the
/// next column over, or where it was when there is none.
pub open spec fn moved_sideways(spots: Seq<Spot>, sel: usize, right: bool, new_sel: usize) -> bool {
    if sel < spots.len() && exists|j: int| nearest_beyond(spots, spots[sel as int], right, j) {
        nearest_beyond(spots, spots[sel as int], right, new_sel as int)
    } else {
        new_sel == sel
    }
}

fn distance(a: usize, b: usize) -> (r: usize)
    ensures
        r == if a >= b {
            a - b
        } else {
            b - a
        },
{
    if a >= b {
        a - b
    } else {
        b - a
    }
}

impl Launch {
    /// Left or right: the nearest item in the next column over.
    pub fn sideways(&mut self, right: bool)
        ensures
            moved_sideways(old(self).spots@, old(self).sel, right, final(self).sel),
            final(self).helpers == old(self).helpers,
            final(self).progs == old(self).progs,
            final(self).query == old(self).query,
            final(self).lit == old(self).lit,
            final(self).hits == old(self).hits,
            final(self).spots == old(self).spots,
    {
        if self.sel >= self.spots.len() {
            return;
        }
        let cur = self.spots[self.sel];
        let ghost sp = self.spots@;
        let mut best: Option<usize> = None;
        let mut bx: usize = 0;
        let mut by: usize = 0;
        let mut k: usize = 0;
        while k < self.spots.len()
            invariant
                sp == self.spots@,
                cur == sp[old(self).sel as int],
                old(self).sel < sp.len(),
                k <= sp.len(),
                best is None ==> forall|m: int| 0 <= m < k ==> !beyond(#[trigger] sp[m], cur.x, right),
                best matches Some(j) ==> {
                    &&& j < k
                    &&& beyond(sp[j as int], cur.x, right)
                    &&& gap_to(sp[j as int], cur.x, cur.y) == (bx as int, by as int)
                    &&& forall|m: int|
                        0 <= m < k && beyond(#[trigger] sp[m], cur.x, right) ==> {
                            &&& !nearer(gap_to(sp[m], cur.x, cur.y), (bx as int, by as int))
                            &&& (m < j ==> gap_to(sp[m], cur.x, cur.y) != (bx as int, by as int))
                        }
                },
            decreases sp.len() - k,
        {
            let s = self.spots[k];
            let ahead = if right {
                s.x > cur.x
            } else {
                s.x < cur.x
            };
            if ahead {
                let dx = distance(s.x, cur.x);
                let dy = distance(s.y, cur.y);
                let take = match best {
                    None => true,
                    Some(_) => dx < bx || (dx == bx && dy < by),
                };
                if take {
                    best = Some(k);
                    bx = dx;
                    by = dy;
                }
            }
            k = k + 1;
        }
        match best {
            Some(j) => {
                assert(nearest_beyond(sp, cur, right, j as int));
                self.sel = j;
            },
            None => {
                assert(!exists|j: int| nearest_beyond(sp, cur, right, j));
            },
        }
    }

    /// The lit flags, hits and cursor for the query as it now stands.
    pub fn refilter(&mut self)
        ensures
            final(self).filtered(),
            final(self).helpers == old(self).helpers,
            final(self).progs == old(self).progs,
            final(self).query == old(self).query,
            final(self).spots == old(self).spots,
    {
        let qs = text::chars_of(self.query.as_str());
        let (a, b) = text::trim_bounds(&qs, 0, qs.len());
        assert(qs@.subrange(0, qs.len() as int) =~= qs@);
        let trimmed = text::string_of(&qs, a, b);
        let q = text::lowercase(trimmed.as_str());
        let mut names: Vec<String> = Vec::new();
        let mut i: usize = 0;
        while i < self.helpers.len()
            invariant
                i <= self.helpers.len(),
                names@.len() == i,
                forall|k: int|
                    0 <= k < i ==> (#[trigger] names@[k])@ == text::lowercase_of(
                        self.helpers@[k].name@,
                    ),
            decreases self.helpers.len() - i,
        {
            names.push(text::lowercase(self.helpers[i].name.as_str()));
            i = i + 1;
        }
        self.lit = light(&names, q.as_str());
        self.hits = search::find(self.progs.as_slice(), q.as_str());
        self.sel = 0;
        assert(lowered_progs(self.progs@) =~= Seq::new(
            self.progs@.len(),
            |i: int| text::lowercase_of(self.progs@[i]@),
        ));
    }
}

/// The first line of a text, as `str::lines` yields it: up to the first
/// newline, less a carriage return just before that newline; the whole
/// text when it has no newline.
pub open spec fn first_line(s: Seq<char>) -> Seq<char> {
    if exists|i: int| 0 <= i < s.len() && s[i] == '\n' {
        let p = choose|i: int|
            0 <= i < s.len() && s[i] == '\n' && forall|k: int| 0 <= k < i ==> s[k] != '\n';
        let l = s.take(p);
        if l.len() > 0 && l.last() == '\r' {
            l.drop_last()
        } else {
            l
        }
    } else {
        s
    }
}

/// The query less its last word: trailing whitespace goes, then
/// everything after the last space; nothing is left when there is no space.
pub open spec fn cut_word(q: Seq<char>) -> Seq<char> {
    let u = text::trim_end(q);
    if exists|i: int| 0 <= i < u.len() && u[i] == ' ' {
        let p = choose|i: int|
            0 <= i < u.len() && u[i] == ' ' && forall|k: int| i < k < u.len() ==> u[k] != ' ';
        u.take(p + 1)
    } else {
        Seq::empty()
    }
}

/// The key that carries pasted text begins with these characters.
pub open spec fn paste_mark() -> Seq<char> {
    seq!['P', 'A', 'S', 'T', 'E', '\0']
}

/// Everything but the cursor stayed as it was.
pub open spec fn cursor_only(a: Launch, b: Launch) -> bool {
    &&& b.helpers == a.helpers
    &&& b.progs == a.progs
    &&& b.query == a.query
    &&& b.lit == a.lit
    &&& b.hits == a.hits
    &&& b.spots == a.spots
}

/// The query became `q`, and the lit flags, hits and cursor follow it.
pub open spec fn typed(a: Launch, b: Launch, q: Seq<char>) -> bool {
    &&& b.query@ == q
    &&& b.filtered()
    &&& b.helpers == a.helpers
    &&& b.progs == a.progs
    &&& b.spots == a.spots
}

/// What a key does to the launcher and what it asks of the window.
pub open spec fn after_key(a: Launch, key: Seq<char>, b: Launch, step: Step) -> bool {
    if key == "ESC"@ || key == "F12"@ {
        step is Close && b == a
    } else if key == "ENTER"@ {
        &&& b == a
        &&& if a.sel < a.spots@.len() {
            step matches Step::Run(c) && c@ == item_text(a, a.spots@[a.sel as int].item)
        } else if text::trimmed(a.query@).len() > 0 {
            step matches Step::Run(c) && c@ == text::trimmed(a.query@)
        } else {
            step is Stay
        }
    } else if key == "DOWN"@ || key == "TAB"@ {
        &&& step is Stay
        &&& cursor_only(a, b)
        &&& b.sel == if a.sel + 1 < a.spots@.len() {
            a.sel + 1
        } else {
            a.sel as int
        }
    } else if key == "UP"@ || key == "S-TAB"@ {
        &&& step is Stay
        &&& cursor_only(a, b)
        &&& b.sel == if a.sel > 0 {
            a.sel - 1
        } else {
            0
        }
    } else if key == "LEFT"@ || key == "RIGHT"@ {
        &&& step is Stay
        &&& cursor_only(a, b)
        &&& moved_sideways(a.spots@, a.sel, key == "RIGHT"@, b.sel)
    } else if key == "BACK"@ {
        step is Stay && typed(
            a,
            b,
            if a.query@.len() > 0 {
                a.query@.drop_last()
            } else {
                a.query@
            },
        )
    } else if key == "WBACK"@ || key == "C-W"@ {
        step is Stay && typed(a, b, cut_word(a.query@))
    } else if key == "C-U"@ {
        step is Stay && typed(a, b, Seq::empty())
    } else if text::begins_with(key, paste_mark()) {
        step is Stay && typed(a, b, a.query@ + first_line(key.skip(6)))
    } else if key.len() == 1 {
        step is Stay && typed(a, b, a.query@ + key)
    } else {
        step is Stay && b == a
    }
}

/// The first line of `cs[from..]`.
fn first_line_of(cs: &Vec<char>, from: usize) -> (r: Vec<char>)
    requires
        from <= cs.len(),
    ensures
        r@ == first_line(cs@.skip(from as int)),
{
    let ghost s = cs@.skip(from as int);
    let mut i = from;
    while i < cs.len() && cs[i] != '\n'
        invariant
            from <= i <= cs.len(),
            s == cs@.skip(from as int),
            forall|k: int| 0 <= k < i - from ==> s[k] != '\n',
        decreases cs.len() - i,
    {
        i = i + 1;
    }
    let mut end = i;
    if i < cs.len() {
        assert(s[i - from] == '\n');
        if end > from && cs[end - 1] == '\r' {
            end = end - 1;
        }
    }
    let mut r: Vec<char> = Vec::new();
    let mut k = from;
    while k < end
        invariant
            from <= k <= end <= cs.len(),
            r@ == cs@.subrange(from as int, k as int),
        decreases end - k,
    {
        r.push(cs[k]);
        k = k + 1;
        assert(r@ =~= cs@.subrange(from as int, k as int));
    }
    proof {
        let p = (i - from) as int;
        if i < cs.len() {
            assert(0 <= p < s.len() && s[p] == '\n');
            let q = choose|j: int|
                0 <= j < s.len() && s[j] == '\n' && forall|k: int| 0 <= k < j ==> s[k] != '\n';
            assert(q == p) by {
                if q < p {
                    assert(s[q] != '\n');
                } else if q > p {
                    assert(s[p] != '\n');
                }
            }
            let l = s.take(p);
            if end < i {
                assert(l.last() == cs[end as int]);
                assert(r@ =~= l.drop_last());
            } else {
                assert(r@ =~= l);
            }
        } else {
            assert(r@ =~= s);
            assert(!exists|j: int| 0 <= j < s.len() && s[j] == '\n') by {
                assert forall|j: int| 0 <= j < s.len() implies s[j] != '\n' by {}
            }
        }
    }
    r
}

/// The query less its last word.
fn cut_word_of(qs: &Vec<char>) -> (r: Vec<char>)
    ensures
        r@ == cut_word(qs@),
{
    let t = text::trim_end_len(qs);
    let ghost u = qs@.take(t as int);
    let mut j = t;
    while j > 0 && qs[j - 1] != ' '
        invariant
            j <= t <= qs.len(),
            u == qs@.take(t as int),
            forall|k: int| j <= k < t ==> u[k] != ' ',
        decreases j,
    {
        j = j - 1;
    }
    let mut r: Vec<char> = Vec::new();
    let mut k: usize = 0;
    while k < j
        invariant
            k <= j <= t <= qs.len(),
            r@ == qs@.take(k as int),
        decreases j - k,
    {
        r.push(qs[k]);
        k = k + 1;
        assert(r@ =~= qs@.take(k as int));
    }
    proof {
        if j > 0 {
            let p = j - 1;
            assert(u[p] == ' ');
            let c = choose|i: int|
                0 <= i < u.len() && u[i] == ' ' && forall|k: int| i < k < u.len() ==> u[k] != ' ';
            assert(c == p) by {
                if c < p {
                    assert(u[p] != ' ');
                } else if c > p {
                    assert(u[c] != ' ');
                }
            }
            assert(r@ =~= u.take(p + 1));
        } else {
            assert(!exists|i: int| 0 <= i < u.len() && u[i] == ' ') by {
                assert forall|i: int| 0 <= i < u.len() implies u[i] != ' ' by {}
            }
            assert(r@ =~= Seq::<char>::empty());
        }
    }
    r
}

impl Launch {
    /// The query set to `q`, then filtered again.
    fn set_query(&mut self, q: &Vec<char>)
        requires
            old(self).wf(),
        ensures
            final(self).wf(),
            typed(*old(self), *final(self), q@),
    {
        self.query = text::string_of(q, 0, q.len());
        assert(q@.subrange(0, q.len() as int) =~= q@);
        self.refilter();
    }

    /// One key: what it does to the launcher, and whether the window
    /// should close or run something.
    pub fn handle_key(&mut self, key: &str) -> (step: Step)
        requires
            old(self).wf(),
        ensures
            final(self).wf(),
            after_key(*old(self), key@, *final(self), step),
    {
        if text::same_text(key, "ESC") || text::same_text(key, "F12") {
            return Step::Close;
        }
        if text::same_text(key, "ENTER") {
            if self.sel < self.spots.len() {
                let spot = self.spots[self.sel];
                assert(spot_ok(self.spots@[self.sel as int], self.helpers@.len() as int, self.progs@.len() as int));
                return match spot.item {
                    Item::Helper(i) => Step::Run(self.helpers[i].cmd.clone()),
                    Item::Prog(i) => Step::Run(self.progs[i].clone()),
                };
            }
            let qs = text::chars_of(self.query.as_str());
            let (a, b) = text::trim_bounds(&qs, 0, qs.len());
            assert(qs@.subrange(0, qs.len() as int) =~= qs@);
            if a < b {
                return Step::Run(text::string_of(&qs, a, b));
            }
            return Step::Stay;
        }
        if text::same_text(key, "DOWN") || text::same_text(key, "TAB") {
            if self.spots.len() > 0 && self.sel < self.spots.len() - 1 {
                self.sel = self.sel + 1;
            }
            return Step::Stay;
        }
        if text::same_text(key, "UP") || text::same_text(key, "S-TAB") {
            if self.sel > 0 {
                self.sel = self.sel - 1;
            }
            return Step::Stay;
        }
        let is_left = text::same_text(key, "LEFT");
        let is_right = text::same_text(key, "RIGHT");
        if is_left || is_right {
            self.sideways(is_right);
            return Step::Stay;
        }
        let qs = text::chars_of(self.query.as_str());
        if text::same_text(key, "BACK") {
            let mut q = qs;
            if q.len() > 0 {
                q.pop();
            }
            assert(qs@.len() > 0 ==> q@ =~= qs@.drop_last());
            self.set_query(&q);
            return Step::Stay;
        }
        if text::same_text(key, "WBACK") || text::same_text(key, "C-W") {
            let q = cut_word_of(&qs);
            self.set_query(&q);
            return Step::Stay;
        }
        if text::same_text(key, "C-U") {
            let q: Vec<char> = Vec::new();
            self.set_query(&q);
            return Step::Stay;
        }
        let ks = text::chars_of(key);
        let mark = vec!['P', 'A', 'S', 'T', 'E', '\0'];
        assert(mark@ =~= paste_mark());
        if text::begins_with_exec(&ks, &mark) {
            let line = first_line_of(&ks, 6);
            let mut q = qs;
            let mut k: usize = 0;
            while k < line.len()
                invariant
                    k <= line.len(),
                    q@ == self.query@ + line@.take(k as int),
                decreases line.len() - k,
            {
                q.push(line[k]);
                k = k + 1;
                assert(q@ =~= self.query@ + line@.take(k as int));
            }
            assert(line@.take(line.len() as int) =~= line@);
            self.set_query(&q);
            return Step::Stay;
        }
        if ks.len() == 1 {
            let mut q = qs;
            q.push(ks[0]);
            assert(q@ =~= self.query@ + key@);
            self.set_query(&q);
            return Step::Stay;
        }
        Step::Stay
    }
}

/// How many of the flags are set.
pub open spec fn count_set(flags: Seq<bool>) -> nat
    decreases flags.len(),
{
    if flags.len() == 0 {
        0
    } else {
        count_set(flags.drop_last()) + if flags.last() {
            1nat
        } else {
            0nat
        }
    }
}

impl Launch {
    /// How many helpers are lit, as the bar along the bottom counts them.
    pub fn lit_count(&self) -> (n: usize)
        ensures
            n == count_set(self.lit@),
    {
        let mut n: usize = 0;
        let mut i: usize = 0;
        while i < self.lit.len()
            invariant
                i <= self.lit@.len(),
                n == count_set(self.lit@.take(i as int)),
                n <= i,
            decreases self.lit.len() - i,
        {
            assert(self.lit@.take(i + 1).drop_last() =~= self.lit@.take(i as int));
            if self.lit[i] {
                n = n + 1;
            }
            i = i + 1;
        }
        assert(self.lit@.take(i as int) =~= self.lit@);
        n
    }
}

/// Which names (given in lower case) hold the match key `q`: all of them
/// when `q` is empty.
pub fn light(lowered: &Vec<String>, q: &str) -> (lit: Vec<bool>)
    ensures
        lit@.len() == lowered@.len(),
        forall|i: int|
            0 <= i < lowered@.len() ==> #[trigger] lit@[i] == (q@.len() == 0 || text::holds(
                lowered@[i]@,
                q@,
            )),
{
    let qs = text::chars_of(q);
    let mut lit: Vec<bool> = Vec::new();
    let mut i: usize = 0;
    while i < lowered.len()
        invariant
            qs@ == q@,
            i <= lowered.len(),
            lit@.len() == i,
            forall|k: int|
                0 <= k < i ==> #[trigger] lit@[k] == (q@.len() == 0 || text::holds(
                    lowered@[k]@,
                    q@,
                )),
        decreases lowered.len() - i,
    {
        let name = text::chars_of(lowered[i].as_str());
        let on = qs.len() == 0 || text::holds_exec(&name, &qs);
        lit.push(on);
        i = i + 1;
    }
    lit
}

} // verus!

verus! {

/// With nothing typed (or only spaces), every helper is lit and no
/// program is listed.
pub proof fn law_nothing_typed_lights_every_helper(l: Launch)
    requires
        l.filtered(),
        text::trimmed(l.query@).len() == 0,
    ensures
        forall|i: int| 0 <= i < l.lit@.len() ==> #[trigger] l.lit@[i],
        l.hits@.len() == 0,
{
    assert forall|i: int| 0 <= i < l.lit@.len() implies #[trigger] l.lit@[i] by {
        assert(l.lit@[i] == lit_for(l.helpers@[i].name@, match_key(l.query@)));
    }
}

/// The names of the keys differ in length or in their first character
/// (C-W and C-U in their third).
proof fn lemma_named_keys()
    ensures
        "ESC"@.len() == 3 && "ESC"@[0] == 'E',
        "F12"@.len() == 3 && "F12"@[0] == 'F',
        "ENTER"@.len() == 5 && "ENTER"@[0] == 'E',
        "DOWN"@.len() == 4 && "DOWN"@[0] == 'D',
        "TAB"@.len() == 3 && "TAB"@[0] == 'T',
        "UP"@.len() == 2 && "UP"@[0] == 'U',
        "S-TAB"@.len() == 5 && "S-TAB"@[0] == 'S',
        "LEFT"@.len() == 4 && "LEFT"@[0] == 'L',
        "RIGHT"@.len() == 5 && "RIGHT"@[0] == 'R',
        "BACK"@.len() == 4 && "BACK"@[0] == 'B',
        "WBACK"@.len() == 5 && "WBACK"@[0] == 'W',
        "C-W"@.len() == 3 && "C-W"@[0] == 'C' && "C-W"@[2] == 'W',
        "C-U"@.len() == 3 && "C-U"@[0] == 'C' && "C-U"@[2] == 'U',
{
    reveal_strlit("ESC");
    reveal_strlit("F12");
    reveal_strlit("ENTER");
    reveal_strlit("DOWN");
    reveal_strlit("TAB");
    reveal_strlit("UP");
    reveal_strlit("S-TAB");
    reveal_strlit("LEFT");
    reveal_strlit("RIGHT");
    reveal_strlit("BACK");
    reveal_strlit("WBACK");
    reveal_strlit("C-W");
    reveal_strlit("C-U");
}

/// A character typed and then taken back with BACK leaves the query as it
/// was, with the same helpers lit and the same programs listed when they
/// followed the query before.
pub proof fn law_back_undoes_a_typed_character(
    a: Launch,
    key: Seq<char>,
    b: Launch,
    s1: Step,
    d: Launch,
    s2: Step,
)
    requires
        a.wf(),
        key.len() == 1,
        after_key(a, key, b, s1),
        after_key(b, "BACK"@, d, s2),
    ensures
        d.query@ == a.query@,
        d.filtered(),
        d.helpers == a.helpers,
        d.progs == a.progs,
        d.spots == a.spots,
        a.filtered() ==> d.lit@ == a.lit@ && d.hits@ == a.hits@,
{
    lemma_named_keys();
    assert(!text::begins_with(key, paste_mark()));
    assert(b.query@ == a.query@ + key);
    assert(b.query@.drop_last() =~= a.query@);
    if a.filtered() {
        assert(d.lit@ =~= a.lit@) by {
            assert forall|i: int| 0 <= i < d.lit@.len() implies d.lit@[i] == a.lit@[i] by {
                assert(d.lit@[i] == lit_for(d.helpers@[i].name@, match_key(d.query@)));
                assert(a.lit@[i] == lit_for(a.helpers@[i].name@, match_key(a.query@)));
            }
        }
        search::law_ranking_is_unique(
            lowered_progs(a.progs@),
            search::byte_lens(a.progs@),
            match_key(a.query@),
            d.hits@,
            a.hits@,
        );
    }
}

/// C-U clears what was typed: every helper is lit again and no program is
/// listed.
pub proof fn law_clear_lights_every_helper(a: Launch, b: Launch, s: Step)
    requires
        a.wf(),
        after_key(a, "C-U"@, b, s),
    ensures
        b.query@.len() == 0,
        forall|i: int| 0 <= i < b.lit@.len() ==> #[trigger] b.lit@[i],
        b.hits@.len() == 0,
{
    lemma_named_keys();
    assert(text::trimmed(b.query@).len() == 0) by {
        reveal(text::trimmed);
        assert(b.query@ =~= Seq::<char>::empty());
    }
    law_nothing_typed_lights_every_helper(b);
}

/// The keys that move the cursor keep it on a spot when it was on one.
pub proof fn law_moves_stay_on_spots(a: Launch, key: Seq<char>, b: Launch, s: Step)
    requires
        a.wf(),
        a.sel < a.spots@.len(),
        key == "DOWN"@ || key == "TAB"@ || key == "UP"@ || key == "S-TAB"@ || key == "LEFT"@
            || key == "RIGHT"@,
        after_key(a, key, b, s),
    ensures
        b.sel < b.spots@.len(),
        b.spots == a.spots,
{
    lemma_named_keys();
}

/// A move left or right that moves the cursor lands in the next column
/// over, on the side asked for.
pub proof fn law_sideways_goes_the_way_asked(spots: Seq<Spot>, sel: usize, right: bool, new_sel: usize)
    requires
        moved_sideways(spots, sel, right, new_sel),
        new_sel != sel,
    ensures
        sel < spots.len(),
        new_sel < spots.len(),
        beyond(spots[new_sel as int], spots[sel as int].x, right),
{
}

/// Once the query is filtered (as `refilter` and every key that changes
/// the query leave it), a helper is lit exactly when nothing but spaces
/// was typed, or its lower-case name holds the trimmed, lower-cased query
/// somewhere: at the start, in the middle or at the end.
pub proof fn law_lit_helpers_hold_the_query(l: Launch, i: int)
    requires
        l.filtered(),
        0 <= i < l.helpers@.len(),
    ensures
        l.lit@[i] == ({
            let q = text::lowercase_of(text::trimmed(l.query@));
            let name = text::lowercase_of(l.helpers@[i].name@);
            q.len() == 0 || exists|p: int|
                0 <= p && p + q.len() <= name.len() && #[trigger] name.subrange(p, p + q.len()) == q
        }),
{
    let q = text::lowercase_of(text::trimmed(l.query@));
    let name = text::lowercase_of(l.helpers@[i].name@);
    assert(l.lit@[i] == lit_for(l.helpers@[i].name@, q));
    if q.len() > 0 {
        if text::holds(name, q) {
            let p = choose|p: int| text::occurs_at(name, q, p);
            assert(name.subrange(p, p + q.len()) == q);
        }
        if exists|p: int| 0 <= p && p + q.len() <= name.len() && #[trigger] name.subrange(p, p + q.len()) == q {
            let p = choose|p: int|
                0 <= p && p + q.len() <= name.len() && #[trigger] name.subrange(p, p + q.len()) == q;
            assert(text::occurs_at(name, q, p));
        }
    }
}

/// DOWN and TAB move the cursor one spot on, and no further: when there is
/// a next spot it lands there, otherwise it stays. Nothing but the cursor
/// changes, and the window stays open.
pub proof fn law_down_moves_one_spot(a: Launch, key: Seq<char>, b: Launch, s: Step)
    requires
        a.wf(),
        key == "DOWN"@ || key == "TAB"@,
        after_key(a, key, b, s),
    ensures
        a.sel + 1 < a.spots@.len() ==> b.sel == a.sel + 1,
        a.sel + 1 >= a.spots@.len() ==> b.sel == a.sel,
        b.query == a.query && b.lit == a.lit && b.hits == a.hits && b.spots == a.spots,
        s is Stay,
{
    lemma_named_keys();
}

/// UP and S-TAB move the cursor one spot back, and stay on the first.
pub proof fn law_up_moves_one_spot(a: Launch, key: Seq<char>, b: Launch, s: Step)
    requires
        a.wf(),
        key == "UP"@ || key == "S-TAB"@,
        after_key(a, key, b, s),
    ensures
        a.sel > 0 ==> b.sel + 1 == a.sel,
        a.sel == 0 ==> b.sel == 0,
        b.query == a.query && b.lit == a.lit && b.hits == a.hits && b.spots == a.spots,
        s is Stay,
{
    lemma_named_keys();
}

/// A text with a space has a last one.
proof fn lemma_last_space(u: Seq<char>, i: int)
    requires
        0 <= i < u.len(),
        u[i] == ' ',
    ensures
        exists|j: int| 0 <= j < u.len() && u[j] == ' ' && forall|k: int| j < k < u.len() ==> u[k] != ' ',
    decreases u.len() - i,
{
    if exists|k: int| i < k < u.len() && u[k] == ' ' {
        let k = choose|k: int| i < k < u.len() && u[k] == ' ';
        lemma_last_space(u, k);
    } else {
        assert(forall|k: int| i < k < u.len() ==> u[k] != ' ');
    }
}

/// C-W (or WBACK) takes off the last word and only that: the new query is
/// a beginning of the old one less its trailing whitespace, it is empty or
/// ends in a space, and what was taken off holds no space.
pub proof fn law_word_back_takes_the_last_word(a: Launch, key: Seq<char>, b: Launch, s: Step)
    requires
        a.wf(),
        key == "C-W"@ || key == "WBACK"@,
        after_key(a, key, b, s),
    ensures
        ({
            let u = text::trim_end(a.query@);
            &&& b.query@.len() <= u.len()
            &&& b.query@ == u.take(b.query@.len() as int)
            &&& b.query@.len() == 0 || b.query@.last() == ' '
            &&& forall|k: int| b.query@.len() <= k < u.len() ==> u[k] != ' '
        }),
{
    lemma_named_keys();
    let u = text::trim_end(a.query@);
    assert(b.query@ == cut_word(a.query@));
    if exists|i: int| 0 <= i < u.len() && u[i] == ' ' {
        let w = choose|i: int| 0 <= i < u.len() && u[i] == ' ';
        lemma_last_space(u, w);
        let p = choose|i: int|
            0 <= i < u.len() && u[i] == ' ' && forall|k: int| i < k < u.len() ==> u[k] != ' ';
        assert(b.query@ =~= u.take(p + 1));
        assert(b.query@.last() == u[p]);
    } else {
        assert(b.query@ =~= Seq::<char>::empty());
    }
}

/// A key of one character that names no other key adds that character to
/// the end of the query, and only that.
pub proof fn law_typing_adds_the_character(a: Launch, key: Seq<char>, b: Launch, s: Step)
    requires
        a.wf(),
        key.len() == 1,
        after_key(a, key, b, s),
    ensures
        b.query@.len() == a.query@.len() + 1,
        b.query@.last() == key[0],
        b.query@.drop_last() == a.query@,
        s is Stay,
{
    lemma_named_keys();
    assert(!text::begins_with(key, paste_mark()));
    assert(b.query@ == a.query@ + key);
    assert(b.query@.drop_last() =~= a.query@);
}

/// BACK takes the last character off the query, and leaves an empty
/// query empty.
pub proof fn law_back_takes_one_character(a: Launch, b: Launch, s: Step)
    requires
        a.wf(),
        after_key(a, "BACK"@, b, s),
    ensures
        a.query@.len() > 0 ==> b.query@.len() + 1 == a.query@.len() && b.query@ == a.query@.take(
            b.query@.len() as int,
        ),
        a.query@.len() == 0 ==> b.query@.len() == 0,
        s is Stay,
{
    lemma_named_keys();
    if a.query@.len() > 0 {
        assert(a.query@.drop_last() =~= a.query@.take(a.query@.len() - 1));
    }
}

/// ESC and F12 close the window, run nothing and change nothing.
pub proof fn law_escape_closes(a: Launch, key: Seq<char>, b: Launch, s: Step)
    requires
        a.wf(),
        key == "ESC"@ || key == "F12"@,
        after_key(a, key, b, s),
    ensures
        s is Close,
        b == a,
{
    lemma_named_keys();
}

/// ENTER runs the item under the cursor: a helper's command or a
/// program's name; with the cursor on no item, what was typed less the
/// whitespace at its ends; with nothing typed, nothing. Nothing changes.
pub proof fn law_enter_runs_the_selection(a: Launch, b: Launch, s: Step)
    requires
        a.wf(),
        after_key(a, "ENTER"@, b, s),
    ensures
        b == a,
        a.sel < a.spots@.len() ==> match a.spots@[a.sel as int].item {
            Item::Helper(i) => s matches Step::Run(c) && c@ == a.helpers@[i as int].cmd@,
            Item::Prog(i) => s matches Step::Run(c) && c@ == a.progs@[i as int]@,
        },
        a.sel >= a.spots@.len() && text::trimmed(a.query@).len() > 0 ==> (s matches Step::Run(c)
            && c@ == text::trimmed(a.query@)),
        a.sel >= a.spots@.len() && text::trimmed(a.query@).len() == 0 ==> s is Stay,
{
    lemma_named_keys();
}

/// A paste adds to the query the pasted text up to its first line end:
/// the part added holds no newline, and it is all that was pasted, or
/// what follows it is a newline (with no carriage return kept before it)
/// or a carriage return and a newline.
pub proof fn law_paste_adds_the_first_line(a: Launch, key: Seq<char>, b: Launch, s: Step)
    requires
        a.wf(),
        text::begins_with(key, paste_mark()),
        after_key(a, key, b, s),
    ensures
        ({
            let r = key.skip(6);
            let t = b.query@.skip(a.query@.len() as int);
            &&& b.query@ == a.query@ + t
            &&& forall|k: int| 0 <= k < t.len() ==> t[k] != '\n'
            &&& t.len() <= r.len()
            &&& r.take(t.len() as int) == t
            &&& t.len() == r.len() || (r[t.len() as int] == '\n' && (t.len() == 0 || t.last()
                != '\r')) || (t.len() + 1 < r.len() && r[t.len() as int] == '\r' && r[t.len() + 1int]
                == '\n')
        }),
        s is Stay,
{
    lemma_named_keys();
    let r = key.skip(6);
    assert(key.len() >= 6);
    assert(key.len() != 1);
    assert(key != "BACK"@ && key != "WBACK"@ && key != "C-W"@ && key != "C-U"@ && key != "ESC"@
        && key != "F12"@ && key != "ENTER"@ && key != "DOWN"@ && key != "TAB"@ && key != "UP"@
        && key != "S-TAB"@ && key != "LEFT"@ && key != "RIGHT"@) by {
        assert(key[0] == 'P');
    }
    let f = first_line(r);
    assert(b.query@ == a.query@ + f);
    let t = b.query@.skip(a.query@.len() as int);
    assert(t =~= f);
    if exists|i: int| 0 <= i < r.len() && r[i] == '\n' {
        let w = choose|i: int| 0 <= i < r.len() && r[i] == '\n';
        lemma_first_newline(r, w);
        let p = choose|i: int|
            0 <= i < r.len() && r[i] == '\n' && forall|k: int| 0 <= k < i ==> r[k] != '\n';
        let l = r.take(p);
        if l.len() > 0 && l.last() == '\r' {
            assert(f =~= l.drop_last());
            assert(r.take(f.len() as int) =~= f);
            assert(r[f.len() as int] == l.last());
        } else {
            assert(f =~= l);
            assert(r.take(f.len() as int) =~= f);
        }
    } else {
        assert(f == r);
        assert(r.take(f.len() as int) =~= f);
    }
}

/// A text with a newline has a first one.
proof fn lemma_first_newline(r: Seq<char>, w: int)
    requires
        0 <= w < r.len(),
        r[w] == '\n',
    ensures
        exists|i: int| 0 <= i < r.len() && r[i] == '\n' && forall|k: int| 0 <= k < i ==> r[k] != '\n',
    decreases w,
{
    if exists|k: int| 0 <= k < w && r[k] == '\n' {
        let k = choose|k: int| 0 <= k < w && r[k] == '\n';
        lemma_first_newline(r, k);
    } else {
        assert(forall|k: int| 0 <= k < w ==> r[k] != '\n');
    }
}

} // verus!
