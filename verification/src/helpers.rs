//! The helpers file: one helper per line, `Name [Hotkey] = command`, the
//! hotkey optional, `#` for a comment, a blank line between groups.
use vstd::prelude::*;
use crate::text;

verus! {

/// One line of the helpers file.
pub struct Helper {
    pub name: String,
    pub hot: String,
    pub cmd: String,
    pub group: usize,
}

/// A helper as plain text: name, hotkey, command and group.
pub type HelperText = (Seq<char>, Seq<char>, Seq<char>, nat);

/// The text of a helper.
pub open spec fn helper_text(h: Helper) -> HelperText {
    (h.name@, h.hot@, h.cmd@, h.group as nat)
}

/// The text of each helper of a list.
pub open spec fn helpers_text(hs: Seq<Helper>) -> Seq<HelperText> {
    Seq::new(hs.len(), |i: int| helper_text(hs[i]))
}

/// The lines of a text, split at each newline. A text that ends with a
/// newline has an empty last line; an empty text is one empty line.
pub open spec fn lines_of(text: Seq<char>) -> Seq<Seq<char>>
    decreases text.len(),
{
    if text.len() == 0 {
        seq![Seq::empty()]
    } else {
        let ls = lines_of(text.drop_last());
        if text.last() == '\n' {
            ls.push(Seq::empty())
        } else {
            ls.update(ls.len() - 1, ls.last().push(text.last()))
        }
    }
}

/// Whether the separator ` = ` between a helper's name and its command
/// stands in the line at position `i`.
pub open spec fn sep_at(t: Seq<char>, i: int) -> bool {
    0 <= i && i + 3 <= t.len() && t[i] == ' ' && t[i + 1] == '=' && t[i + 2] == ' '
}

/// Whether the line has a separator at all.
pub open spec fn has_separator(t: Seq<char>) -> bool {
    exists|i: int| sep_at(t, i)
}

/// Where the first separator of the line stands.
pub open spec fn first_separator(t: Seq<char>) -> int {
    choose|i: int|
        sep_at(t, i) && forall|j: int|
            0 <= j < i ==> !sep_at(t, j)
}

/// Whether the name part ends in `[key]`: a `]` at its end and a `[`
/// somewhere before it.
pub open spec fn has_key(left: Seq<char>) -> bool {
    left.len() > 0 && left.last() == ']' && exists|j: int|
        0 <= j < left.len() - 1 && left[j] == '['
}

/// The last `[` before the closing `]`.
pub open spec fn key_open(left: Seq<char>) -> int {
    choose|j: int|
        0 <= j < left.len() - 1 && left[j] == '[' && forall|k: int|
            j < k < left.len() - 1 ==> left[k] != '['
}

/// The name and the hotkey of a name part: split at the last `[` when it
/// ends in `]`, both halves trimmed; otherwise the whole is the name.
pub open spec fn name_and_key(left: Seq<char>) -> (Seq<char>, Seq<char>) {
    if has_key(left) {
        let j = key_open(left);
        (text::trimmed(left.take(j)), text::trimmed(left.subrange(j + 1, left.len() - 1)))
    } else {
        (left, Seq::empty())
    }
}

/// A trimmed line that holds a separator as a helper: what stands before
/// the first separator names it, what stands after is the command.
#[verifier::opaque]
pub open spec fn entry_of(t: Seq<char>) -> (Seq<char>, Seq<char>, Seq<char>) {
    let i = first_separator(t);
    let nk = name_and_key(text::trimmed(t.take(i)));
    (nk.0, nk.1, text::trimmed(t.skip(i + 3)))
}

/// Whether a line is a comment.
pub open spec fn is_comment(t: Seq<char>) -> bool {
    t.len() > 0 && t[0] == '#'
}

/// Reading state after some lines: the helpers so far, the current group,
/// and whether a blank line has come since the last helper.
pub type Reading = (Seq<HelperText>, nat, bool);

/// The state after reading one more line. A comment changes nothing; a
/// blank line after some helper opens a new group for the next helper; a
/// line without a separator is passed over.
#[verifier::opaque]
pub open spec fn read_line(st: Reading, line: Seq<char>) -> Reading {
    let t = text::trimmed(line);
    if is_comment(t) {
        st
    } else if t.len() == 0 {
        (st.0, st.1, st.0.len() > 0)
    } else if !has_separator(t) {
        st
    } else {
        let g = if st.2 {
            st.1 + 1
        } else {
            st.1
        };
        let e = entry_of(t);
        (st.0.push((e.0, e.1, e.2, g)), g, false)
    }
}

/// The state after reading the given lines in order.
pub open spec fn read_lines(lines: Seq<Seq<char>>) -> Reading
    decreases lines.len(),
{
    if lines.len() == 0 {
        (Seq::empty(), 0, false)
    } else {
        read_line(read_lines(lines.drop_last()), lines.last())
    }
}

/// The helpers a text describes.
pub open spec fn helpers_in(text: Seq<char>) -> Seq<HelperText> {
    read_lines(lines_of(text)).0
}

/// The groups of a list of helpers start at 0 and grow by at most one
/// from each helper to the next.
pub open spec fn groups_in_order(hs: Seq<HelperText>) -> bool {
    &&& hs.len() > 0 ==> hs[0].3 == 0
    &&& forall|i: int|
        0 < i < hs.len() ==> hs[i - 1].3 <= #[trigger] hs[i].3 <= hs[i - 1].3 + 1
}

/// Every command is trimmed and not empty.
pub open spec fn commands_present(hs: Seq<HelperText>) -> bool {
    forall|i: int| 0 <= i < hs.len() ==> (#[trigger] hs[i]).2.len() > 0 && text::trimmed(hs[i].2) == hs[i].2
}

/// The command of a helper is never empty and has no whitespace at
/// either end.
proof fn lemma_entry_command(t: Seq<char>)
    requires
        has_separator(t),
        text::trimmed(t) == t,
    ensures
        entry_of(t).2.len() > 0,
        text::trimmed(entry_of(t).2) == entry_of(t).2,
{
    reveal(entry_of);
    let i = first_separator(t);
    let w = choose|i: int| sep_at(t, i);
    lemma_first_exists(t, w);
    text::lemma_trimmed_is_trimmed(t);
    let rest = t.skip(i + 3);
    assert(t[i + 2] == ' ');
    assert(rest.len() > 0) by {
        if rest.len() == 0 {
            assert(t.last() == t[i + 2]);
        }
    }
    assert(rest.last() == t.last());
    text::lemma_trimmed_is_trimmed(rest);
    text::lemma_trim_nonempty(rest);
}

proof fn lemma_first_is(t: Seq<char>, k: int)
    requires
        sep_at(t, k),
        forall|j: int| 0 <= j < k ==> !sep_at(t, j),
    ensures
        first_separator(t) == k,
{
    let f = first_separator(t);
    assert(sep_at(t, f) && forall|j: int| 0 <= j < f ==> !sep_at(t, j));
    if f < k {
        assert(!sep_at(t, f));
    } else if f > k {
        assert(!sep_at(t, k));
    }
}

proof fn lemma_first_exists(t: Seq<char>, w: int)
    requires
        sep_at(t, w),
    ensures
        exists|i: int| sep_at(t, i) && forall|j: int| 0 <= j < i ==> !sep_at(t, j),
    decreases w,
{
    if exists|j: int| 0 <= j < w && sep_at(t, j) {
        let j = choose|j: int| 0 <= j < w && sep_at(t, j);
        lemma_first_exists(t, j);
    }
}

/// What reading lines always keeps: groups start at 0 and grow by one at
/// most, the current group is that of the last helper, commands are
/// present, and a pending blank line implies some helper came before.
pub open spec fn reading_ordered(st: Reading) -> bool {
    &&& groups_in_order(st.0)
    &&& commands_present(st.0)
    &&& st.0.len() > 0 ==> st.1 == st.0.last().3
    &&& st.0.len() == 0 ==> st.1 == 0
    &&& st.2 ==> st.0.len() > 0
}

proof fn lemma_read_line_ordered(st: Reading, line: Seq<char>)
    requires
        reading_ordered(st),
    ensures
        reading_ordered(read_line(st, line)),
{
    reveal(read_line);
    let t = text::trimmed(line);
    if !is_comment(t) && t.len() > 0 && has_separator(t) {
        text::lemma_trimmed_is_trimmed(line);
        lemma_entry_command(t);
        let after = read_line(st, line);
        assert(after.0 == st.0.push(after.0.last()));
        assert forall|i: int| 0 < i < after.0.len() implies after.0[i - 1].3 <= #[trigger] after.0[i].3
            <= after.0[i - 1].3 + 1 by {
            if i < after.0.len() - 1 {
                assert(after.0[i] == st.0[i]);
                assert(after.0[i - 1] == st.0[i - 1]);
            }
        }
        assert forall|i: int| 0 <= i < after.0.len() implies (#[trigger] after.0[i]).2.len() > 0
            && text::trimmed(after.0[i].2) == after.0[i].2 by {
            if i < after.0.len() - 1 {
                assert(after.0[i] == st.0[i]);
            }
        }
    }
}

/// Reading any lines keeps the groups in order and every command present.
pub proof fn lemma_reading_keeps_order(lines: Seq<Seq<char>>)
    ensures
        reading_ordered(read_lines(lines)),
    decreases lines.len(),
{
    if lines.len() > 0 {
        lemma_reading_keeps_order(lines.drop_last());
        lemma_read_line_ordered(read_lines(lines.drop_last()), lines.last());
    }
}

/// Where the first separator stands in `line[a..b]`, counted from `a`.
fn find_separator(line: &Vec<char>, a: usize, b: usize) -> (r: Option<usize>)
    requires
        a <= b <= line.len(),
    ensures
        r is None ==> !has_separator(line@.subrange(a as int, b as int)),
        r matches Some(k) ==> {
            &&& a + k + 3 <= b
            &&& sep_at(line@.subrange(a as int, b as int), k as int)
            &&& first_separator(line@.subrange(a as int, b as int)) == k
        },
{
    let ghost t = line@.subrange(a as int, b as int);
    let mut i = a;
    while i < b && b - i >= 3
        invariant
            a <= i <= b <= line.len(),
            t == line@.subrange(a as int, b as int),
            forall|j: int| 0 <= j < i - a ==> !sep_at(t, j),
        decreases b - i,
    {
        assert(t[i - a] == line[i as int]);
        assert(t[i - a + 1] == line[i + 1]);
        assert(t[i - a + 2] == line[i + 2]);
        if line[i] == ' ' && line[i + 1] == '=' && line[i + 2] == ' ' {
            proof {
                lemma_first_is(t, i - a);
            }
            return Some(i - a);
        }
        i = i + 1;
    }
    assert forall|j: int| !sep_at(t, j) by {
        if 0 <= j && j + 3 <= t.len() {
            assert(j < i - a);
        }
    }
    None
}

/// Where the last `[` stands in `line[a..e]`, counted from `a`.
fn find_last_open(line: &Vec<char>, a: usize, e: usize) -> (r: Option<usize>)
    requires
        a <= e <= line.len(),
    ensures
        r is None ==> forall|m: int| a <= m < e ==> line[m] != '[',
        r matches Some(o) ==> {
            &&& a + o < e
            &&& line[a + o] == '['
            &&& forall|m: int| a + o < m < e ==> line[m] != '['
        },
{
    let mut j = e;
    while j > a
        invariant
            a <= j <= e <= line.len(),
            forall|m: int| j <= m < e ==> line[m] != '[',
        decreases j,
    {
        if line[j - 1] == '[' {
            return Some(j - 1 - a);
        }
        j = j - 1;
    }
    None
}

/// The name and the hotkey of the name part `line[la..lb]`.
fn split_key(line: &Vec<char>, la: usize, lb: usize) -> (r: (String, String))
    requires
        la <= lb <= line.len(),
    ensures
        (r.0@, r.1@) == name_and_key(line@.subrange(la as int, lb as int)),
{
    let ghost left = line@.subrange(la as int, lb as int);
    if la < lb && line[lb - 1] == ']' {
        assert(left.last() == line[lb - 1]);
        match find_last_open(line, la, lb - 1) {
            Some(o) => {
                let j = la + o;
                assert(left[o as int] == line[j as int]);
                assert(has_key(left));
                assert(key_open(left) == o) by {
                    let q = key_open(left);
                    assert(left[q] == line[la + q]);
                    if q < o {
                        assert(left[o as int] == '[');
                    }
                }
                let (na, nb) = text::trim_bounds(line, la, j);
                assert(line@.subrange(la as int, j as int) =~= left.take(o as int));
                let (ha, hb) = text::trim_bounds(line, j + 1, lb - 1);
                assert(line@.subrange(j + 1, lb - 1) =~= left.subrange(o + 1, left.len() - 1));
                (text::string_of(line, na, nb), text::string_of(line, ha, hb))
            },
            None => {
                assert(!has_key(left)) by {
                    assert forall|m: int| !(0 <= m < left.len() - 1 && left[m] == '[') by {
                        if 0 <= m < left.len() - 1 {
                            assert(left[m] == line[la + m]);
                        }
                    }
                }
                (text::string_of(line, la, lb), String::new())
            },
        }
    } else {
        assert(!has_key(left)) by {
            if lb > la {
                assert(left.last() == line[lb - 1]);
            }
        }
        (text::string_of(line, la, lb), String::new())
    }
}

/// The name, hotkey and command of the trimmed line `line[a..b]`, whose
/// first separator stands `k` characters in.
fn read_entry(line: &Vec<char>, a: usize, b: usize, k: usize) -> (r: (String, String, String))
    requires
        a <= b <= line.len(),
        a + k + 3 <= b,
        first_separator(line@.subrange(a as int, b as int)) == k,
    ensures
        (r.0@, r.1@, r.2@) == entry_of(line@.subrange(a as int, b as int)),
{
    let ghost t = line@.subrange(a as int, b as int);
    let i = a + k;
    let (la, lb) = text::trim_bounds(line, a, i);
    assert(line@.subrange(a as int, i as int) =~= t.take(k as int));
    let (ca, cb) = text::trim_bounds(line, i + 3, b);
    assert(line@.subrange(i + 3, b as int) =~= t.skip(k + 3));
    let cmd = text::string_of(line, ca, cb);
    let (name, hot) = split_key(line, la, lb);
    assert(entry_of(t) == (name@, hot@, cmd@)) by {
        reveal(entry_of);
    }
    (name, hot, cmd)
}

proof fn lemma_read_passes(st: Reading, line: Seq<char>)
    requires
        is_comment(text::trimmed(line)) || (text::trimmed(line).len() > 0 && !has_separator(
            text::trimmed(line),
        )),
    ensures
        read_line(st, line) == st,
{
    reveal(read_line);
}

proof fn lemma_read_blank(st: Reading, line: Seq<char>)
    requires
        text::trimmed(line).len() == 0,
    ensures
        read_line(st, line) == (st.0, st.1, st.0.len() > 0),
{
    reveal(read_line);
}

proof fn lemma_read_entry(st: Reading, line: Seq<char>, e: (Seq<char>, Seq<char>, Seq<char>))
    requires
        !is_comment(text::trimmed(line)),
        text::trimmed(line).len() > 0,
        has_separator(text::trimmed(line)),
        e == entry_of(text::trimmed(line)),
    ensures
        read_line(st, line) == ({
            let g = if st.2 {
                st.1 + 1
            } else {
                st.1
            };
            (st.0.push((e.0, e.1, e.2, g)), g, false)
        }),
{
    reveal(read_line);
}

/// One line read into the plain reading state.
#[verifier::rlimit(30)]
fn take_line(line: &Vec<char>, out: &mut Vec<Helper>, group: &mut usize, gap: &mut bool)
    requires
        old(out).len() + line.len() <= usize::MAX,
        *old(group) <= old(out).len(),
    ensures
        helpers_text(final(out)@) == read_line(
            (helpers_text(old(out)@), *old(group) as nat, *old(gap)),
            line@,
        ).0,
        *final(group) as nat == read_line(
            (helpers_text(old(out)@), *old(group) as nat, *old(gap)),
            line@,
        ).1,
        *final(gap) == read_line(
            (helpers_text(old(out)@), *old(group) as nat, *old(gap)),
            line@,
        ).2,
        final(out).len() <= old(out).len() + line.len(),
        *final(group) <= final(out).len(),
{
    let ghost st: Reading = (helpers_text(old(out)@), *old(group) as nat, *old(gap));
    let (a, b) = text::trim_bounds(line, 0, line.len());
    let ghost t = line@.subrange(a as int, b as int);
    assert(line@.subrange(0, line.len() as int) =~= line@);
    assert(t == text::trimmed(line@));
    if a < b && line[a] == '#' {
        assert(t[0] == line[a as int]);
        proof {
            lemma_read_passes(st, line@);
        }
        return;
    }
    if a == b {
        *gap = out.len() > 0;
        proof {
            lemma_read_blank(st, line@);
        }
        return;
    }
    assert(!is_comment(t));
    let found = find_separator(line, a, b);
    if found.is_none() {
        proof {
            lemma_read_passes(st, line@);
        }
        return;
    }
    let k = found.unwrap();
    assert(has_separator(t));
    let (name, hot, cmd) = read_entry(line, a, b, k);
    let ghost e = (name@, hot@, cmd@);
    proof {
        lemma_read_entry(st, line@, e);
    }
    let ghost g: nat = if st.2 {
        st.1 + 1
    } else {
        st.1
    };
    assert(read_line(st, line@) == (st.0.push((e.0, e.1, e.2, g)), g, false));
    push_entry(out, group, gap, name, hot, cmd);
    assert(*group as nat == g);
    assert(helpers_text(out@) =~= st.0.push((e.0, e.1, e.2, g)));
}

/// A helper appended in the group that the reading state calls for.
fn push_entry(
    out: &mut Vec<Helper>,
    group: &mut usize,
    gap: &mut bool,
    name: String,
    hot: String,
    cmd: String,
)
    requires
        old(out).len() < usize::MAX,
        *old(group) <= old(out).len(),
    ensures
        *final(group) == if *old(gap) {
            *old(group) + 1
        } else {
            *old(group) as int
        },
        !*final(gap),
        helpers_text(final(out)@) == helpers_text(old(out)@).push(
            (name@, hot@, cmd@, *final(group) as nat),
        ),
        final(out).len() == old(out).len() + 1,
{
    let g: usize = if *gap {
        *group + 1
    } else {
        *group
    };
    let ghost entry: HelperText = (name@, hot@, cmd@, g as nat);
    let h = Helper { name, hot, cmd, group: g };
    out.push(h);
    assert(helpers_text(out@) =~= helpers_text(old(out)@).push(entry)) by {
        assert forall|i: int| 0 <= i < out@.len() implies #[trigger] helpers_text(out@)[i]
            == helpers_text(old(out)@).push(entry)[i] by {
            if i < out@.len() - 1 {
                assert(out@[i] == old(out)@[i]);
            }
        }
    }
    *group = g;
    *gap = false;
}

/// The helpers that the text of the helpers file describes, in order.
pub fn parse_helpers(text: &str) -> (out: Vec<Helper>)
    ensures
        helpers_text(out@) == helpers_in(text@),
        groups_in_order(helpers_text(out@)),
        commands_present(helpers_text(out@)),
{
    let cs = text::chars_of(text);
    let mut out: Vec<Helper> = Vec::new();
    let mut group: usize = 0;
    let mut gap = false;
    let mut line: Vec<char> = Vec::new();
    let mut k: usize = 0;
    while k < cs.len()
        invariant
            k <= cs.len(),
            cs@ == text@,
            lines_of(cs@.take(k as int)).last() == line@,
            (helpers_text(out@), group as nat, gap) == read_lines(
                lines_of(cs@.take(k as int)).drop_last(),
            ),
            out.len() + line.len() <= k,
            group <= out.len(),
        decreases cs.len() - k,
    {
        let ghost prefix = cs@.take(k as int);
        let ghost ls = lines_of(prefix);
        proof {
            lemma_lines_nonempty(prefix);
        }
        assert(cs@.take(k + 1).drop_last() =~= prefix);
        assert(cs@.take(k + 1).last() == cs[k as int]);
        if cs[k] == '\n' {
            take_line(&line, &mut out, &mut group, &mut gap);
            line = Vec::new();
            proof {
                let nls = ls.push(Seq::empty());
                assert(nls.drop_last() =~= ls);
                assert(ls.drop_last().push(ls.last()) =~= ls);
                assert(read_lines(ls) == read_line(read_lines(ls.drop_last()), ls.last()));
            }
        } else {
            line.push(cs[k]);
            proof {
                let nls = ls.update(ls.len() - 1, ls.last().push(cs[k as int]));
                assert(nls.drop_last() =~= ls.drop_last());
            }
        }
        k = k + 1;
    }
    assert(cs@.take(k as int) =~= cs@);
    proof {
        lemma_lines_nonempty(cs@);
    }
    let ghost ls = lines_of(cs@);
    take_line(&line, &mut out, &mut group, &mut gap);
    proof {
        assert(ls.drop_last().push(ls.last()) =~= ls);
        lemma_reading_keeps_order(ls);
    }
    out
}

proof fn lemma_lines_nonempty(text: Seq<char>)
    ensures
        lines_of(text).len() >= 1,
    decreases text.len(),
{
    if text.len() > 0 {
        lemma_lines_nonempty(text.drop_last());
    }
}

/// A blank line between two helper lines opens a new group: the helper
/// after it is one group further on than the helpers before it. With no
/// blank line since the last helper, the next one stays in its group.
pub proof fn law_blank_line_opens_a_group(
    lines: Seq<Seq<char>>,
    blank: Seq<char>,
    entry: Seq<char>,
)
    requires
        read_lines(lines).0.len() > 0,
        text::trimmed(blank).len() == 0,
        !is_comment(text::trimmed(entry)),
        text::trimmed(entry).len() > 0,
        has_separator(text::trimmed(entry)),
    ensures
        read_lines(lines.push(blank).push(entry)).0.last().3 == read_lines(lines).0.last().3 + 1,
        read_lines(lines.push(entry)).0.last().3 == read_lines(lines).0.last().3
            + if read_lines(lines).2 {
            1int
        } else {
            0int
        },
{
    reveal(read_line);
    lemma_reading_keeps_order(lines);
    let st = read_lines(lines);
    let with_blank = lines.push(blank).push(entry);
    assert(with_blank.drop_last() =~= lines.push(blank));
    assert(lines.push(blank).drop_last() =~= lines);
    assert(lines.push(entry).drop_last() =~= lines);
    let mid = read_lines(lines.push(blank));
    assert(mid == read_line(st, blank));
    assert(mid == (st.0, st.1, true));
    assert(read_lines(with_blank) == read_line(mid, entry));
}

/// A line whose trimmed text starts with `#` is a comment: it adds no
/// helper and leaves the group and any pending blank line as they were,
/// whatever follows the `#` (a separator and command among it).
pub proof fn law_comment_lines_change_nothing(st: Reading, line: Seq<char>)
    requires
        text::trimmed(line).len() > 0,
        text::trimmed(line)[0] == '#',
    ensures
        read_line(st, line) == st,
{
    reveal(read_line);
}

/// Adding a comment line anywhere after some lines reads the same helpers,
/// in the same groups.
pub proof fn law_comment_adds_no_helper(lines: Seq<Seq<char>>, comment: Seq<char>)
    requires
        text::trimmed(comment).len() > 0,
        text::trimmed(comment)[0] == '#',
    ensures
        read_lines(lines.push(comment)) == read_lines(lines),
{
    assert(lines.push(comment).drop_last() =~= lines);
    law_comment_lines_change_nothing(read_lines(lines), comment);
}

/// How a helper line is read: it splits at its first ` = `; the command
/// is what follows, trimmed. What precedes, trimmed, is the name, unless
/// it ends in `]` with a `[` before: then the name is what stands before
/// the last such `[` and the hotkey what stands between it and the `]`,
/// both trimmed. Without a hotkey, the hotkey is empty.
pub proof fn law_helper_line_split(t: Seq<char>)
    requires
        has_separator(t),
    ensures
        exists|i: int|
            #![trigger t.take(i)]
            {
                &&& 0 <= i && i + 3 <= t.len() && t[i] == ' ' && t[i + 1] == '=' && t[i + 2] == ' '
                &&& forall|j: int|
                    0 <= j < i ==> !(#[trigger] t[j] == ' ' && t[j + 1] == '=' && t[j + 2] == ' ')
                &&& entry_of(t).2 == text::trimmed(t.skip(i + 3))
                &&& ({
                    let left = text::trimmed(t.take(i));
                    if left.len() > 0 && left.last() == ']' && exists|j: int|
                        0 <= j < left.len() - 1 && left[j] == '[' {
                        exists|o: int|
                            #![trigger left.take(o)]
                            {
                                &&& 0 <= o < left.len() - 1
                                &&& left[o] == '['
                                &&& forall|k: int| o < k < left.len() - 1 ==> left[k] != '['
                                &&& entry_of(t).0 == text::trimmed(left.take(o))
                                &&& entry_of(t).1 == text::trimmed(left.subrange(o + 1, left.len() - 1))
                            }
                    } else {
                        entry_of(t).0 == left && entry_of(t).1.len() == 0
                    }
                })
            },
{
    reveal(entry_of);
    let w = choose|i: int| sep_at(t, i);
    lemma_first_exists(t, w);
    let i = first_separator(t);
    assert forall|j: int| 0 <= j < i implies !(#[trigger] t[j] == ' ' && t[j + 1] == '=' && t[j + 2] == ' ') by {
        assert(!sep_at(t, j));
        assert(j + 3 <= t.len());
    }
    let left = text::trimmed(t.take(i));
    if has_key(left) {
        let w = choose|j: int| 0 <= j < left.len() - 1 && left[j] == '[';
        lemma_last_open(left, w);
        let o = key_open(left);
        assert(left[o] == '[');
        assert(entry_of(t).0 == text::trimmed(left.take(o)));
    }
    assert(entry_of(t).2 == text::trimmed(t.skip(i + 3)));
    assert(t.take(i) == t.take(i));
}

/// A name part with a `[` before its last character has a last such `[`.
proof fn lemma_last_open(left: Seq<char>, j: int)
    requires
        0 <= j < left.len() - 1,
        left[j] == '[',
    ensures
        exists|o: int|
            0 <= o < left.len() - 1 && left[o] == '[' && forall|k: int| o < k < left.len() - 1 ==> left[k] != '[',
    decreases left.len() - j,
{
    if exists|k: int| j < k < left.len() - 1 && left[k] == '[' {
        let k = choose|k: int| j < k < left.len() - 1 && left[k] == '[';
        lemma_last_open(left, k);
    } else {
        assert(forall|k: int| j < k < left.len() - 1 ==> left[k] != '[');
    }
}

} // verus!
