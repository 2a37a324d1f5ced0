//! Text as sequences of characters: whitespace, trimming, searching, and
//! the few calls into std's string code that the rest builds on.
use vstd::prelude::*;

verus! {

/// `String::push` appends the character to the end of the string.
pub assume_specification[ String::push ](string: &mut String, ch: char)
    ensures
        final(string)@ == old(string)@.push(ch),
;

/// Whether `c` has Unicode's White_Space property: U+0009 to U+000D,
/// U+0020, U+0085, U+00A0, U+1680, U+2000 to U+200A, U+2028, U+2029,
/// U+202F, U+205F and U+3000.
pub open spec fn is_white(c: char) -> bool {
    let u = c as u32;
    ||| 0x9 <= u <= 0xd
    ||| u == 0x20
    ||| u == 0x85
    ||| u == 0xa0
    ||| u == 0x1680
    ||| 0x2000 <= u <= 0x200a
    ||| u == 0x2028
    ||| u == 0x2029
    ||| u == 0x202f
    ||| u == 0x205f
    ||| u == 0x3000
}

/// Whether `c` is whitespace, as `char::is_whitespace` decides it: one of
/// the characters with Unicode's White_Space property.
pub(crate) fn white(c: char) -> (r: bool)
    ensures
        r == is_white(c),
{
    let u = c as u32;
    (0x9 <= u && u <= 0xd) || u == 0x20 || u == 0x85 || u == 0xa0 || u == 0x1680 || (0x2000 <= u
        && u <= 0x200a) || u == 0x2028 || u == 0x2029 || u == 0x202f || u == 0x205f || u == 0x3000
}

/// The lower-case form of a text, as std's `str::to_lowercase` maps it.
pub uninterp spec fn lowercase_of(s: Seq<char>) -> Seq<char>;

/// Whether every character of `s` is ASCII.
pub open spec fn is_ascii_text(s: Seq<char>) -> bool {
    forall|i: int| 0 <= i < s.len() ==> (#[trigger] s[i] as u32) < 128
}

/// An ASCII capital made small; any other character as it is.
pub open spec fn ascii_lower(c: char) -> char {
    if 'A' as u32 <= c as u32 <= 'Z' as u32 {
        ((c as u32) + 32) as char
    } else {
        c
    }
}

/// `str::to_lowercase`: the text with every character mapped to its
/// lower-case form under Unicode's rules (each character maps to one or
/// more characters; a final sigma depends on its neighbours). Stated here:
/// the result is empty exactly for the empty text, and an ASCII text has
/// each capital A to Z made small and every other character kept. For
/// other text the mapping is not stated: the result is the named
/// `lowercase_of`.
#[verifier::external_body]
pub(crate) fn lowercase(s: &str) -> (r: String)
    ensures
        r@ == lowercase_of(s@),
        (r@.len() == 0) == (s@.len() == 0),
        is_ascii_text(s@) ==> r@ == Seq::new(s@.len(), |i: int| ascii_lower(s@[i])),
{
    s.to_lowercase()
}

/// `s` without its leading whitespace.
pub open spec fn trim_start(s: Seq<char>) -> Seq<char>
    decreases s.len(),
{
    if s.len() > 0 && is_white(s[0]) {
        trim_start(s.drop_first())
    } else {
        s
    }
}

/// `s` without its trailing whitespace.
pub open spec fn trim_end(s: Seq<char>) -> Seq<char>
    decreases s.len(),
{
    if s.len() > 0 && is_white(s.last()) {
        trim_end(s.drop_last())
    } else {
        s
    }
}

/// `s` without whitespace at either end, as `str::trim` gives it.
#[verifier::opaque]
pub open spec fn trimmed(s: Seq<char>) -> Seq<char> {
    trim_end(trim_start(s))
}

proof fn lemma_trim_end_idem(s: Seq<char>)
    ensures
        trim_end(trim_end(s)) == trim_end(s),
        trim_end(s).len() > 0 ==> !is_white(trim_end(s).last()),
    decreases s.len(),
{
    if s.len() > 0 && is_white(s.last()) {
        lemma_trim_end_idem(s.drop_last());
    }
}

proof fn lemma_trim_start_idem(s: Seq<char>)
    ensures
        trim_start(s).len() > 0 ==> !is_white(trim_start(s)[0]),
        trim_start(trim_start(s)) == trim_start(s),
    decreases s.len(),
{
    if s.len() > 0 && is_white(s[0]) {
        lemma_trim_start_idem(s.drop_first());
    }
}

proof fn lemma_trim_end_keeps_start(s: Seq<char>)
    requires
        s.len() > 0,
        !is_white(s[0]),
    ensures
        trim_end(s).len() > 0,
        trim_end(s)[0] == s[0],
        trim_start(trim_end(s)) == trim_end(s),
    decreases s.len(),
{
    if is_white(s.last()) {
        assert(s.len() > 1);
        lemma_trim_end_keeps_start(s.drop_last());
    }
}

/// A trimmed text is its own trimmed form, and neither end is white.
pub proof fn lemma_trimmed_is_trimmed(s: Seq<char>)
    ensures
        trimmed(trimmed(s)) == trimmed(s),
        trimmed(s).len() > 0 ==> !is_white(trimmed(s)[0]) && !is_white(trimmed(s).last()),
{
    reveal(trimmed);
    let a = trim_start(s);
    lemma_trim_start_idem(s);
    lemma_trim_end_idem(a);
    if a.len() > 0 {
        lemma_trim_end_keeps_start(a);
        let b = trim_end(a);
        assert(trim_start(b) == b);
        assert(trimmed(b) == trim_end(b));
    } else {
        assert(trim_end(a) == a);
    }
}

pub proof fn lemma_trim_nonempty(s: Seq<char>)
    requires
        s.len() > 0,
        !is_white(s.last()),
    ensures
        trimmed(s).len() > 0,
    decreases s.len(),
{
    reveal(trimmed);
    if is_white(s[0]) {
        assert(s.len() > 1);
        lemma_trim_nonempty(s.drop_first());
        assert(trim_start(s) == trim_start(s.drop_first()));
    } else {
        lemma_trim_end_keeps_start(s);
    }
}

/// Whether `part` occurs in `s` at position `i`.
pub open spec fn occurs_at(s: Seq<char>, part: Seq<char>, i: int) -> bool {
    0 <= i && i + part.len() <= s.len() && s.subrange(i, i + part.len()) == part
}

/// Whether `s` begins with `part`.
pub open spec fn begins_with(s: Seq<char>, part: Seq<char>) -> bool {
    occurs_at(s, part, 0)
}

/// Whether `part` occurs anywhere in `s`.
pub open spec fn holds(s: Seq<char>, part: Seq<char>) -> bool {
    exists|i: int| occurs_at(s, part, i)
}

/// The characters of `s`, one by one.
pub fn chars_of(s: &str) -> (v: Vec<char>)
    ensures
        v@ == s@,
{
    broadcast use vstd::string::group_string_axioms;

    let mut v: Vec<char> = Vec::new();
    for c in it: s.chars()
        invariant
            it.seq() == s@,
            v@ == s@.take(it.index() as int),
    {
        v.push(c);
        assert(v@ =~= s@.take(it.index() + 1));
    }
    assert(v@ =~= s@);
    v
}

/// The characters `cs[a..b]` as a string.
pub fn string_of(cs: &Vec<char>, a: usize, b: usize) -> (r: String)
    requires
        a <= b <= cs.len(),
    ensures
        r@ == cs@.subrange(a as int, b as int),
{
    let mut r = String::new();
    let mut i = a;
    while i < b
        invariant
            a <= i <= b <= cs.len(),
            r@ == cs@.subrange(a as int, i as int),
        decreases b - i,
    {
        r.push(cs[i]);
        i = i + 1;
        assert(r@ =~= cs@.subrange(a as int, i as int));
    }
    r
}

proof fn lemma_trim_start_skip(s: Seq<char>, i: int)
    requires
        0 <= i < s.len(),
        forall|k: int| 0 <= k <= i ==> is_white(#[trigger] s[k]),
    ensures
        trim_start(s) == trim_start(s.subrange(i + 1, s.len() as int)),
    decreases i,
{
    assert(s.drop_first() =~= s.subrange(1, s.len() as int));
    if i > 0 {
        let t = s.drop_first();
        assert forall|k: int| 0 <= k <= i - 1 implies is_white(#[trigger] t[k]) by {
            assert(t[k] == s[k + 1]);
        }
        lemma_trim_start_skip(t, i - 1);
        assert(t.subrange(i, t.len() as int) =~= s.subrange(i + 1, s.len() as int));
    }
}

proof fn lemma_trim_end_cut(s: Seq<char>, j: int)
    requires
        0 <= j < s.len(),
        forall|k: int| j <= k < s.len() ==> is_white(#[trigger] s[k]),
    ensures
        trim_end(s) == trim_end(s.subrange(0, j)),
    decreases s.len() - j,
{
    assert(s.drop_last() =~= s.subrange(0, s.len() - 1));
    if j < s.len() - 1 {
        let t = s.drop_last();
        assert forall|k: int| j <= k < t.len() implies is_white(#[trigger] t[k]) by {
            assert(t[k] == s[k]);
        }
        lemma_trim_end_cut(t, j);
        assert(t.subrange(0, j) =~= s.subrange(0, j));
    }
}

/// The bounds of `cs[a..b]` with whitespace cut from both ends.
pub fn trim_bounds(cs: &Vec<char>, a: usize, b: usize) -> (r: (usize, usize))
    requires
        a <= b <= cs.len(),
    ensures
        a <= r.0 <= r.1 <= b,
        cs@.subrange(r.0 as int, r.1 as int) == trimmed(cs@.subrange(a as int, b as int)),
{
    reveal(trimmed);
    let ghost s = cs@.subrange(a as int, b as int);
    let mut i = a;
    while i < b && white(cs[i])
        invariant
            a <= i <= b <= cs.len(),
            s == cs@.subrange(a as int, b as int),
            trim_start(s) == trim_start(cs@.subrange(i as int, b as int)),
        decreases b - i,
    {
        proof {
            let t = cs@.subrange(i as int, b as int);
            assert(t[0] == cs[i as int]);
            assert(t.drop_first() =~= cs@.subrange(i + 1, b as int));
        }
        i = i + 1;
    }
    proof {
        let t = cs@.subrange(i as int, b as int);
        if i < b {
            assert(t[0] == cs[i as int]);
        }
        assert(trim_start(t) == t);
    }
    let mut j = b;
    while j > i && white(cs[j - 1])
        invariant
            a <= i <= j <= b <= cs.len(),
            trim_end(cs@.subrange(i as int, b as int)) == trim_end(cs@.subrange(i as int, j as int)),
        decreases j - i,
    {
        proof {
            let t = cs@.subrange(i as int, j as int);
            assert(t.last() == cs[j - 1]);
            assert(t.drop_last() =~= cs@.subrange(i as int, j - 1));
        }
        j = j - 1;
    }
    proof {
        let t = cs@.subrange(i as int, j as int);
        if j > i {
            assert(t.last() == cs[j - 1]);
        }
        assert(trim_end(t) == t);
    }
    (i, j)
}

/// How many characters of `cs` are left once trailing whitespace is cut.
pub fn trim_end_len(cs: &Vec<char>) -> (r: usize)
    ensures
        r <= cs.len(),
        cs@.take(r as int) == trim_end(cs@),
{
    let mut j = cs.len();
    assert(cs@.take(j as int) =~= cs@);
    while j > 0 && white(cs[j - 1])
        invariant
            j <= cs.len(),
            trim_end(cs@) == trim_end(cs@.take(j as int)),
        decreases j,
    {
        proof {
            let t = cs@.take(j as int);
            assert(t.last() == cs[j - 1]);
            assert(t.drop_last() =~= cs@.take(j - 1));
        }
        j = j - 1;
    }
    proof {
        let t = cs@.take(j as int);
        if j > 0 {
            assert(t.last() == cs[j - 1]);
        }
    }
    j
}

/// Whether two texts are the same.
pub fn same_text(a: &str, b: &str) -> (r: bool)
    ensures
        r == (a@ == b@),
{
    let x = chars_of(a);
    let y = chars_of(b);
    if x.len() != y.len() {
        assert(x@.len() != y@.len());
        return false;
    }
    let mut i: usize = 0;
    while i < x.len()
        invariant
            x@ == a@,
            y@ == b@,
            x.len() == y.len(),
            i <= x.len(),
            forall|k: int| 0 <= k < i ==> x@[k] == y@[k],
        decreases x.len() - i,
    {
        if x[i] != y[i] {
            assert(x@[i as int] != y@[i as int]);
            return false;
        }
        i = i + 1;
    }
    assert(x@ =~= y@);
    true
}

/// Whether `part` occurs in `cs` at position `i`.
pub fn occurs_at_exec(cs: &Vec<char>, part: &Vec<char>, i: usize) -> (r: bool)
    ensures
        r == occurs_at(cs@, part@, i as int),
{
    if part.len() > cs.len() || i > cs.len() - part.len() {
        return false;
    }
    let mut k: usize = 0;
    while k < part.len()
        invariant
            i + part.len() <= cs.len(),
            k <= part.len(),
            forall|m: int| 0 <= m < k ==> cs[i + m] == part[m],
        decreases part.len() - k,
    {
        if cs[i + k] != part[k] {
            assert(cs@.subrange(i as int, i + part.len())[k as int] != part@[k as int]);
            return false;
        }
        k = k + 1;
    }
    assert(cs@.subrange(i as int, i + part.len()) =~= part@);
    true
}

/// Whether `cs` begins with `part`.
pub fn begins_with_exec(cs: &Vec<char>, part: &Vec<char>) -> (r: bool)
    ensures
        r == begins_with(cs@, part@),
{
    occurs_at_exec(cs, part, 0)
}

/// Whether `part` occurs anywhere in `cs`.
pub fn holds_exec(cs: &Vec<char>, part: &Vec<char>) -> (r: bool)
    ensures
        r == holds(cs@, part@),
{
    if part.len() > cs.len() {
        return false;
    }
    let last = cs.len() - part.len();
    let mut i: usize = 0;
    loop
        invariant
            last == cs.len() - part.len(),
            part.len() <= cs.len(),
            i <= last,
            forall|m: int| 0 <= m < i ==> !occurs_at(cs@, part@, m),
        decreases last - i,
    {
        if occurs_at_exec(cs, part, i) {
            return true;
        }
        if i == last {
            assert forall|m: int| !occurs_at(cs@, part@, m) by {
                if 0 <= m <= last {
                    assert(m < i || m == i);
                }
            }
            return false;
        }
        i = i + 1;
    }
}

} // verus!
