//! Finding programs by name: every name that holds what was typed, those
//! that start with it first, then the shorter ones, then in list order.
use vstd::prelude::*;
use crate::programs;
use crate::text;

verus! {

/// The order in which two matches are shown: by whether the name does
/// not start with the query (those that do come first), then by length,
/// then by place in the list.
pub open spec fn shown_before(a: (bool, int, int), b: (bool, int, int)) -> bool {
    ||| (!a.0 && b.0)
    ||| (a.0 == b.0 && a.1 < b.1)
    ||| (a.0 == b.0 && a.1 == b.1 && a.2 < b.2)
}

/// How program `j` ranks: whether its lower-case name fails to start with
/// `q`, the byte length of its name, and its place.
pub open spec fn rank_key(lowered: Seq<Seq<char>>, lens: Seq<usize>, q: Seq<char>, j: int) -> (
    bool,
    int,
    int,
) {
    (!text::begins_with(lowered[j], q), lens[j] as int, j)
}

/// Whether program `j`'s lower-case name holds `q`.
pub open spec fn is_hit(lowered: Seq<Seq<char>>, q: Seq<char>, j: int) -> bool {
    0 <= j < lowered.len() && text::holds(lowered[j], q)
}

/// The ranking of matches: empty for an empty query; otherwise exactly
/// the programs whose lower-case name holds the query, each once, in the
/// order of `shown_before`.
pub open spec fn ranked(
    lowered: Seq<Seq<char>>,
    lens: Seq<usize>,
    q: Seq<char>,
    r: Seq<usize>,
) -> bool {
    &&& q.len() == 0 ==> r.len() == 0
    &&& q.len() > 0 ==> forall|j: int| 0 <= j < lowered.len() ==> (r.contains(j as usize) <==> is_hit(lowered, q, j))
    &&& forall|k: int| 0 <= k < r.len() ==> (#[trigger] r[k]) < lowered.len()
    &&& forall|a: int, b: int|
        0 <= a < b < r.len() ==> shown_before(
            rank_key(lowered, lens, q, #[trigger] r[a] as int),
            rank_key(lowered, lens, q, #[trigger] r[b] as int),
        )
}

/// The lower-case names of a list of strings.
pub open spec fn views_of(v: Seq<String>) -> Seq<Seq<char>> {
    Seq::new(v.len(), |i: int| v[i]@)
}

/// The length in bytes of each string of a list, as UTF-8 encodes it.
pub open spec fn byte_lens(v: Seq<String>) -> Seq<usize> {
    Seq::new(v.len(), |i: int| vstd::utf8::encode_utf8(v[i]@).len() as usize)
}

proof fn lemma_order_strict(a: (bool, int, int), b: (bool, int, int), c: (bool, int, int))
    ensures
        !(shown_before(a, b) && shown_before(b, a)),
        shown_before(a, b) && shown_before(b, c) ==> shown_before(a, c),
        a.2 != b.2 ==> shown_before(a, b) || shown_before(b, a),
{
}

/// Whether `a` is shown before `b`.
fn key_before(a: (bool, usize, usize), b: (bool, usize, usize)) -> (r: bool)
    ensures
        r == shown_before((a.0, a.1 as int, a.2 as int), (b.0, b.1 as int, b.2 as int)),
{
    if !a.0 && b.0 {
        true
    } else if a.0 == b.0 && a.1 < b.1 {
        true
    } else {
        a.0 == b.0 && a.1 == b.1 && a.2 < b.2
    }
}

/// The programs whose lower-case names (`lowered`, with the byte lengths
/// of the unlowered names in `lens`) hold `q`, in the order they are shown.
pub fn rank(lowered: &Vec<String>, lens: &Vec<usize>, q: &str) -> (r: Vec<usize>)
    requires
        lowered.len() == lens.len(),
    ensures
        ranked(views_of(lowered@), lens@, q@, r@),
{
    let ghost low = views_of(lowered@);
    let qs = text::chars_of(q);
    let mut out: Vec<usize> = Vec::new();
    if qs.len() == 0 {
        return out;
    }
    let mut keys: Vec<(bool, usize, usize)> = Vec::new();
    let mut i: usize = 0;
    while i < lowered.len()
        invariant
            lowered.len() == lens.len(),
            low == views_of(lowered@),
            qs@ == q@,
            qs.len() > 0,
            i <= lowered.len(),
            keys.len() == out.len(),
            forall|k: int| 0 <= k < out.len() ==> (#[trigger] out@[k]) < i,
            forall|k: int|
                0 <= k < out.len() ==> #[trigger] keys@[k] == (
                    rank_key(low, lens@, q@, out@[k] as int).0,
                    rank_key(low, lens@, q@, out@[k] as int).1 as usize,
                    out@[k],
                ),
            forall|j: int| 0 <= j < i ==> (out@.contains(j as usize) <==> is_hit(low, q@, j)),
            forall|a: int, b: int|
                0 <= a < b < out.len() ==> shown_before(
                    rank_key(low, lens@, q@, #[trigger] out@[a] as int),
                    rank_key(low, lens@, q@, #[trigger] out@[b] as int),
                ),
        decreases lowered.len() - i,
    {
        let name = text::chars_of(lowered[i].as_str());
        assert(name@ == low[i as int]);
        if text::holds_exec(&name, &qs) {
            let key = (!text::begins_with_exec(&name, &qs), lens[i], i);
            let ghost kk = rank_key(low, lens@, q@, i as int);
            assert(key.0 == kk.0 && key.1 as int == kk.1 && key.2 as int == kk.2);
            let mut pos: usize = 0;
            while pos < keys.len() && !key_before(key, keys[pos])
                invariant
                    keys.len() == out.len(),
                    pos <= keys.len(),
                    kk == rank_key(low, lens@, q@, i as int),
                    key.0 == kk.0 && key.1 as int == kk.1 && key.2 == i,
                    forall|k: int| 0 <= k < out.len() ==> (#[trigger] out@[k]) < i,
                    forall|k: int|
                        0 <= k < out.len() ==> #[trigger] keys@[k] == (
                            rank_key(low, lens@, q@, out@[k] as int).0,
                            rank_key(low, lens@, q@, out@[k] as int).1 as usize,
                            out@[k],
                        ),
                    forall|k: int|
                        0 <= k < pos ==> shown_before(
                            rank_key(low, lens@, q@, #[trigger] out@[k] as int),
                            kk,
                        ),
                decreases keys.len() - pos,
            {
                proof {
                    let o = rank_key(low, lens@, q@, out@[pos as int] as int);
                    assert(keys@[pos as int] == (o.0, o.1 as usize, out@[pos as int]));
                    assert(out@[pos as int] < i);
                    assert(!shown_before(kk, o));
                    lemma_order_strict(kk, o, kk);
                }
                pos = pos + 1;
            }
            proof {
                if pos < keys.len() {
                    let o = rank_key(low, lens@, q@, out@[pos as int] as int);
                    assert(shown_before(kk, o));
                }
            }
            let ghost old_out = out@;
            let ghost old_keys = keys@;
            out.insert(pos, i);
            keys.insert(pos, key);
            proof {
                assert(out@ == old_out.insert(pos as int, i));
                assert forall|k: int| 0 <= k < out.len() implies (#[trigger] out@[k]) < i + 1 by {
                    if k < pos {
                        assert(out@[k] == old_out[k]);
                    } else if k > pos {
                        assert(out@[k] == old_out[k - 1]);
                    }
                }
                assert forall|k: int|
                    0 <= k < out.len() implies #[trigger] keys@[k] == (
                        rank_key(low, lens@, q@, out@[k] as int).0,
                        rank_key(low, lens@, q@, out@[k] as int).1 as usize,
                        out@[k],
                    ) by {
                    if k < pos {
                        assert(out@[k] == old_out[k]);
                        assert(keys@[k] == old_keys[k]);
                    } else if k > pos {
                        assert(out@[k] == old_out[k - 1]);
                        assert(keys@[k] == old_keys[k - 1]);
                    }
                }
                assert forall|a: int, b: int| 0 <= a < b < out.len() implies shown_before(
                    rank_key(low, lens@, q@, #[trigger] out@[a] as int),
                    rank_key(low, lens@, q@, #[trigger] out@[b] as int),
                ) by {
                    let ka = rank_key(low, lens@, q@, out@[a] as int);
                    let kb = rank_key(low, lens@, q@, out@[b] as int);
                    if b < pos {
                        assert(out@[a] == old_out[a] && out@[b] == old_out[b]);
                    } else if b == pos {
                        assert(out@[a] == old_out[a]);
                    } else if a > pos {
                        assert(out@[a] == old_out[a - 1] && out@[b] == old_out[b - 1]);
                    } else if a == pos {
                        assert(out@[b] == old_out[b - 1]);
                        let kp = rank_key(low, lens@, q@, old_out[pos as int] as int);
                        assert(shown_before(kk, kp));
                        if b - 1 > pos {
                            assert(shown_before(kp, kb));
                            lemma_order_strict(kk, kp, kb);
                        }
                    } else {
                        assert(out@[a] == old_out[a] && out@[b] == old_out[b - 1]);
                    }
                }
                assert forall|j: int| 0 <= j < i + 1 implies (out@.contains(j as usize) <==> is_hit(
                    low,
                    q@,
                    j,
                )) by {
                    if j < i {
                        if old_out.contains(j as usize) {
                            let w = choose|w: int| 0 <= w < old_out.len() && old_out[w] == j as usize;
                            if w < pos {
                                assert(out@[w] == j as usize);
                            } else {
                                assert(out@[w + 1] == j as usize);
                            }
                        }
                        if out@.contains(j as usize) {
                            let w = choose|w: int| 0 <= w < out@.len() && out@[w] == j as usize;
                            if w < pos {
                                assert(old_out[w] == j as usize);
                            } else if w > pos {
                                assert(old_out[w - 1] == j as usize);
                            }
                        }
                    } else {
                        assert(out@[pos as int] == i);
                    }
                }
            }
        } else {
            proof {
                assert forall|j: int| 0 <= j < i + 1 implies (out@.contains(j as usize) <==> is_hit(
                    low,
                    q@,
                    j,
                )) by {
                    if j == i {
                        if out@.contains(j as usize) {
                            let w = choose|w: int| 0 <= w < out@.len() && out@[w] == j as usize;
                            assert(out@[w] < i);
                        }
                    }
                }
            }
        }
        i = i + 1;
    }
    out
}

/// The programs that hold `q`: names that start with it first, then the
/// shorter ones, then by place in the list (by name, for a sorted list).
/// Names are compared in lower case; `q` is taken as it is given.
pub fn find(progs: &[String], q: &str) -> (r: Vec<usize>)
    ensures
        ranked(
            Seq::new(progs@.len(), |i: int| text::lowercase_of(progs@[i]@)),
            byte_lens(progs@),
            q@,
            r@,
        ),
{
    let mut lowered: Vec<String> = Vec::new();
    let mut lens: Vec<usize> = Vec::new();
    let mut i: usize = 0;
    while i < progs.len()
        invariant
            i <= progs.len(),
            lowered.len() == i,
            lens.len() == i,
            forall|k: int| 0 <= k < i ==> (#[trigger] lowered@[k])@ == text::lowercase_of(progs@[k]@),
            forall|k: int| 0 <= k < i ==> #[trigger] lens@[k] == vstd::utf8::encode_utf8(progs@[k]@).len() as usize,
        decreases progs.len() - i,
    {
        lowered.push(text::lowercase(progs[i].as_str()));
        lens.push(progs[i].as_str().len());
        i = i + 1;
    }
    let r = rank(&lowered, &lens, q);
    assert(views_of(lowered@) =~= Seq::new(progs@.len(), |i: int| text::lowercase_of(progs@[i]@)));
    assert(lens@ =~= byte_lens(progs@));
    r
}

} // verus!

verus! {

/// Names that start with the query come before those that only hold it
/// elsewhere; among names alike in that, shorter ones come first.
pub proof fn law_prefix_matches_first(
    lowered: Seq<Seq<char>>,
    lens: Seq<usize>,
    q: Seq<char>,
    r: Seq<usize>,
    a: int,
    b: int,
)
    requires
        ranked(lowered, lens, q, r),
        0 <= a < b < r.len(),
    ensures
        text::begins_with(lowered[r[b] as int], q) ==> text::begins_with(lowered[r[a] as int], q),
        text::begins_with(lowered[r[a] as int], q) == text::begins_with(lowered[r[b] as int], q)
            ==> lens[r[a] as int] <= lens[r[b] as int],
{
    assert(shown_before(rank_key(lowered, lens, q, r[a] as int), rank_key(lowered, lens, q, r[b] as int)));
}

/// In a list of programs sorted by name, each once, as the program list
/// is kept: among matches alike in whether they start with the query and
/// in length, the one shown first has the name that sorts first.
pub proof fn law_ties_go_by_name(
    progs: Seq<String>,
    lowered: Seq<Seq<char>>,
    q: Seq<char>,
    r: Seq<usize>,
    a: int,
    b: int,
)
    requires
        programs::strictly_sorted(progs),
        lowered.len() == progs.len(),
        ranked(lowered, byte_lens(progs), q, r),
        0 <= a < b < r.len(),
        text::begins_with(lowered[r[a] as int], q) == text::begins_with(lowered[r[b] as int], q),
        byte_lens(progs)[r[a] as int] == byte_lens(progs)[r[b] as int],
    ensures
        programs::bytes_before(
            programs::name_bytes(progs[r[a] as int]),
            programs::name_bytes(progs[r[b] as int]),
        ),
{
    let lens = byte_lens(progs);
    assert(shown_before(rank_key(lowered, lens, q, r[a] as int), rank_key(lowered, lens, q, r[b] as int)));
    assert(r[a] < r[b]);
    assert(r[b] < lowered.len());
}

/// Everything shown holds the query, and nothing is shown twice.
pub proof fn law_hits_hold_the_query(
    lowered: Seq<Seq<char>>,
    lens: Seq<usize>,
    q: Seq<char>,
    r: Seq<usize>,
    a: int,
    b: int,
)
    requires
        ranked(lowered, lens, q, r),
        lowered.len() == lens.len(),
        0 <= a < r.len(),
        0 <= b < r.len(),
        a != b,
    ensures
        text::holds(lowered[r[a] as int], q),
        r[a] != r[b],
{
    assert(r[a] < lowered.len());
    let j = r[a] as int;
    assert(r[a] == j as usize);
    assert(r.contains(j as usize));
    if q.len() == 0 {
        assert(r.len() == 0);
    }
    assert(is_hit(lowered, q, j));
    if a < b {
        assert(shown_before(rank_key(lowered, lens, q, r[a] as int), rank_key(lowered, lens, q, r[b] as int)));
    } else {
        assert(shown_before(rank_key(lowered, lens, q, r[b] as int), rank_key(lowered, lens, q, r[a] as int)));
    }
}

/// The ranking is determined: two rankings of the same names for the same
/// query are the same list.
pub proof fn law_ranking_is_unique(
    lowered: Seq<Seq<char>>,
    lens: Seq<usize>,
    q: Seq<char>,
    r1: Seq<usize>,
    r2: Seq<usize>,
)
    requires
        lowered.len() == lens.len(),
        ranked(lowered, lens, q, r1),
        ranked(lowered, lens, q, r2),
    ensures
        r1 == r2,
{
    if q.len() == 0 {
        assert(r1 =~= r2);
    } else {
        let n = if r1.len() < r2.len() {
            r1.len()
        } else {
            r2.len()
        };
        lemma_same_prefix(lowered, lens, q, r1, r2, n as int);
        lemma_no_longer(lowered, lens, q, r1, r2);
        lemma_no_longer(lowered, lens, q, r2, r1);
        assert(r1 =~= r2);
    }
}

proof fn lemma_key_distinct(lowered: Seq<Seq<char>>, lens: Seq<usize>, q: Seq<char>, r: Seq<usize>, a: int, b: int)
    requires
        ranked(lowered, lens, q, r),
        0 <= a < b < r.len(),
    ensures
        r[a] != r[b],
        !shown_before(rank_key(lowered, lens, q, r[b] as int), rank_key(lowered, lens, q, r[a] as int)),
{
    assert(shown_before(rank_key(lowered, lens, q, r[a] as int), rank_key(lowered, lens, q, r[b] as int)));
}

proof fn lemma_same_prefix(
    lowered: Seq<Seq<char>>,
    lens: Seq<usize>,
    q: Seq<char>,
    r1: Seq<usize>,
    r2: Seq<usize>,
    n: int,
)
    requires
        lowered.len() == lens.len(),
        q.len() > 0,
        ranked(lowered, lens, q, r1),
        ranked(lowered, lens, q, r2),
        0 <= n <= r1.len(),
        n <= r2.len(),
    ensures
        forall|k: int| 0 <= k < n ==> r1[k] == r2[k],
    decreases n,
{
    if n > 0 {
        lemma_same_prefix(lowered, lens, q, r1, r2, n - 1);
        let k = n - 1;
        let x = r1[k];
        let y = r2[k];
        if x != y {
            // x is shown by r2 somewhere, y by r1 somewhere
            assert(r1.contains(x));
            assert(is_hit(lowered, q, x as int));
            assert(r2.contains(x));
            let p = choose|p: int| 0 <= p < r2.len() && r2[p] == x;
            assert(r2.contains(y));
            assert(is_hit(lowered, q, y as int));
            assert(r1.contains(y));
            let p1 = choose|p: int| 0 <= p < r1.len() && r1[p] == y;
            if p < k {
                assert(r1[p] == x);
                lemma_key_distinct(lowered, lens, q, r1, p, k);
            } else if p1 < k {
                assert(r2[p1] == y);
                lemma_key_distinct(lowered, lens, q, r2, p1, k);
            } else {
                // both later: each would have to come before the other
                assert(p > k && p1 > k);
                assert(shown_before(rank_key(lowered, lens, q, y as int), rank_key(lowered, lens, q, x as int)));
                assert(shown_before(rank_key(lowered, lens, q, x as int), rank_key(lowered, lens, q, y as int)));
            }
        }
    }
}

proof fn lemma_no_longer(
    lowered: Seq<Seq<char>>,
    lens: Seq<usize>,
    q: Seq<char>,
    r1: Seq<usize>,
    r2: Seq<usize>,
)
    requires
        lowered.len() == lens.len(),
        q.len() > 0,
        ranked(lowered, lens, q, r1),
        ranked(lowered, lens, q, r2),
        forall|k: int| 0 <= k < r2.len() && k < r1.len() ==> r1[k] == r2[k],
    ensures
        r1.len() <= r2.len(),
{
    if r1.len() > r2.len() {
        let k = r2.len() as int;
        let x = r1[k];
        assert(r1.contains(x));
        assert(is_hit(lowered, q, x as int));
        assert(r2.contains(x));
        let p = choose|p: int| 0 <= p < r2.len() && r2[p] == x;
        assert(r1[p] == x);
        lemma_key_distinct(lowered, lens, q, r1, p, k);
    }
}

/// Every program whose lower-case name holds a query that is not empty,
/// at the start, in the middle or at the end, is listed; and a listed
/// program's name holds it.
pub proof fn law_every_match_is_listed(
    lowered: Seq<Seq<char>>,
    lens: Seq<usize>,
    q: Seq<char>,
    r: Seq<usize>,
    j: int,
)
    requires
        ranked(lowered, lens, q, r),
        q.len() > 0,
        0 <= j < lowered.len(),
    ensures
        r.contains(j as usize) <==> exists|p: int|
            0 <= p && p + q.len() <= lowered[j].len() && #[trigger] lowered[j].subrange(p, p + q.len())
                == q,
{
    let name = lowered[j];
    assert(r.contains(j as usize) <==> is_hit(lowered, q, j));
    if text::holds(name, q) {
        let p = choose|p: int| text::occurs_at(name, q, p);
        assert(name.subrange(p, p + q.len()) == q);
    }
    if exists|p: int| 0 <= p && p + q.len() <= name.len() && #[trigger] name.subrange(p, p + q.len()) == q {
        let p = choose|p: int| 0 <= p && p + q.len() <= name.len() && #[trigger] name.subrange(p, p + q.len()) == q;
        assert(text::occurs_at(name, q, p));
    }
}

} // verus!
