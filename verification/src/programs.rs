//! The list of program names: read from the shell's cache of executables
//! (a 16-byte header, then the names split by zero bytes), or gathered
//! from the PATH, then sorted with each name once.
use vstd::prelude::*;

verus! {

/// The text that some bytes read as, where invalid UTF-8 is replaced by
/// U+FFFD, as `String::from_utf8_lossy` reads it.
pub uninterp spec fn lossy_text(b: Seq<u8>) -> Seq<char>;

/// `String::from_utf8_lossy`, made an owned string: the text the bytes
/// encode, each invalid sequence replaced by U+FFFD. Stated here: valid
/// UTF-8 reads as the text it encodes, and bytes that are not empty give
/// text that is not empty (each byte goes into a character or a U+FFFD).
/// Which characters invalid bytes become is not stated: the result is the
/// named `lossy_text`.
#[verifier::external_body]
fn lossy(b: &[u8]) -> (r: String)
    ensures
        r@ == lossy_text(b@),
        vstd::utf8::valid_utf8(b@) ==> r@ == vstd::utf8::decode_utf8(b@),
        b@.len() > 0 ==> r@.len() > 0,
{
    String::from_utf8_lossy(b).into_owned()
}

/// The runs of bytes between zero bytes; a trailing zero leaves an empty
/// last run, and no bytes are one empty run.
pub open spec fn zero_split(b: Seq<u8>) -> Seq<Seq<u8>>
    decreases b.len(),
{
    if b.len() == 0 {
        seq![Seq::empty()]
    } else {
        let ps = zero_split(b.drop_last());
        if b.last() == 0 {
            ps.push(Seq::empty())
        } else {
            ps.update(ps.len() - 1, ps.last().push(b.last()))
        }
    }
}

/// The runs that are not empty, in order.
pub open spec fn filled(ps: Seq<Seq<u8>>) -> Seq<Seq<u8>>
    decreases ps.len(),
{
    if ps.len() == 0 {
        Seq::empty()
    } else if ps.last().len() > 0 {
        filled(ps.drop_last()).push(ps.last())
    } else {
        filled(ps.drop_last())
    }
}

/// The names a cache file holds: after its 16-byte header, the runs of
/// bytes between zero bytes that are not empty; none when the file is no
/// longer than its header.
pub open spec fn cache_names(b: Seq<u8>) -> Seq<Seq<u8>> {
    if b.len() > 16 {
        filled(zero_split(b.skip(16)))
    } else {
        Seq::empty()
    }
}

proof fn lemma_zero_split_nonempty(b: Seq<u8>)
    ensures
        zero_split(b).len() >= 1,
    decreases b.len(),
{
    if b.len() > 0 {
        lemma_zero_split_nonempty(b.drop_last());
    }
}

/// The program names in the cache file's bytes, in the order they stand.
pub fn names_in_cache(b: &[u8]) -> (names: Vec<String>)
    ensures
        names@.len() == cache_names(b@).len(),
        forall|i: int|
            0 <= i < names@.len() ==> (#[trigger] names@[i])@ == lossy_text(cache_names(b@)[i]),
        forall|i: int| 0 <= i < names@.len() ==> (#[trigger] names@[i])@.len() > 0,
{
    let mut out: Vec<String> = Vec::new();
    if b.len() <= 16 {
        return out;
    }
    let ghost rest = b@.skip(16);
    let ghost got: Seq<Seq<u8>> = Seq::empty();
    let mut cur: Vec<u8> = Vec::new();
    let mut k: usize = 16;
    while k < b.len()
        invariant
            16 <= k <= b@.len(),
            rest == b@.skip(16),
            zero_split(rest.take(k - 16)).last() == cur@,
            got == filled(zero_split(rest.take(k - 16)).drop_last()),
            out@.len() == got.len(),
            forall|i: int| 0 <= i < out@.len() ==> (#[trigger] out@[i])@ == lossy_text(got[i]),
            forall|i: int| 0 <= i < out@.len() ==> (#[trigger] out@[i])@.len() > 0,
        decreases b.len() - k,
    {
        let ghost pre = rest.take(k - 16);
        let ghost ps = zero_split(pre);
        proof {
            lemma_zero_split_nonempty(pre);
            assert(rest.take(k + 1 - 16).drop_last() =~= pre);
            assert(rest.take(k + 1 - 16).last() == b[k as int]);
        }
        if b[k] == 0 {
            if cur.len() > 0 {
                let name = lossy(cur.as_slice());
                out.push(name);
                proof {
                    got = got.push(cur@);
                }
            }
            cur = Vec::new();
            proof {
                let nps = ps.push(Seq::empty());
                assert(nps.drop_last() =~= ps);
                assert(ps.drop_last().push(ps.last()) =~= ps);
                assert(filled(ps) == if ps.last().len() > 0 {
                    filled(ps.drop_last()).push(ps.last())
                } else {
                    filled(ps.drop_last())
                });
            }
        } else {
            cur.push(b[k]);
            proof {
                let nps = ps.update(ps.len() - 1, ps.last().push(b[k as int]));
                assert(nps.drop_last() =~= ps.drop_last());
            }
        }
        k = k + 1;
    }
    proof {
        assert(rest.take(k - 16) =~= rest);
        lemma_zero_split_nonempty(rest);
        let ps = zero_split(rest);
        assert(ps.drop_last().push(ps.last()) =~= ps);
    }
    if cur.len() > 0 {
        let name = lossy(cur.as_slice());
        out.push(name);
        proof {
            got = got.push(cur@);
        }
    }
    out
}

/// Whether bytes `a` sort before bytes `b`: the first byte where they
/// differ is smaller in `a`, or `a` is a proper beginning of `b`. This is
/// how `String`s are ordered.
pub open spec fn bytes_before(a: Seq<u8>, b: Seq<u8>) -> bool
    decreases a.len(),
{
    if a.len() == 0 {
        b.len() > 0
    } else if b.len() == 0 {
        false
    } else if a[0] != b[0] {
        a[0] < b[0]
    } else {
        bytes_before(a.drop_first(), b.drop_first())
    }
}

/// The bytes of a name.
pub open spec fn name_bytes(s: String) -> Seq<u8> {
    vstd::utf8::encode_utf8(s@)
}

proof fn lemma_same_bytes(a: Seq<u8>, b: Seq<u8>)
    requires
        a.len() > 0,
        b.len() > 0,
        a[0] == b[0],
        a.drop_first() == b.drop_first(),
    ensures
        a == b,
{
    assert(a.drop_first().len() == a.len() - 1);
    assert(b.drop_first().len() == b.len() - 1);
    assert forall|k: int| 0 <= k < a.len() implies a[k] == b[k] by {
        if k > 0 {
            assert(a[k] == a.drop_first()[k - 1]);
            assert(b[k] == b.drop_first()[k - 1]);
        }
    }
    assert(a =~= b);
}

proof fn lemma_bytes_irreflexive(a: Seq<u8>)
    ensures
        !bytes_before(a, a),
    decreases a.len(),
{
    if a.len() > 0 {
        lemma_bytes_irreflexive(a.drop_first());
    }
}

proof fn lemma_bytes_total(a: Seq<u8>, b: Seq<u8>)
    ensures
        bytes_before(a, b) ==> !bytes_before(b, a),
        a != b ==> bytes_before(a, b) || bytes_before(b, a),
    decreases a.len(),
{
    if a.len() > 0 && b.len() > 0 {
        lemma_bytes_total(a.drop_first(), b.drop_first());
        if a[0] == b[0] && a.drop_first() == b.drop_first() {
            lemma_same_bytes(a, b);
        }
    } else if a.len() == 0 && b.len() == 0 {
        assert(a =~= b);
    }
}

proof fn lemma_bytes_transitive(a: Seq<u8>, b: Seq<u8>, c: Seq<u8>)
    ensures
        bytes_before(a, b) && bytes_before(b, c) ==> bytes_before(a, c),
    decreases a.len(),
{
    if a.len() > 0 && b.len() > 0 && c.len() > 0 {
        lemma_bytes_transitive(a.drop_first(), b.drop_first(), c.drop_first());
    }
}

/// The byte order is a strict total order: no bytes sort before
/// themselves, of two different byte strings one sorts before the other,
/// never both, and sorting before is transitive.
pub proof fn lemma_bytes_order(a: Seq<u8>, b: Seq<u8>, c: Seq<u8>)
    ensures
        !bytes_before(a, a),
        bytes_before(a, b) ==> !bytes_before(b, a),
        a != b ==> bytes_before(a, b) || bytes_before(b, a),
        bytes_before(a, b) && bytes_before(b, c) ==> bytes_before(a, c),
{
    lemma_bytes_irreflexive(a);
    lemma_bytes_total(a, b);
    lemma_bytes_transitive(a, b, c);
}

/// Whether bytes `a` sort before bytes `b`, and whether they are equal.
fn order_of(a: &[u8], b: &[u8]) -> (r: (bool, bool))
    ensures
        r.0 == bytes_before(a@, b@),
        r.1 == (a@ == b@),
{
    let mut i: usize = 0;
    assert(a@.skip(0) =~= a@);
    assert(b@.skip(0) =~= b@);
    assert(a@.take(0) =~= b@.take(0));
    while i < a.len() && i < b.len() && a[i] == b[i]
        invariant
            i <= a@.len(),
            i <= b@.len(),
            a@.take(i as int) == b@.take(i as int),
            bytes_before(a@, b@) == bytes_before(a@.skip(i as int), b@.skip(i as int)),
        decreases a.len() - i,
    {
        proof {
            let ghost x = a@.skip(i as int);
            let ghost y = b@.skip(i as int);
            assert(x.drop_first() =~= a@.skip(i + 1));
            assert(y.drop_first() =~= b@.skip(i + 1));
            assert(a@.take(i + 1) =~= a@.take(i as int).push(a@[i as int]));
            assert(b@.take(i + 1) =~= b@.take(i as int).push(b@[i as int]));
        }
        i = i + 1;
    }
    let ghost x = a@.skip(i as int);
    let ghost y = b@.skip(i as int);
    if i == a.len() {
        proof {
            assert(a@.take(i as int) =~= a@);
        }
        if i == b.len() {
            assert(b@.take(i as int) =~= b@);
            (false, true)
        } else {
            assert(a@ != b@) by {
                if a@ == b@ {
                    assert(a@.len() == b@.len());
                }
            }
            (true, false)
        }
    } else if i == b.len() {
        assert(a@ != b@) by {
            if a@ == b@ {
                assert(a@.len() == b@.len());
            }
        }
        (false, false)
    } else {
        assert(x[0] == a@[i as int] && y[0] == b@[i as int]);
        assert(a@ != b@) by {
            if a@ == b@ {
                assert(a@[i as int] == b@[i as int]);
            }
        }
        (a[i] < b[i], false)
    }
}

/// Whether some name in `v` reads as `s`.
pub open spec fn has_name(v: Seq<String>, s: Seq<char>) -> bool {
    exists|i: int| 0 <= i < v.len() && (#[trigger] v[i])@ == s
}

/// Whether the names are sorted by their bytes, each once.
pub open spec fn strictly_sorted(v: Seq<String>) -> bool {
    forall|a: int, b: int|
        0 <= a < b < v.len() ==> bytes_before(name_bytes(#[trigger] v[a]), name_bytes(#[trigger] v[b]))
}

/// Where bytes `x` belong in a sorted list: after every name that sorts
/// before them, and whether the name there is the same.
fn find_slot(out: &Vec<String>, x: &[u8]) -> (r: (usize, bool))
    requires
        strictly_sorted(out@),
    ensures
        r.0 <= out@.len(),
        forall|k: int| 0 <= k < r.0 ==> bytes_before(name_bytes(#[trigger] out@[k]), x@),
        r.1 ==> r.0 < out@.len() && name_bytes(out@[r.0 as int]) == x@,
        !r.1 ==> forall|k: int| r.0 <= k < out@.len() ==> bytes_before(x@, name_bytes(#[trigger] out@[k])),
{
    let mut pos: usize = 0;
    while pos < out.len()
        invariant
            strictly_sorted(out@),
            pos <= out@.len(),
            forall|k: int| 0 <= k < pos ==> bytes_before(name_bytes(#[trigger] out@[k]), x@),
        decreases out.len() - pos,
    {
        let (before, eq) = order_of(out[pos].as_str().as_bytes(), x);
        if eq {
            return (pos, true);
        }
        if !before {
            proof {
                let p = name_bytes(out@[pos as int]);
                lemma_bytes_order(p, x@, p);
                assert forall|k: int| pos <= k < out@.len() implies bytes_before(
                    x@,
                    name_bytes(#[trigger] out@[k]),
                ) by {
                    if k > pos {
                        lemma_bytes_order(x@, p, name_bytes(out@[k]));
                    }
                }
            }
            return (pos, false);
        }
        pos = pos + 1;
    }
    (pos, false)
}

/// Every name once, sorted by their bytes, as `sort_unstable` and `dedup`
/// leave a list of `String`s.
pub fn sorted_unique(names: Vec<String>) -> (r: Vec<String>)
    ensures
        strictly_sorted(r@),
        forall|s: Seq<char>| has_name(r@, s) <==> has_name(names@, s),
        (forall|i: int| 0 <= i < names@.len() ==> (#[trigger] names@[i])@.len() > 0) ==> forall|i: int|
            0 <= i < r@.len() ==> (#[trigger] r@[i])@.len() > 0,
{
    let mut out: Vec<String> = Vec::new();
    let mut i: usize = 0;
    while i < names.len()
        invariant
            i <= names@.len(),
            strictly_sorted(out@),
            forall|s: Seq<char>| has_name(out@, s) <==> has_name(names@.take(i as int), s),
        decreases names.len() - i,
    {
        let x = names[i].as_str().as_bytes();
        let ghost xs = name_bytes(names@[i as int]);
        let ghost now = names@.take(i + 1);
        assert(now =~= names@.take(i as int).push(names@[i as int]));
        let (pos, same) = find_slot(&out, x);
        let ghost old_out = out@;
        if !same {
            let item = names[i].clone();
            assert(item == names@[i as int]);
            out.insert(pos, item);
            assert(out@ == old_out.insert(pos as int, names@[i as int]));
            proof {
                assert forall|a: int, b: int| 0 <= a < b < out@.len() implies bytes_before(
                    name_bytes(#[trigger] out@[a]),
                    name_bytes(#[trigger] out@[b]),
                ) by {
                    if b < pos {
                        assert(out@[a] == old_out[a] && out@[b] == old_out[b]);
                    } else if b == pos {
                        assert(out@[a] == old_out[a]);
                    } else if a > pos {
                        assert(out@[a] == old_out[a - 1] && out@[b] == old_out[b - 1]);
                    } else if a == pos {
                        assert(out@[b] == old_out[b - 1]);
                    } else {
                        assert(out@[a] == old_out[a] && out@[b] == old_out[b - 1]);
                    }
                }
                assert forall|s: Seq<char>| has_name(out@, s) <==> has_name(now, s) by {
                    if has_name(out@, s) {
                        let w = choose|w: int| 0 <= w < out@.len() && (#[trigger] out@[w])@ == s;
                        if w < pos {
                            assert(old_out[w]@ == s);
                            assert(has_name(old_out, s));
                            assert(has_name(names@.take(i as int), s));
                            let v = choose|v: int|
                                0 <= v < names@.take(i as int).len() && (#[trigger] names@.take(
                                    i as int,
                                )[v])@ == s;
                            assert(now[v]@ == s);
                        } else if w > pos {
                            assert(old_out[w - 1]@ == s);
                            assert(has_name(old_out, s));
                            assert(has_name(names@.take(i as int), s));
                            let v = choose|v: int|
                                0 <= v < names@.take(i as int).len() && (#[trigger] names@.take(
                                    i as int,
                                )[v])@ == s;
                            assert(now[v]@ == s);
                        } else {
                            assert(now[i as int]@ == s);
                        }
                    }
                    if has_name(now, s) {
                        let w = choose|w: int| 0 <= w < now.len() && (#[trigger] now[w])@ == s;
                        if w < i {
                            assert(names@.take(i as int)[w] == now[w]);
                            assert(has_name(old_out, s));
                            let v = choose|v: int| 0 <= v < old_out.len() && (#[trigger] old_out[v])@ == s;
                            if v < pos {
                                assert(out@[v]@ == s);
                            } else {
                                assert(out@[v + 1]@ == s);
                            }
                        } else {
                            assert(out@[pos as int]@ == s);
                        }
                    }
                }
            }
        } else {
            proof {
                let p = out@[pos as int];
                vstd::utf8::encode_utf8_decode_utf8(p@);
                vstd::utf8::encode_utf8_decode_utf8(names@[i as int]@);
                assert(p@ == names@[i as int]@);
                assert forall|s: Seq<char>| has_name(out@, s) <==> has_name(now, s) by {
                    if has_name(now, s) {
                        let w = choose|w: int| 0 <= w < now.len() && (#[trigger] now[w])@ == s;
                        if w < i {
                            assert(names@.take(i as int)[w] == now[w]);
                            assert(has_name(names@.take(i as int), s));
                        } else {
                            assert(out@[pos as int]@ == s);
                        }
                    }
                    if has_name(out@, s) {
                        assert(has_name(names@.take(i as int), s));
                        let w = choose|w: int|
                            0 <= w < names@.take(i as int).len() && (#[trigger] names@.take(
                                i as int,
                            )[w])@ == s;
                        assert(now[w]@ == s);
                    }
                }
            }
        }
        i = i + 1;
    }
    assert(names@.take(i as int) =~= names@);
    assert forall|k: int| 0 <= k < out@.len() implies has_name(names@, (#[trigger] out@[k])@) by {
        assert(has_name(out@, out@[k]@));
    }
    out
}

} // verus!
