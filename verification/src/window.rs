//! The small decisions around the window: the answer a password window
//! sends back, and whether a process recorded as the open window is one.
use vstd::prelude::*;
use crate::text;

verus! {

/// `s` without the newlines at its end.
pub open spec fn without_newlines(s: Seq<char>) -> Seq<char>
    decreases s.len(),
{
    if s.len() > 0 && s.last() == '\n' {
        without_newlines(s.drop_last())
    } else {
        s
    }
}

/// The answer a password window sent: what was read, less the newlines at
/// its end; nothing when that leaves it empty.
pub fn password_answer(read: &str) -> (r: Option<String>)
    ensures
        without_newlines(read@).len() == 0 ==> r is None,
        without_newlines(read@).len() > 0 ==> (r matches Some(a) && a@ == without_newlines(read@)),
{
    let cs = text::chars_of(read);
    let mut j = cs.len();
    assert(cs@.take(j as int) =~= cs@);
    while j > 0 && cs[j - 1] == '\n'
        invariant
            j <= cs.len(),
            cs@ == read@,
            without_newlines(read@) == without_newlines(cs@.take(j as int)),
        decreases j,
    {
        proof {
            let t = cs@.take(j as int);
            assert(t.last() == cs[j - 1]);
            assert(t.drop_last() =~= cs@.take(j - 1));
        }
        j = j - 1;
    }
    proof {
        let t = cs@.take(j as int);
        if j > 0 {
            assert(t.last() == cs[j - 1]);
        }
    }
    if j == 0 {
        None
    } else {
        Some(text::string_of(&cs, 0, j))
    }
}

/// Whether `s` is one or more ASCII decimal digits.
pub open spec fn is_digits(s: Seq<char>) -> bool {
    s.len() > 0 && forall|i: int| 0 <= i < s.len() ==> '0' as u32 <= #[trigger] (s[i] as u32) <= '9' as u32
}

/// The value of a run of decimal digits.
pub open spec fn decimal(s: Seq<char>) -> int
    decreases s.len(),
{
    if s.len() == 0 {
        0
    } else {
        decimal(s.drop_last()) * 10 + (s.last() as u32 - '0' as u32)
    }
}

/// The number a text spells: an optional `+` or `-`, then decimal digits,
/// and nothing else.
pub open spec fn signed_decimal(s: Seq<char>) -> Option<int> {
    if s.len() > 0 && (s[0] == '+' || s[0] == '-') {
        if is_digits(s.drop_first()) {
            Some(
                if s[0] == '-' {
                    -decimal(s.drop_first())
                } else {
                    decimal(s.drop_first())
                },
            )
        } else {
            None
        }
    } else if is_digits(s) {
        Some(decimal(s))
    } else {
        None
    }
}

/// The `i32` a text reads as: the number it spells, when that is in range.
pub open spec fn parsed_i32(s: Seq<char>) -> Option<i32> {
    match signed_decimal(s) {
        Some(v) => if i32::MIN <= v <= i32::MAX {
            Some(v as i32)
        } else {
            None
        },
        None => None,
    }
}

/// Whether `c` is an ASCII decimal digit.
pub open spec fn is_digit(c: char) -> bool {
    '0' as u32 <= c as u32 <= '9' as u32
}

proof fn lemma_decimal_grows(s: Seq<char>, a: int, b: int)
    requires
        0 <= a <= b <= s.len(),
        forall|i: int| 0 <= i < b ==> is_digit(#[trigger] s[i]),
    ensures
        0 <= decimal(s.take(a)) <= decimal(s.take(b)),
    decreases b,
{
    if b > 0 {
        let t = s.take(b);
        assert(t.drop_last() =~= s.take(b - 1));
        assert(t.last() == s[b - 1]);
        assert(is_digit(s[b - 1]));
        if a < b {
            lemma_decimal_grows(s, a, b - 1);
        } else {
            lemma_decimal_grows(s, b - 1, b - 1);
        }
    } else {
        assert(s.take(0) =~= Seq::<char>::empty());
    }
}

/// The `i32` that the characters `cs` read as, the way `str::parse::<i32>`
/// reads a text: an optional `+` or `-`, then ASCII digits only, and a
/// number that fits in an `i32`; nothing otherwise.
fn read_i32(cs: &Vec<char>) -> (r: Option<i32>)
    ensures
        r == parsed_i32(cs@),
{
    let n = cs.len();
    if n == 0 {
        return None;
    }
    let signed = cs[0] == '+' || cs[0] == '-';
    let neg = cs[0] == '-';
    let start: usize = if signed {
        1
    } else {
        0
    };
    let ghost d = cs@.subrange(start as int, n as int);
    proof {
        if signed {
            assert(d =~= cs@.drop_first());
        } else {
            assert(d =~= cs@);
        }
    }
    if start == n {
        assert(d.len() == 0);
        return None;
    }
    let mut v: i64 = 0;
    let mut i = start;
    assert(d.take(0) =~= Seq::<char>::empty());
    while i < n
        invariant
            start <= i <= n == cs.len(),
            n > 0,
            signed == (cs@[0] == '+' || cs@[0] == '-'),
            neg == (cs@[0] == '-'),
            start == if signed {
                1usize
            } else {
                0usize
            },
            signed ==> d == cs@.drop_first(),
            !signed ==> d == cs@,
            d == cs@.subrange(start as int, n as int),
            forall|k: int| 0 <= k < i - start ==> is_digit(#[trigger] d[k]),
            v == decimal(d.take(i - start)),
            0 <= v <= 2147483648,
        decreases n - i,
    {
        let u = cs[i] as u32;
        assert(d[i - start] == cs[i as int]);
        if u < ('0' as u32) || u > ('9' as u32) {
            assert(!is_digits(d)) by {
                assert(!is_digit(d[i - start]));
            }
            return None;
        }
        proof {
            let t = d.take(i - start + 1);
            assert(t.drop_last() =~= d.take(i - start));
            assert(t.last() == cs[i as int]);
        }
        v = v * 10 + (u - ('0' as u32)) as i64;
        i = i + 1;
        if v > 2147483648 {
            proof {
                if is_digits(d) {
                    lemma_decimal_grows(d, i - start, d.len() as int);
                    assert(d.take(d.len() as int) =~= d);
                }
            }
            return None;
        }
    }
    assert(d.take(d.len() as int) =~= d);
    assert(is_digits(d));
    if neg {
        Some((-v) as i32)
    } else if v > 2147483647 {
        None
    } else {
        Some(v as i32)
    }
}

/// The process number recorded in the text of a pid file: the text
/// trimmed, read as a number.
pub fn pid_in(text_read: &str) -> (r: Option<i32>)
    ensures
        r == parsed_i32(text::trimmed(text_read@)),
{
    let cs = text::chars_of(text_read);
    let (a, b) = text::trim_bounds(&cs, 0, cs.len());
    assert(cs@.subrange(0, cs.len() as int) =~= cs@);
    let t = text::string_of(&cs, a, b);
    read_i32(&text::chars_of(t.as_str()))
}

/// Whether a process's command name, as `/proc/PID/comm` gives it, is
/// this launcher's.
pub fn is_launcher(comm: &str) -> (r: bool)
    ensures
        r == (text::trimmed(comm@) == "launch"@),
{
    let cs = text::chars_of(comm);
    let (a, b) = text::trim_bounds(&cs, 0, cs.len());
    assert(cs@.subrange(0, cs.len() as int) =~= cs@);
    let t = text::string_of(&cs, a, b);
    text::same_text(t.as_str(), "launch")
}

} // verus!
