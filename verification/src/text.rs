//! Character-level building blocks: the whitespace convention, trimming,
//! first-occurrence search, and conversions between strings and character
//! vectors.

use vstd::prelude::*;
use vstd::std_specs::iter::IteratorSpec;

verus! {

broadcast use vstd::string::axiom_spec_iter, vstd::string::next_postcondition;

/// The whitespace characters that are insignificant around keys and values:
/// the Unicode `White_Space` set — the ASCII whitespace characters, next
/// line, no-break space, ogham space mark, the en-quad..hair-space range,
/// the line and paragraph separators, narrow no-break space, medium
/// mathematical space, and ideographic space.
pub open spec fn is_space(c: char) -> bool {
    let u = c as u32;
    u == 0x9 || u == 0xa || u == 0xb || u == 0xc || u == 0xd || u == 0x20 || u == 0x85 || u == 0xa0
        || u == 0x1680 || (0x2000 <= u && u <= 0x200a) || u == 0x2028 || u == 0x2029 || u == 0x202f
        || u == 0x205f || u == 0x3000
}

/// Every character of `s` is whitespace.
pub open spec fn all_spaces(s: Seq<char>) -> bool {
    forall|i: int| 0 <= i < s.len() ==> is_space(s[i])
}

/// Index of the first occurrence of `c` in `s`, or `s.len()` when `c` is
/// absent.
pub open spec fn first_index_of(s: Seq<char>, c: char) -> nat
    decreases s.len(),
{
    if s.len() == 0 {
        0
    } else if s[0] == c {
        0
    } else {
        1 + first_index_of(s.drop_first(), c)
    }
}

/// `first_index_of` points at an occurrence of `c` (when there is one) and
/// nothing before it is an occurrence.
pub proof fn lemma_first_index_of(s: Seq<char>, c: char)
    ensures
        first_index_of(s, c) <= s.len(),
        forall|j: int| 0 <= j < first_index_of(s, c) ==> s[j] != c,
        first_index_of(s, c) < s.len() ==> s[first_index_of(s, c) as int] == c,
    decreases s.len(),
{
    if s.len() > 0 && s[0] != c {
        lemma_first_index_of(s.drop_first(), c);
        let r = first_index_of(s.drop_first(), c);
        assert forall|j: int| 0 <= j < first_index_of(s, c) implies s[j] != c by {
            if j > 0 {
                assert(s.drop_first()[j - 1] != c);
            }
        }
        if r < s.drop_first().len() {
            assert(s[first_index_of(s, c) as int] == s.drop_first()[r as int]);
        }
    }
}

/// An index below which `c` does not occur, and at which it occurs unless it
/// equals the length, is exactly `first_index_of`.
pub proof fn lemma_first_index_is(s: Seq<char>, c: char, i: int)
    requires
        0 <= i <= s.len(),
        forall|j: int| 0 <= j < i ==> s[j] != c,
        i < s.len() ==> s[i] == c,
    ensures
        first_index_of(s, c) == i,
{
    lemma_first_index_of(s, c);
}

/// `s` with leading whitespace removed.
pub open spec fn trim_front(s: Seq<char>) -> Seq<char>
    decreases s.len(),
{
    if s.len() > 0 && is_space(s[0]) {
        trim_front(s.drop_first())
    } else {
        s
    }
}

/// `s` with trailing whitespace removed.
pub open spec fn trim_back(s: Seq<char>) -> Seq<char>
    decreases s.len(),
{
    if s.len() > 0 && is_space(s.last()) {
        trim_back(s.drop_last())
    } else {
        s
    }
}

/// `s` with leading and trailing whitespace removed.
pub open spec fn trimmed(s: Seq<char>) -> Seq<char> {
    trim_back(trim_front(s))
}

/// `trim_front` drops exactly the whitespace prefix: if everything before `k`
/// is whitespace and position `k` is not, the result is `s.skip(k)`.
pub proof fn lemma_trim_front_skip(s: Seq<char>, k: int)
    requires
        0 <= k <= s.len(),
        forall|j: int| 0 <= j < k ==> is_space(s[j]),
        k < s.len() ==> !is_space(s[k]),
    ensures
        trim_front(s) == s.skip(k),
    decreases k,
{
    if k == 0 {
        assert(s.skip(0) =~= s);
    } else {
        assert(is_space(s[0]));
        assert forall|j: int| 0 <= j < k - 1 implies is_space(s.drop_first()[j]) by {
            assert(s.drop_first()[j] == s[j + 1]);
        }
        lemma_trim_front_skip(s.drop_first(), k - 1);
        assert(s.drop_first().skip(k - 1) =~= s.skip(k));
    }
}

/// `trim_back` drops exactly the whitespace suffix: if everything from `k` on
/// is whitespace and position `k - 1` is not, the result is `s.take(k)`.
pub proof fn lemma_trim_back_take(s: Seq<char>, k: int)
    requires
        0 <= k <= s.len(),
        forall|j: int| k <= j < s.len() ==> is_space(s[j]),
        0 < k ==> !is_space(s[k - 1]),
    ensures
        trim_back(s) == s.take(k),
    decreases s.len(),
{
    if k == s.len() {
        assert(s.take(k) =~= s);
    } else {
        assert(is_space(s.last()));
        assert forall|j: int| k <= j < s.drop_last().len() implies is_space(s.drop_last()[j]) by {
            assert(s.drop_last()[j] == s[j]);
        }
        lemma_trim_back_take(s.drop_last(), k);
        assert(s.drop_last().take(k) =~= s.take(k));
    }
}

/// A whitespace prefix does not affect `trim_front`.
pub proof fn lemma_trim_front_spaces(p: Seq<char>, s: Seq<char>)
    requires
        all_spaces(p),
    ensures
        trim_front(p + s) == trim_front(s),
    decreases p.len(),
{
    if p.len() == 0 {
        assert(p + s =~= s);
    } else {
        assert(is_space((p + s)[0]));
        assert((p + s).drop_first() =~= p.drop_first() + s);
        assert forall|j: int| 0 <= j < p.drop_first().len() implies is_space(p.drop_first()[j]) by {
            assert(p.drop_first()[j] == p[j + 1]);
        }
        lemma_trim_front_spaces(p.drop_first(), s);
    }
}

/// A whitespace suffix does not affect `trim_back`.
pub proof fn lemma_trim_back_spaces(s: Seq<char>, p: Seq<char>)
    requires
        all_spaces(p),
    ensures
        trim_back(s + p) == trim_back(s),
    decreases p.len(),
{
    if p.len() == 0 {
        assert(s + p =~= s);
    } else {
        assert(is_space((s + p).last()));
        assert((s + p).drop_last() =~= s + p.drop_last());
        assert forall|j: int| 0 <= j < p.drop_last().len() implies is_space(p.drop_last()[j]) by {
            assert(p.drop_last()[j] == p[j]);
        }
        lemma_trim_back_spaces(s, p.drop_last());
    }
}

/// Trimming removes exactly the whitespace padding: around a segment with no
/// whitespace at its ends, `trimmed` yields the segment itself.
pub proof fn lemma_trimmed_of_padded(p: Seq<char>, s: Seq<char>, q: Seq<char>)
    requires
        all_spaces(p),
        all_spaces(q),
        s.len() > 0 ==> !is_space(s.first()) && !is_space(s.last()),
    ensures
        trimmed(p + s + q) == s,
{
    assert(p + s + q =~= p + (s + q));
    lemma_trim_front_spaces(p, s + q);
    if s.len() == 0 {
        assert(s + q =~= q);
        lemma_trim_front_skip(q, q.len() as int);
        assert(q.skip(q.len() as int) =~= Seq::<char>::empty());
        assert(trimmed(p + s + q) =~= s);
    } else {
        assert((s + q)[0] == s.first());
        assert(trim_front(s + q) == s + q);
        lemma_trim_back_spaces(s, q);
        assert(trim_back(s) == s);
        assert(trimmed(p + s + q) == s);
    }
}

/// Relies on `String::push`: appends the given character to the end of the
/// string.
pub assume_specification[ String::push ](s: &mut String, c: char)
    ensures
        final(s)@ == old(s)@.push(c),
;

/// Whether `c` is one of the whitespace characters of `is_space`.
pub fn is_space_char(c: char) -> (r: bool)
    ensures
        r == is_space(c),
{
    let u: u32 = c as u32;
    u == 0x9 || u == 0xa || u == 0xb || u == 0xc || u == 0xd || u == 0x20 || u == 0x85 || u == 0xa0
        || u == 0x1680 || (0x2000 <= u && u <= 0x200a) || u == 0x2028 || u == 0x2029 || u == 0x202f
        || u == 0x205f || u == 0x3000
}

/// Collects the characters of `s` into a vector.
pub fn chars_of(s: &str) -> (r: Vec<char>)
    ensures
        r@ == s@,
{
    let mut r: Vec<char> = Vec::new();
    for c in it: s.chars()
        invariant
            it.seq() == s@,
            r@ == it.seq().take(it.index() as int),
    {
        r.push(c);
    }
    proof {
        assert(r@ =~= s@);
    }
    r
}

/// Copies `cs[lo..hi]` into a fresh string.
pub fn string_from_range(cs: &Vec<char>, lo: usize, hi: usize) -> (r: String)
    requires
        lo <= hi <= cs@.len(),
    ensures
        r@ == cs@.subrange(lo as int, hi as int),
{
    let mut r = String::new();
    let mut i: usize = lo;
    proof {
        assert(r@ =~= cs@.subrange(lo as int, lo as int));
    }
    while i < hi
        invariant
            lo <= i <= hi,
            hi <= cs@.len(),
            r@ == cs@.subrange(lo as int, i as int),
        decreases hi - i,
    {
        proof {
            assert(cs@.subrange(lo as int, i as int).push(cs@[i as int]) =~= cs@.subrange(
                lo as int,
                i as int + 1,
            ));
        }
        r.push(cs[i]);
        i = i + 1;
    }
    r
}

/// First position of `c` in `cs[start..end]`, or `end` when it is absent.
pub fn find_in_range(cs: &Vec<char>, start: usize, end: usize, c: char) -> (r: usize)
    requires
        start <= end <= cs@.len(),
    ensures
        start <= r <= end,
        r - start == first_index_of(cs@.subrange(start as int, end as int), c),
{
    let mut i: usize = start;
    while i < end
        invariant
            start <= i <= end,
            end <= cs@.len(),
            forall|j: int| start <= j < i ==> cs@[j] != c,
        decreases end - i,
    {
        if cs[i] == c {
            proof {
                let s = cs@.subrange(start as int, end as int);
                assert forall|j: int| 0 <= j < i - start implies s[j] != c by {
                    assert(s[j] == cs@[start + j]);
                }
                assert(s[i - start] == cs@[i as int]);
                lemma_first_index_is(s, c, i - start);
            }
            return i;
        }
        i = i + 1;
    }
    proof {
        let s = cs@.subrange(start as int, end as int);
        assert forall|j: int| 0 <= j < end - start implies s[j] != c by {
            assert(s[j] == cs@[start + j]);
        }
        lemma_first_index_is(s, c, end - start);
    }
    end
}

/// Bounds of `cs[lo..hi]` after removing surrounding whitespace: the subrange
/// they delimit is the trimmed segment.
pub fn trimmed_range(cs: &Vec<char>, lo: usize, hi: usize) -> (r: (usize, usize))
    requires
        lo <= hi <= cs@.len(),
    ensures
        lo <= r.0 <= r.1 <= hi,
        cs@.subrange(r.0 as int, r.1 as int) == trimmed(cs@.subrange(lo as int, hi as int)),
{
    let mut a: usize = lo;
    while a < hi && is_space_char(cs[a])
        invariant
            lo <= a <= hi,
            hi <= cs@.len(),
            forall|j: int| lo <= j < a ==> is_space(cs@[j]),
        decreases hi - a,
    {
        a = a + 1;
    }
    let mut b: usize = hi;
    while b > a && is_space_char(cs[b - 1])
        invariant
            a <= b <= hi,
            hi <= cs@.len(),
            forall|j: int| b <= j < hi ==> is_space(cs@[j]),
        decreases b,
    {
        b = b - 1;
    }
    proof {
        let s = cs@.subrange(lo as int, hi as int);
        assert forall|j: int| 0 <= j < a - lo implies is_space(s[j]) by {
            assert(s[j] == cs@[lo + j]);
        }
        lemma_trim_front_skip(s, a - lo);
        let t = s.skip(a - lo);
        assert(t =~= cs@.subrange(a as int, hi as int));
        assert forall|j: int| b - a <= j < t.len() implies is_space(t[j]) by {
            assert(t[j] == cs@[a + j]);
        }
        lemma_trim_back_take(t, b - a);
        assert(t.take(b - a) =~= cs@.subrange(a as int, b as int));
    }
    (a, b)
}

} // verus!
