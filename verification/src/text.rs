//! Small verified helpers over strings and character sequences: conversions
//! between `String` and `Vec<char>`, equality, and substring search. These
//! carry the text reasoning for the rest of the engine.

use vstd::prelude::*;
use vstd::string::StrSliceExecFns;

verus! {

/// Relies on `String::push`: appends exactly the given character.
pub assume_specification[ String::push ](s: &mut String, ch: char)
    ensures
        final(s)@ == old(s)@.push(ch),
;

/// The characters of `s`, in order, as a vector.
pub fn chars_of(s: &str) -> (r: Vec<char>)
    ensures
        r@ == s@,
{
    let n = s.unicode_len();
    let mut r: Vec<char> = Vec::new();
    let mut i: usize = 0;
    while i < n
        invariant
            i <= n,
            n == s@.len(),
            r@ == s@.take(i as int),
        decreases n - i,
    {
        r.push(s.get_char(i));
        proof {
            assert(r@ =~= s@.take(i + 1 as int));
        }
        i = i + 1;
    }
    proof {
        assert(r@ =~= s@);
    }
    r
}

/// A `String` holding exactly the characters of `v`, in order.
pub fn string_from_chars(v: &Vec<char>) -> (r: String)
    ensures
        r@ == v@,
{
    let mut r = String::new();
    let mut i: usize = 0;
    while i < v.len()
        invariant
            i <= v@.len(),
            r@ == v@.take(i as int),
        decreases v@.len() - i,
    {
        r.push(v[i]);
        proof {
            assert(r@ =~= v@.take(i + 1 as int));
        }
        i = i + 1;
    }
    proof {
        assert(r@ =~= v@);
    }
    r
}

/// Whether two string slices hold the same characters.
pub fn str_eq(a: &str, b: &str) -> (r: bool)
    ensures
        r == (a@ == b@),
{
    let n = a.unicode_len();
    if n != b.unicode_len() {
        return false;
    }
    let mut i: usize = 0;
    while i < n
        invariant
            i <= n,
            n == a@.len(),
            n == b@.len(),
            forall|j: int| 0 <= j < i ==> a@[j] == b@[j],
        decreases n - i,
    {
        if a.get_char(i) != b.get_char(i) {
            return false;
        }
        i = i + 1;
    }
    proof {
        assert(a@ =~= b@);
    }
    true
}

/// `n` occurs in `h` starting at position `i`.
pub open spec fn substring_at(h: Seq<char>, n: Seq<char>, i: int) -> bool {
    h.subrange(i, i + n.len() as int) == n
}

/// `n` occurs somewhere in `h` (every sequence contains the empty one).
pub open spec fn has_substring(h: Seq<char>, n: Seq<char>) -> bool {
    exists|i: int| 0 <= i <= h.len() - n.len() && substring_at(h, n, i)
}

fn match_at(hay: &str, needle: &str, i: usize, hn: usize, nn: usize) -> (r: bool)
    requires
        hn == hay@.len(),
        nn == needle@.len(),
        i + nn <= hn,
    ensures
        r == substring_at(hay@, needle@, i as int),
{
    let mut j: usize = 0;
    while j < nn
        invariant
            j <= nn,
            hn == hay@.len(),
            nn == needle@.len(),
            i + nn <= hn,
            forall|k: int| 0 <= k < j ==> hay@[i + k] == needle@[k],
        decreases nn - j,
    {
        if hay.get_char(i + j) != needle.get_char(j) {
            proof {
                assert(hay@.subrange(i as int, i + nn as int)[j as int] == hay@[i + j]);
            }
            return false;
        }
        j = j + 1;
    }
    proof {
        assert(hay@.subrange(i as int, i + nn as int) =~= needle@);
    }
    true
}

/// Whether `needle` occurs in `hay` as a contiguous substring.
pub fn contains_substring(hay: &str, needle: &str) -> (r: bool)
    ensures
        r == has_substring(hay@, needle@),
{
    let hn = hay.unicode_len();
    let nn = needle.unicode_len();
    if nn > hn {
        return false;
    }
    if nn == 0 {
        proof {
            assert(hay@.subrange(0, 0) =~= needle@);
            assert(substring_at(hay@, needle@, 0));
        }
        return true;
    }
    let end = hn - nn;
    let mut i: usize = 0;
    while i <= end
        invariant
            1 <= nn <= hn,
            end == hn - nn,
            hn == hay@.len(),
            nn == needle@.len(),
            i <= end + 1,
            forall|j: int| 0 <= j < i ==> !substring_at(hay@, needle@, j),
        decreases end + 1 - i,
    {
        if match_at(hay, needle, i, hn, nn) {
            return true;
        }
        i = i + 1;
    }
    false
}

/// `s` is one of the texts in `vs`.
pub open spec fn contains_text(vs: Seq<Seq<char>>, s: Seq<char>) -> bool {
    exists|i: int| 0 <= i < vs.len() && vs[i] == s
}

/// Whether `s` equals one of the strings in `v`.
pub fn vec_contains_string(v: &Vec<String>, s: &str) -> (r: bool)
    ensures
        r == contains_text(v.deep_view(), s@),
{
    let mut i: usize = 0;
    while i < v.len()
        invariant
            i <= v@.len(),
            forall|j: int| 0 <= j < i ==> v.deep_view()[j] != s@,
        decreases v@.len() - i,
    {
        if str_eq(v[i].as_str(), s) {
            proof {
                assert(v.deep_view()[i as int] == s@);
            }
            return true;
        }
        i = i + 1;
    }
    false
}

/// No two of the texts are equal.
pub open spec fn distinct_texts(vs: Seq<Seq<char>>) -> bool {
    forall|a: int, b: int| 0 <= a < b < vs.len() ==> vs[a] != vs[b]
}

/// Appends `s` unless an equal string is already there; keeps the list
/// duplicate-free and otherwise unchanged.
pub fn add_literal(out: &mut Vec<String>, s: &str)
    ensures
        forall|t: Seq<char>|
            #[trigger] contains_text(final(out).deep_view(), t) <==> (
            contains_text(old(out).deep_view(), t) || t == s@),
        distinct_texts(old(out).deep_view()) ==> distinct_texts(final(out).deep_view()),
{
    let present = vec_contains_string(out, s);
    let ghost pre = out.deep_view();
    if !present {
        out.push(String::from_str(s));
        proof {
            assert(out.deep_view() =~= pre.push(s@));
        }
    }
    proof {
        assert forall|t: Seq<char>|
            #[trigger] contains_text(out.deep_view(), t) <==> (
        contains_text(pre, t) || t == s@) by {
            if present {
                if t == s@ {
                    assert(contains_text(pre, t));
                }
            } else {
                if contains_text(out.deep_view(), t) {
                    let idx = choose|idx: int|
                        0 <= idx < out.deep_view().len() && out.deep_view()[idx] == t;
                    if idx < pre.len() {
                        assert(pre[idx] == t);
                    } else {
                        assert(t == s@);
                    }
                }
                if contains_text(pre, t) {
                    let idx = choose|idx: int| 0 <= idx < pre.len() && pre[idx] == t;
                    assert(out.deep_view()[idx] == t);
                }
                if t == s@ {
                    assert(out.deep_view()[pre.len() as int] == s@);
                }
            }
        }
    }
}

} // verus!
