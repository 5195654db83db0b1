//! Splitting type-expression text into identifier words, and the fixed set of
//! primitive type names.
use vstd::prelude::*;
use crate::text::{chars_of, range_eq, is_word_char, string_of_range, word_char};

verus! {

/// Length of the identifier word that starts `s` (0 when `s` does not start
/// with a word character).
pub open spec fn leading_word_len(s: Seq<char>) -> nat
    decreases s.len(),
{
    if s.len() > 0 && word_char(s[0]) {
        1 + leading_word_len(s.drop_first())
    } else {
        0
    }
}

/// The maximal runs of word characters in `s`, left to right.
pub open spec fn words(s: Seq<char>) -> Seq<Seq<char>>
    decreases s.len(),
{
    if s.len() == 0 {
        Seq::empty()
    } else if word_char(s[0]) {
        let n = leading_word_len(s);
        proof {
            lemma_leading_word_len_bound(s);
        }
        seq![s.take(n as int)] + words(s.skip(n as int))
    } else {
        words(s.drop_first())
    }
}

/// The characters of a list of strings.
pub open spec fn strings_view(v: Seq<String>) -> Seq<Seq<char>> {
    v.map_values(|x: String| x@)
}

pub proof fn lemma_leading_word_len_bound(s: Seq<char>)
    ensures
        leading_word_len(s) <= s.len(),
        leading_word_len(s) > 0 ==> word_char(s[0]),
        forall|k: int| 0 <= k < leading_word_len(s) ==> word_char(#[trigger] s[k]),
        leading_word_len(s) < s.len() ==> !word_char(s[leading_word_len(s) as int]),
    decreases s.len(),
{
    if s.len() > 0 && word_char(s[0]) {
        lemma_leading_word_len_bound(s.drop_first());
        assert forall|k: int| 0 <= k < leading_word_len(s) implies word_char(#[trigger] s[k]) by {
            if k > 0 {
                assert(s[k] == s.drop_first()[k - 1]);
            }
        }
    }
}

/// A word of `s[i..j]` read from `i`: the run stops at `j`.
pub proof fn lemma_leading_word_len_is(s: Seq<char>, i: int, j: int)
    requires
        0 <= i <= j <= s.len(),
        forall|k: int| i <= k < j ==> word_char(#[trigger] s[k]),
        j == s.len() || !word_char(s[j]),
    ensures
        leading_word_len(s.skip(i)) == j - i,
    decreases j - i,
{
    if i < j {
        lemma_leading_word_len_is(s, i + 1, j);
        assert(s.skip(i).drop_first() =~= s.skip(i + 1));
        assert(s.skip(i)[0] == s[i]);
    } else {
        if j < s.len() {
            assert(s.skip(i)[0] == s[j]);
        }
    }
}

/// Index just past the word that starts at `i` in `s`.
pub(crate) fn word_end(s: &Vec<char>, i: usize, hi: usize) -> (j: usize)
    requires
        i <= hi <= s@.len(),
    ensures
        i <= j <= hi,
        forall|k: int| i <= k < j ==> word_char(#[trigger] s@[k]),
        j == hi || !word_char(s@[j as int]),
        leading_word_len(s@.subrange(i as int, hi as int)) == j - i,
{
    let mut j: usize = i;
    while j < hi && is_word_char(s[j])
        invariant
            i <= j <= hi,
            hi <= s@.len(),
            forall|k: int| i <= k < j ==> word_char(#[trigger] s@[k]),
        decreases hi - j,
    {
        j += 1;
    }
    proof {
        let t = s@.subrange(i as int, hi as int);
        lemma_leading_word_len_is(t, 0, j - i);
        assert(t.skip(0) =~= t);
    }
    j
}

/// The identifier words of a type expression, in order of appearance.
pub fn extract_type_names(sref: &str) -> (r: Vec<String>)
    ensures
        strings_view(r@) == words(sref@),
{
    let s = chars_of(sref);
    let n = s.len();
    let mut r: Vec<String> = Vec::new();
    let mut i: usize = 0;
    assert(s@.skip(0) =~= s@);
    while i < n
        invariant
            n == s@.len(),
            s@ == sref@,
            i <= n,
            strings_view(r@) + words(s@.skip(i as int)) == words(s@),
        decreases n - i,
    {
        let ghost rest = s@.skip(i as int);
        if is_word_char(s[i]) {
            let j = word_end(&s, i, n);
            proof {
                assert(s@.subrange(i as int, n as int) =~= rest);
                assert(rest.take(j - i) =~= s@.subrange(i as int, j as int));
                assert(rest.skip(j - i) =~= s@.skip(j as int));
            }
            let w = string_of_range(&s, i, j);
            let ghost before = r@;
            r.push(w);
            proof {
                assert(strings_view(r@) =~= strings_view(before).push(w@));
            }
            i = j;
        } else {
            proof {
                assert(rest.drop_first() =~= s@.skip(i + 1));
            }
            i += 1;
        }
    }
    proof {
        assert(s@.skip(n as int) =~= Seq::<char>::empty());
        assert(strings_view(r@) + Seq::<Seq<char>>::empty() =~= strings_view(r@));
    }
    r
}

/// The fixed set of primitive type names: integers, floats, `bool`, `char`,
/// `String`, and the two leaf types `Uuid` and `NaiveDateTime`.
pub open spec fn primitive_name(s: Seq<char>) -> bool {
    s == "usize"@
        || s == "isize"@
        || s == "i8"@
        || s == "i16"@
        || s == "i32"@
        || s == "i64"@
        || s == "u8"@
        || s == "u16"@
        || s == "u32"@
        || s == "u64"@
        || s == "f32"@
        || s == "f64"@
        || s == "bool"@
        || s == "char"@
        || s == "String"@
        || s == "Uuid"@
        || s == "NaiveDateTime"@
}

/// Whether `s` spells `lit`.
pub(crate) fn chars_are(s: &Vec<char>, lit: &str) -> (r: bool)
    ensures
        r == (s@ == lit@),
{
    let l = chars_of(lit);
    assert(s@.subrange(0, s@.len() as int) =~= s@);
    range_eq(s, 0, s.len(), &l)
}

/// Whether a type's written form names one of the primitive types.
pub fn is_primitive_type(type_string: &str) -> (r: bool)
    ensures
        r == primitive_name(type_string@),
{
    let s = chars_of(type_string);
    chars_are(&s, "usize")
        || chars_are(&s, "isize")
        || chars_are(&s, "i8")
        || chars_are(&s, "i16")
        || chars_are(&s, "i32")
        || chars_are(&s, "i64")
        || chars_are(&s, "u8")
        || chars_are(&s, "u16")
        || chars_are(&s, "u32")
        || chars_are(&s, "u64")
        || chars_are(&s, "f32")
        || chars_are(&s, "f64")
        || chars_are(&s, "bool")
        || chars_are(&s, "char")
        || chars_are(&s, "String")
        || chars_are(&s, "Uuid")
        || chars_are(&s, "NaiveDateTime")
}

/// Whether one of the strings of `list` spells `s[lo..hi]`.
pub(crate) fn list_contains(list: &[String], s: &Vec<char>, lo: usize, hi: usize) -> (r: bool)
    requires
        lo <= hi <= s@.len(),
    ensures
        r == strings_view(list@).contains(s@.subrange(lo as int, hi as int)),
{
    let mut i: usize = 0;
    while i < list.len()
        invariant
            lo <= hi <= s@.len(),
            i <= list@.len(),
            forall|k: int| 0 <= k < i ==> list@[k]@ != s@.subrange(lo as int, hi as int),
        decreases list@.len() - i,
    {
        let c = chars_of(list[i].as_str());
        if range_eq(s, lo, hi, &c) {
            assert(strings_view(list@)[i as int] == s@.subrange(lo as int, hi as int));
            return true;
        }
        i += 1;
    }
    proof {
        if strings_view(list@).contains(s@.subrange(lo as int, hi as int)) {
            let k = choose|k: int| 0 <= k < strings_view(list@).len() && strings_view(list@)[k] == s@.subrange(lo as int, hi as int);
            assert(list@[k]@ == strings_view(list@)[k]);
        }
    }
    false
}

/// A concatenation holds exactly what its two parts hold.
pub proof fn lemma_concat_contains(l: Seq<Seq<char>>, p: Seq<Seq<char>>, x: Seq<char>)
    ensures
        (l + p).contains(x) <==> (l.contains(x) || p.contains(x)),
{
    let g = l + p;
    if g.contains(x) {
        let k = choose|k: int| 0 <= k < g.len() && g[k] == x;
        if k < l.len() {
            assert(l[k] == x);
        } else {
            assert(p[k - l.len()] == x);
        }
    }
    if l.contains(x) {
        let k = choose|k: int| 0 <= k < l.len() && l[k] == x;
        assert(g[k] == x);
    }
    if p.contains(x) {
        let k = choose|k: int| 0 <= k < p.len() && p[k] == x;
        assert(g[k + l.len()] == x);
    }
}

} // verus!
