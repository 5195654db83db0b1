//! Reading the generic parameter names of an enclosing derivation back from
//! its rendered document.
use vstd::prelude::*;
use crate::text::{chars_of, string_of_range};
use crate::words::strings_view;

verus! {

/// Index of the first `c` in `s` at or after `i`, or -1.
pub open spec fn find_from(s: Seq<char>, i: int, c: char) -> int
    decreases s.len() - i,
{
    if i < 0 || i >= s.len() {
        -1
    } else if s[i] == c {
        i
    } else {
        find_from(s, i + 1, c)
    }
}

/// Whether, after spaces and line breaks from `i` on, `s` holds a `:`.
pub open spec fn colon_follows(s: Seq<char>, i: int) -> bool
    decreases s.len() - i,
{
    if i < 0 || i >= s.len() {
        false
    } else if s[i] == ':' {
        true
    } else if s[i] == ' ' || s[i] == '\n' {
        colon_follows(s, i + 1)
    } else {
        false
    }
}

pub proof fn lemma_find_from(s: Seq<char>, i: int, c: char)
    ensures
        find_from(s, i, c) == -1 || (0 <= i <= find_from(s, i, c) < s.len() && s[find_from(s, i, c)] == c),
        find_from(s, i, c) == -1 ==> forall|k: int| 0 <= i <= k < s.len() ==> s[k] != c,
        find_from(s, i, c) != -1 ==> forall|k: int| i <= k < find_from(s, i, c) ==> s[k] != c,
    decreases s.len() - i,
{
    if 0 <= i < s.len() && s[i] != c {
        lemma_find_from(s, i + 1, c);
    }
}

/// The keys of the generics section of a rendered document, read from `s`
/// at bracket depth `depth`; `in_section` says the `"generics"` key of the
/// outermost object has been read. A key is a quoted string followed by a
/// colon; those at depth 2 inside the section are collected; the section
/// ends with the bracket that closes it.
pub open spec fn section_keys(s: Seq<char>, depth: int, in_section: bool) -> Seq<Seq<char>>
    decreases s.len(),
{
    if s.len() == 0 {
        Seq::empty()
    } else if s[0] == '"' {
        let q = find_from(s, 1, '"');
        proof {
            lemma_find_from(s, 1, '"');
        }
        if q < 0 {
            Seq::empty()
        } else {
            let name = s.subrange(1, q);
            let after = s.subrange(q + 1, s.len() as int);
            let is_key = colon_follows(after, 0);
            if is_key && in_section && depth == 2 {
                seq![name] + section_keys(after, depth, in_section)
            } else if is_key && !in_section && depth == 1 && name == "generics"@ {
                section_keys(after, depth, true)
            } else {
                section_keys(after, depth, in_section)
            }
        }
    } else if s[0] == '{' || s[0] == '[' {
        section_keys(s.drop_first(), depth + 1, in_section)
    } else if s[0] == '}' || s[0] == ']' {
        if in_section && depth <= 2 {
            Seq::empty()
        } else {
            section_keys(s.drop_first(), depth - 1, in_section)
        }
    } else {
        section_keys(s.drop_first(), depth, in_section)
    }
}

fn find_char(s: &Vec<char>, i: usize, c: char) -> (r: Option<usize>)
    requires
        i <= s@.len(),
    ensures
        match r {
            Some(k) => find_from(s@, i as int, c) == k,
            None => find_from(s@, i as int, c) == -1,
        },
{
    let mut k: usize = i;
    while k < s.len()
        invariant
            i <= k <= s@.len(),
            find_from(s@, i as int, c) == find_from(s@, k as int, c),
        decreases s@.len() - k,
    {
        if s[k] == c {
            return Some(k);
        }
        k += 1;
    }
    None
}

fn colon_at(s: &Vec<char>, i: usize) -> (r: bool)
    requires
        i <= s@.len(),
    ensures
        r == colon_follows(s@.subrange(i as int, s@.len() as int), 0),
{
    let ghost t = s@.subrange(i as int, s@.len() as int);
    let mut k: usize = i;
    while k < s.len()
        invariant
            i <= k <= s@.len(),
            t == s@.subrange(i as int, s@.len() as int),
            colon_follows(t, 0) == colon_follows(t, k - i),
        decreases s@.len() - k,
    {
        assert(t[k - i] == s@[k as int]);
        if s[k] == ':' {
            return true;
        }
        if s[k] != ' ' && s[k] != '\n' {
            return false;
        }
        k += 1;
    }
    false
}

/// The generic parameter names that a rendered document declares, in the
/// order of its generics section (see [`section_keys`]).
pub fn extract_parent_generics(text: &str) -> (r: Vec<String>)
    ensures
        strings_view(r@) == section_keys(text@, 0, false),
{
    let s = chars_of(text);
    let n = s.len();
    let mut r: Vec<String> = Vec::new();
    let mut i: usize = 0;
    let mut depth: i128 = 0;
    let mut in_section = false;
    assert(s@.subrange(0, n as int) =~= s@);
    while i < n
        invariant_except_break
            n == s@.len(),
            s@ == text@,
            i <= n,
            -(i as int) <= depth <= i as int,
            strings_view(r@) + section_keys(s@.subrange(i as int, n as int), depth as int, in_section)
                == section_keys(text@, 0, false),
        ensures
            strings_view(r@) == section_keys(text@, 0, false),
        decreases n - i,
    {
        let ghost u = s@.subrange(i as int, n as int);
        let ghost before = r@;
        assert(u[0] == s@[i as int]);
        let c = s[i];
        if c == '"' {
            proof {
                lemma_find_from(u, 1, '"');
                lemma_find_from(s@, i + 1, '"');
                assert forall|k: int| 1 <= k < u.len() implies (#[trigger] u[k] == '"') == (s@[i + k] == '"') by {}
                if find_from(u, 1, '"') >= 0 {
                    let q = find_from(u, 1, '"');
                    assert(find_from(s@, i + 1, '"') == i + q) by {
                        lemma_find_from(s@, i + 1, '"');
                        if find_from(s@, i + 1, '"') == -1 {
                            assert(s@[i + q] == '"');
                        } else {
                            let f = find_from(s@, i + 1, '"');
                            assert(u[f - i] == '"');
                        }
                    }
                } else {
                    if find_from(s@, i + 1, '"') != -1 {
                        let f = find_from(s@, i + 1, '"');
                        assert(u[f - i] == '"');
                    }
                }
            }
            match find_char(&s, i + 1, '"') {
                None => {
                    assert(strings_view(r@) + Seq::<Seq<char>>::empty() =~= strings_view(r@));
                    break;
                },
                Some(q) => {
                    let is_key = colon_at(&s, q + 1);
                    proof {
                        assert(u.subrange(1, q - i) =~= s@.subrange(i + 1, q as int));
                        assert(u.subrange(q - i + 1, u.len() as int) =~= s@.subrange(q + 1, n as int));
                    }
                    if is_key && in_section && depth == 2 {
                        let name = string_of_range(&s, i + 1, q);
                        r.push(name);
                        assert(strings_view(r@) =~= strings_view(before).push(name@));
                        assert(strings_view(r@) + section_keys(s@.subrange(q + 1, n as int), depth as int, in_section)
                            =~= strings_view(before) + (seq![name@] + section_keys(s@.subrange(q + 1, n as int), depth as int, in_section)));
                    } else if is_key && !in_section && depth == 1 {
                        let name = string_of_range(&s, i + 1, q);
                        if crate::words::chars_are(&chars_of(name.as_str()), "generics") {
                            in_section = true;
                        }
                    }
                    i = q + 1;
                },
            }
        } else if c == '{' || c == '[' {
            depth = depth + 1;
            i += 1;
            assert(u.drop_first() =~= s@.subrange(i as int, n as int));
        } else if c == '}' || c == ']' {
            if in_section && depth <= 2 {
                assert(strings_view(r@) + Seq::<Seq<char>>::empty() =~= strings_view(r@));
                break;
            }
            depth = depth - 1;
            i += 1;
            assert(u.drop_first() =~= s@.subrange(i as int, n as int));
        } else {
            i += 1;
            assert(u.drop_first() =~= s@.subrange(i as int, n as int));
        }
    }
    proof {
        if i == n {
            assert(s@.subrange(n as int, n as int) =~= Seq::<char>::empty());
        }
    }
    r
}

} // verus!
