//! The substitution pass: every placeholder token of a rendered document is
//! replaced by the schema it stands for; a token that nothing stands for is
//! an error.
use vstd::prelude::*;
use crate::render::{placeholder_id, sanitize_name};
use crate::resolve::closing_from;
use crate::text::{chars_of, push_all, range_eq, string_of_range, to_upper};
use crate::table::entries_view;
use crate::words::{leading_word_len, word_end};

verus! {

/// Why a document could not be completed.
#[derive(Debug, PartialEq, Eq)]
pub enum SchemaError {
    /// A placeholder token for which no schema was supplied; it carries the
    /// name inside the token.
    UnresolvedPlaceholder(String),
}

/// `s` begins with `p`.
pub open spec fn starts_with(s: Seq<char>, p: Seq<char>) -> bool {
    p.len() <= s.len() && s.take(p.len() as int) == p
}

/// The name inside a token `<fence>name<fence>` at the start of `s`, if one
/// is there (the name being a non-empty identifier word).
pub open spec fn fenced_name(s: Seq<char>, fence: Seq<char>) -> Option<Seq<char>> {
    if starts_with(s, fence) {
        let n = leading_word_len(s.skip(fence.len() as int));
        if n > 0 && starts_with(s.skip(fence.len() + n as int), fence) {
            Some(s.subrange(fence.len() as int, fence.len() + n as int))
        } else {
            None
        }
    } else {
        None
    }
}

/// The referenced name of a pointer `#/definitions/<name>` at the start of
/// `s`: an identifier word, with the bracket group that directly follows it.
pub open spec fn pointer_name(s: Seq<char>) -> Option<Seq<char>> {
    let p = "#/definitions/"@;
    if starts_with(s, p) {
        let n = leading_word_len(s.skip(p.len() as int));
        let after = s.skip(p.len() + n as int);
        let g = if after.len() > 0 && after[0] == '<' && closing_from(after, 1, 1) >= 0 {
            closing_from(after, 1, 1) + 1
        } else {
            0
        };
        if n > 0 {
            Some(s.subrange(p.len() as int, p.len() + n as int + g))
        } else {
            None
        }
    } else {
        None
    }
}

pub proof fn lemma_fenced_name(s: Seq<char>, fence: Seq<char>)
    ensures
        fenced_name(s, fence) is Some ==> {
            let n = fenced_name(s, fence)->0.len();
            &&& n > 0
            &&& 2 * fence.len() + n <= s.len()
            &&& fenced_name(s, fence)->0 == s.subrange(fence.len() as int, fence.len() + n as int)
        },
{
    if starts_with(s, fence) {
        let t = s.skip(fence.len() as int);
        crate::words::lemma_leading_word_len_bound(t);
    }
}

pub proof fn lemma_pointer_name(s: Seq<char>)
    ensures
        pointer_name(s) is Some ==> 14 + pointer_name(s)->0.len() <= s.len() && pointer_name(s)->0.len() > 0,
{
    let p = "#/definitions/"@;
    reveal_strlit("#/definitions/");
    if starts_with(s, p) {
        let t = s.skip(p.len() as int);
        crate::words::lemma_leading_word_len_bound(t);
        let n = leading_word_len(t);
        let after = s.skip(p.len() + n as int);
        crate::resolve::lemma_closing_from(after, 1, 1);
    }
}

/// The value of the first pair whose key satisfies `by_id` (definitions are
/// looked up by placeholder identifier, generics by name). Two keys with the
/// same identifier (see [`placeholder_id`]) resolve to the first one's value.
pub open spec fn lookup(pairs: Seq<(Seq<char>, Seq<char>)>, name: Seq<char>, by_id: bool) -> Option<Seq<char>>
    decreases pairs.len(),
{
    if pairs.len() == 0 {
        None
    } else if (if by_id { placeholder_id(pairs[0].0) == name } else { pairs[0].0 == name }) {
        Some(pairs[0].1)
    } else {
        lookup(pairs.drop_first(), name, by_id)
    }
}

/// `p` put in front of a result.
pub open spec fn prepend(p: Seq<char>, r: Result<Seq<char>, Seq<char>>) -> Result<Seq<char>, Seq<char>> {
    match r {
        Ok(t) => Ok(p + t),
        Err(e) => Err(e),
    }
}

/// The substituted document, or the name of the first token for which no
/// value is known. Reading from the start: a generic token
/// `&&&&name&&&&` becomes the value supplied for that generic parameter; a
/// definition token `&&&ID&&&` becomes `"#"` when `ID` is the root type's own
/// identifier, else the value supplied for the definition with that
/// identifier; a pointer to the root type's own definition becomes `#`;
/// anything else stays.
pub open spec fn subst(
    s: Seq<char>,
    root_id: Seq<char>,
    defs: Seq<(Seq<char>, Seq<char>)>,
    generics: Seq<(Seq<char>, Seq<char>)>,
) -> Result<Seq<char>, Seq<char>>
    decreases s.len(),
{
    proof {
        lemma_fenced_name(s, "&&&&"@);
        lemma_fenced_name(s, "&&&"@);
        lemma_pointer_name(s);
        reveal_strlit("&&&&");
        reveal_strlit("&&&");
    }
    if s.len() == 0 {
        Ok(s)
    } else if fenced_name(s, "&&&&"@) is Some {
        let g = fenced_name(s, "&&&&"@)->0;
        match lookup(generics, g, false) {
            Some(v) => prepend(v, subst(s.skip(8 + g.len() as int), root_id, defs, generics)),
            None => Err(g),
        }
    } else if fenced_name(s, "&&&"@) is Some {
        let w = fenced_name(s, "&&&"@)->0;
        if w == root_id {
            prepend("\"#\""@, subst(s.skip(6 + w.len() as int), root_id, defs, generics))
        } else {
            match lookup(defs, w, true) {
                Some(v) => prepend(v, subst(s.skip(6 + w.len() as int), root_id, defs, generics)),
                None => Err(w),
            }
        }
    } else if pointer_name(s) is Some && placeholder_id(pointer_name(s)->0) == root_id {
        prepend("#"@, subst(s.skip(14 + pointer_name(s)->0.len() as int), root_id, defs, generics))
    } else {
        prepend(seq![s[0]], subst(s.drop_first(), root_id, defs, generics))
    }
}

proof fn lemma_prepend(a: Seq<char>, b: Seq<char>, r: Result<Seq<char>, Seq<char>>)
    ensures
        prepend(a, prepend(b, r)) == prepend(a + b, r),
{
    match r {
        Ok(t) => {
            assert(a + (b + t) =~= a + b + t);
        },
        Err(_) => {},
    }
}

/// Whether `s[i..]` begins with `lit`.
fn starts_at(s: &Vec<char>, i: usize, lit: &Vec<char>) -> (r: bool)
    requires
        i <= s@.len(),
    ensures
        r == starts_with(s@.skip(i as int), lit@),
{
    if lit.len() > s.len() - i {
        return false;
    }
    assert(s@.skip(i as int).take(lit@.len() as int) =~= s@.subrange(i as int, i + lit@.len()));
    range_eq(s, i, i + lit.len(), lit)
}

/// The end of the name of a `<fence>name<fence>` token at `s[i..]`.
fn fenced_at(s: &Vec<char>, i: usize, fence: &Vec<char>) -> (r: Option<usize>)
    requires
        i <= s@.len(),
    ensures
        match r {
            Some(j) => i + fence@.len() < j && j + fence@.len() <= s@.len()
                && fenced_name(s@.skip(i as int), fence@) == Some(s@.subrange(i + fence@.len(), j as int)),
            None => fenced_name(s@.skip(i as int), fence@) is None,
        },
{
    let ghost t = s@.skip(i as int);
    if !starts_at(s, i, fence) {
        return None;
    }
    assert(t.len() == s@.len() - i);
    assert(fence@.len() <= t.len());
    let n = s.len();
    let fl = fence.len();
    assert(i + fl <= n);
    let a = i + fl;
    let j = word_end(s, a, n);
    proof {
        assert(t.skip(fence@.len() as int) =~= s@.subrange(a as int, s@.len() as int));
        assert(t.skip(fence@.len() + (j - a)) =~= s@.skip(j as int));
        assert(t.subrange(fence@.len() as int, fence@.len() + (j - a)) =~= s@.subrange(a as int, j as int));
    }
    if j > a && starts_at(s, j, fence) {
        Some(j)
    } else {
        None
    }
}

/// The end of the referenced name of a `#/definitions/` pointer at `s[i..]`.
fn pointer_at(s: &Vec<char>, i: usize) -> (r: Option<usize>)
    requires
        i <= s@.len(),
    ensures
        match r {
            Some(e) => i + 14 < e <= s@.len()
                && pointer_name(s@.skip(i as int)) == Some(s@.subrange(i + 14, e as int)),
            None => pointer_name(s@.skip(i as int)) is None,
        },
{
    let ghost t = s@.skip(i as int);
    let p = chars_of("#/definitions/");
    proof {
        reveal_strlit("#/definitions/");
    }
    if !starts_at(s, i, &p) {
        return None;
    }
    let n = s.len();
    let a = i + 14;
    let j = word_end(s, a, n);
    proof {
        assert(t.skip(14) =~= s@.subrange(a as int, n as int));
        assert(t.skip(14 + (j - a)) =~= s@.subrange(j as int, n as int));
    }
    if j == a {
        return None;
    }
    let mut e = j;
    if j < n && s[j] == '<' {
        proof {
            crate::resolve::lemma_closing_from(s@.subrange(j as int, n as int), 1, 1);
        }
        match crate::resolve::find_closing(s, j, n) {
            Some(k) => {
                e = k + 1;
            },
            None => {},
        }
    }
    proof {
        crate::resolve::lemma_closing_from(s@.subrange(j as int, n as int), 1, 1);
        assert(t.subrange(14, e - i) =~= s@.subrange(i + 14, e as int));
    }
    Some(e)
}

/// Index of the first pair that [`lookup`] picks.
fn lookup_index(pairs: &Vec<(String, String)>, name: &String, by_id: bool) -> (r: Option<usize>)
    ensures
        match r {
            Some(k) => k < pairs@.len() && lookup(entries_view(pairs@), name@, by_id) == Some(pairs@[k as int].1@),
            None => lookup(entries_view(pairs@), name@, by_id) is None,
        },
{
    let ghost pv = entries_view(pairs@);
    let mut i: usize = 0;
    assert(pv.skip(0) =~= pv);
    while i < pairs.len()
        invariant
            i <= pairs@.len(),
            pv == entries_view(pairs@),
            lookup(pv, name@, by_id) == lookup(pv.skip(i as int), name@, by_id),
        decreases pairs@.len() - i,
    {
        let ghost rest = pv.skip(i as int);
        assert(rest[0] == (pairs@[i as int].0@, pairs@[i as int].1@));
        assert(rest.drop_first() =~= pv.skip(i + 1));
        let hit = if by_id {
            let id = to_upper(sanitize_name(pairs[i].0.as_str()).as_str());
            id == *name
        } else {
            pairs[i].0 == *name
        };
        if hit {
            return Some(i);
        }
        i += 1;
    }
    None
}

/// Replaces the placeholder tokens of a rendered document (see [`subst`]).
/// `root` is the name of the type the document describes; `definitions`
/// pairs each definition key with the schema text that stands for it;
/// `generics` pairs each generic parameter name with the schema text of the
/// type it is bound to.
pub fn substitute(
    doc: &str,
    root: &str,
    definitions: &Vec<(String, String)>,
    generics: &Vec<(String, String)>,
) -> (r: Result<String, SchemaError>)
    ensures
        match r {
            Ok(t) => subst(doc@, placeholder_id(root@), entries_view(definitions@), entries_view(generics@)) == Ok::<
                Seq<char>,
                Seq<char>,
            >(t@),
            Err(SchemaError::UnresolvedPlaceholder(n)) => subst(
                doc@,
                placeholder_id(root@),
                entries_view(definitions@),
                entries_view(generics@),
            ) == Err::<Seq<char>, Seq<char>>(n@),
        },
{
    let s = chars_of(doc);
    let root_id = to_upper(sanitize_name(root).as_str());
    let ghost rid = root_id@;
    let ghost dv = entries_view(definitions@);
    let ghost gv = entries_view(generics@);
    let f4 = chars_of("&&&&");
    let f3 = chars_of("&&&");
    proof {
        reveal_strlit("&&&&");
        reveal_strlit("&&&");
    }
    let mut out = String::new();
    let mut i: usize = 0;
    assert(s@.skip(0) =~= s@);
    assert(prepend(Seq::<char>::empty(), subst(s@, rid, dv, gv)) == subst(s@, rid, dv, gv)) by {
        match subst(s@, rid, dv, gv) {
            Ok(t) => {
                assert(Seq::<char>::empty() + t =~= t);
            },
            Err(_) => {},
        }
    }
    while i < s.len()
        invariant
            i <= s@.len(),
            s@ == doc@,
            rid == placeholder_id(root@),
            rid == root_id@,
            dv == entries_view(definitions@),
            gv == entries_view(generics@),
            f4@ == "&&&&"@,
            f3@ == "&&&"@,
            f4@.len() == 4,
            f3@.len() == 3,
            subst(s@, rid, dv, gv) == prepend(out@, subst(s@.skip(i as int), rid, dv, gv)),
        decreases s@.len() - i,
    {
        let ghost rest = s@.skip(i as int);
        let ghost before = out@;
        proof {
            lemma_fenced_name(rest, "&&&&"@);
            lemma_fenced_name(rest, "&&&"@);
            lemma_pointer_name(rest);
        }
        match fenced_at(&s, i, &f4) {
            Some(j) => {
                let name = string_of_range(&s, i + 4, j);
                match lookup_index(generics, &name, false) {
                    Some(k) => {
                        push_all(&mut out, generics[k].1.as_str());
                        proof {
                            assert(rest.skip(8 + name@.len() as int) =~= s@.skip(j + 4));
                            lemma_prepend(before, generics@[k as int].1@, subst(s@.skip(j + 4), rid, dv, gv));
                        }
                        i = j + 4;
                    },
                    None => {
                        return Err(SchemaError::UnresolvedPlaceholder(name));
                    },
                }
            },
            None => {
                match fenced_at(&s, i, &f3) {
                    Some(j) => {
                        let name = string_of_range(&s, i + 3, j);
                        proof {
                            assert(rest.skip(6 + name@.len() as int) =~= s@.skip(j + 3));
                        }
                        if name == root_id {
                            push_all(&mut out, "\"#\"");
                            proof {
                                lemma_prepend(before, "\"#\""@, subst(s@.skip(j + 3), rid, dv, gv));
                            }
                        } else {
                            match lookup_index(definitions, &name, true) {
                                Some(k) => {
                                    push_all(&mut out, definitions[k].1.as_str());
                                    proof {
                                        lemma_prepend(before, definitions@[k as int].1@, subst(s@.skip(j + 3), rid, dv, gv));
                                    }
                                },
                                None => {
                                    return Err(SchemaError::UnresolvedPlaceholder(name));
                                },
                            }
                        }
                        i = j + 3;
                    },
                    None => {
                        let mut done = false;
                        match pointer_at(&s, i) {
                            Some(e) => {
                                let t = string_of_range(&s, i + 14, e);
                                let id = to_upper(sanitize_name(t.as_str()).as_str());
                                if id == root_id {
                                    out.push('#');
                                    proof {
                                        assert(rest.skip(14 + t@.len() as int) =~= s@.skip(e as int));
                                        assert(out@ =~= before + "#"@) by {
                                            reveal_strlit("#");
                                        }
                                        lemma_prepend(before, "#"@, subst(s@.skip(e as int), rid, dv, gv));
                                    }
                                    i = e;
                                    done = true;
                                }
                            },
                            None => {},
                        }
                        if !done {
                            out.push(s[i]);
                            proof {
                                assert(rest[0] == s@[i as int]);
                                assert(rest.drop_first() =~= s@.skip(i + 1));
                                lemma_prepend(before, seq![s@[i as int]], subst(s@.skip(i + 1), rid, dv, gv));
                                assert(out@ =~= before + seq![s@[i as int]]);
                            }
                            i += 1;
                        }
                    },
                }
            },
        }
    }
    proof {
        assert(s@.skip(s@.len() as int) =~= Seq::<char>::empty());
        assert(out@ + Seq::<char>::empty() =~= out@);
    }
    Ok(out)
}

/// Whether the definition key `key` stands for the root type `root` itself:
/// its placeholder is then resolved to `"#"` and no schema is needed for it.
/// This is judged by placeholder identifier, so a key that shares the root's
/// identifier (see [`placeholder_id`]) counts as the root.
pub fn is_self_reference(key: &str, root: &str) -> (r: bool)
    ensures
        r == (placeholder_id(key@) == placeholder_id(root@)),
{
    let a = to_upper(sanitize_name(key).as_str());
    let b = to_upper(sanitize_name(root).as_str());
    a == b
}

/// The standalone form of a finished document: a constant named after the
/// type, `const <name>Schema = <body>`.
pub fn standalone_form(name: &str, body: &str) -> (r: String)
    ensures
        r@ == "const "@ + name@ + "Schema = "@ + body@,
{
    let mut r = String::new();
    push_all(&mut r, "const ");
    push_all(&mut r, name);
    push_all(&mut r, "Schema = ");
    push_all(&mut r, body);
    assert(r@ =~= "const "@ + name@ + "Schema = "@ + body@);
    r
}

} // verus!
