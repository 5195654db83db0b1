//! Rewriting of a type reference: every identifier that names a definition
//! (and is not a generic parameter) becomes a `#/definitions/<name>` pointer,
//! bracket groups being rewritten recursively.
use vstd::prelude::*;
use crate::table::DefinitionTable;
use crate::text::{chars_of, is_word_char, push_all, string_of_range};
use crate::words::{leading_word_len, list_contains, strings_view, word_end};
use crate::text::word_char;

verus! {

/// The prefix of a pointer into the definitions section.
pub open spec fn definitions_prefix() -> Seq<char> {
    "#/definitions/"@
}

/// The pointer to the definition of `k`.
pub open spec fn definition_ref(k: Seq<char>) -> Seq<char> {
    definitions_prefix() + k
}

/// `k` names a definition of the table and is not a generic parameter.
pub open spec fn resolvable(k: Seq<char>, defs: Map<Seq<char>, Seq<char>>, generics: Seq<Seq<char>>) -> bool {
    defs.contains_key(k) && !generics.contains(k)
}

/// Index of the `>` that closes the group opened before `i`, at bracket depth
/// `d`, or -1 when the group is never closed.
pub open spec fn closing_from(s: Seq<char>, i: int, d: nat) -> int
    decreases s.len() - i,
{
    if i < 0 || i >= s.len() {
        -1
    } else if s[i] == '<' {
        closing_from(s, i + 1, d + 1)
    } else if s[i] == '>' {
        if d <= 1 {
            i
        } else {
            closing_from(s, i + 1, (d - 1) as nat)
        }
    } else {
        closing_from(s, i + 1, d)
    }
}

pub proof fn lemma_closing_from(s: Seq<char>, i: int, d: nat)
    ensures
        closing_from(s, i, d) == -1 || (0 <= i <= closing_from(s, i, d) < s.len()
            && s[closing_from(s, i, d)] == '>'),
    decreases s.len() - i,
{
    if 0 <= i < s.len() {
        if s[i] == '<' {
            lemma_closing_from(s, i + 1, d + 1);
        } else if s[i] == '>' {
            if d > 1 {
                lemma_closing_from(s, i + 1, (d - 1) as nat);
            }
        } else {
            lemma_closing_from(s, i + 1, d);
        }
    }
}

/// Whether the angle brackets of `s[i..]` balance, starting at depth `d`:
/// no `>` closes more than was opened and everything opened is closed.
pub open spec fn balanced_from(s: Seq<char>, i: int, d: nat) -> bool
    decreases s.len() - i,
{
    if i < 0 || i >= s.len() {
        d == 0
    } else if s[i] == '<' {
        balanced_from(s, i + 1, d + 1)
    } else if s[i] == '>' {
        d > 0 && balanced_from(s, i + 1, (d - 1) as nat)
    } else {
        balanced_from(s, i + 1, d)
    }
}

/// Whether the angle brackets of `s` balance.
pub open spec fn balanced(s: Seq<char>) -> bool {
    balanced_from(s, 0, 0)
}

/// The rewritten form of a whole reference. Text that already holds a `#`
/// is a rewritten reference, and text whose brackets do not balance is a
/// malformed expression: both are left as they are. A reference that names a
/// definition as a whole becomes one pointer; otherwise its parts are
/// rewritten one by one.
pub open spec fn resolve_ref(s: Seq<char>, defs: Map<Seq<char>, Seq<char>>, generics: Seq<Seq<char>>) -> Seq<char>
    decreases s.len(), 1nat,
{
    if s.len() == 0 {
        s
    } else if s.contains('#') || !balanced(s) {
        s
    } else if resolvable(s, defs, generics) {
        definition_ref(s)
    } else {
        resolve_scan(s, defs, generics)
    }
}

/// The part-by-part rewriting: a bracket group is rewritten as a whole
/// reference of its own (an unclosed group is kept as written), an
/// identifier that names a definition becomes a pointer, any other character
/// stays.
pub open spec fn resolve_scan(s: Seq<char>, defs: Map<Seq<char>, Seq<char>>, generics: Seq<Seq<char>>) -> Seq<char>
    decreases s.len(), 0nat,
{
    if s.len() == 0 {
        s
    } else if s[0] == '<' {
        let j = closing_from(s, 1, 1);
        proof {
            lemma_closing_from(s, 1, 1);
        }
        if j < 0 {
            s
        } else {
            seq!['<'] + resolve_ref(s.subrange(1, j), defs, generics) + seq!['>'] + resolve_scan(
                s.subrange(j + 1, s.len() as int),
                defs,
                generics,
            )
        }
    } else if word_char(s[0]) {
        let n = leading_word_len(s);
        proof {
            crate::words::lemma_leading_word_len_bound(s);
        }
        let w = s.take(n as int);
        (if resolvable(w, defs, generics) {
            definition_ref(w)
        } else {
            w
        }) + resolve_scan(s.subrange(n as int, s.len() as int), defs, generics)
    } else {
        seq![s[0]] + resolve_scan(s.subrange(1, s.len() as int), defs, generics)
    }
}

/// The keys that [`resolve_ref`] turns into pointers, in the order the
/// pointers appear: the whole reference when it names a definition as a
/// whole, else the keys of its parts.
pub open spec fn ref_keys(s: Seq<char>, defs: Map<Seq<char>, Seq<char>>, generics: Seq<Seq<char>>) -> Seq<Seq<char>>
    decreases s.len(), 1nat,
{
    if s.len() == 0 || s.contains('#') || !balanced(s) {
        Seq::empty()
    } else if resolvable(s, defs, generics) {
        seq![s]
    } else {
        scan_keys(s, defs, generics)
    }
}

/// The keys that [`resolve_scan`] turns into pointers, in order.
pub open spec fn scan_keys(s: Seq<char>, defs: Map<Seq<char>, Seq<char>>, generics: Seq<Seq<char>>) -> Seq<Seq<char>>
    decreases s.len(), 0nat,
{
    if s.len() == 0 {
        Seq::empty()
    } else if s[0] == '<' {
        let j = closing_from(s, 1, 1);
        proof {
            lemma_closing_from(s, 1, 1);
        }
        if j < 0 {
            Seq::empty()
        } else {
            ref_keys(s.subrange(1, j), defs, generics) + scan_keys(s.subrange(j + 1, s.len() as int), defs, generics)
        }
    } else if word_char(s[0]) {
        let n = leading_word_len(s);
        proof {
            crate::words::lemma_leading_word_len_bound(s);
        }
        let w = s.take(n as int);
        (if resolvable(w, defs, generics) {
            seq![w]
        } else {
            Seq::<Seq<char>>::empty()
        }) + scan_keys(s.subrange(n as int, s.len() as int), defs, generics)
    } else {
        scan_keys(s.subrange(1, s.len() as int), defs, generics)
    }
}

/// Every key a rewritten reference points to is a key of the table.
pub proof fn lemma_ref_keys_in_table(s: Seq<char>, defs: Map<Seq<char>, Seq<char>>, generics: Seq<Seq<char>>)
    ensures
        forall|i: int| 0 <= i < ref_keys(s, defs, generics).len() ==> defs.contains_key(
            #[trigger] ref_keys(s, defs, generics)[i],
        ),
    decreases s.len(), 1nat,
{
    if !(s.len() == 0 || s.contains('#') || !balanced(s)) {
        if resolvable(s, defs, generics) {
            assert(ref_keys(s, defs, generics) =~= seq![s]);
        } else {
            lemma_scan_keys_in_table(s, defs, generics);
            assert(ref_keys(s, defs, generics) == scan_keys(s, defs, generics));
        }
    }
}

proof fn lemma_scan_keys_in_table(s: Seq<char>, defs: Map<Seq<char>, Seq<char>>, generics: Seq<Seq<char>>)
    ensures
        forall|i: int| 0 <= i < scan_keys(s, defs, generics).len() ==> defs.contains_key(
            #[trigger] scan_keys(s, defs, generics)[i],
        ),
    decreases s.len(), 0nat,
{
    let ks = scan_keys(s, defs, generics);
    if s.len() == 0 {
    } else if s[0] == '<' {
        let j = closing_from(s, 1, 1);
        lemma_closing_from(s, 1, 1);
        if j >= 0 {
            let a = ref_keys(s.subrange(1, j), defs, generics);
            let b = scan_keys(s.subrange(j + 1, s.len() as int), defs, generics);
            lemma_ref_keys_in_table(s.subrange(1, j), defs, generics);
            lemma_scan_keys_in_table(s.subrange(j + 1, s.len() as int), defs, generics);
            assert forall|i: int| 0 <= i < ks.len() implies defs.contains_key(#[trigger] ks[i]) by {
                if i < a.len() {
                    assert(ks[i] == a[i]);
                } else {
                    assert(ks[i] == b[i - a.len()]);
                }
            }
        }
    } else if word_char(s[0]) {
        let n = leading_word_len(s);
        crate::words::lemma_leading_word_len_bound(s);
        let w = s.take(n as int);
        let a = if resolvable(w, defs, generics) { seq![w] } else { Seq::<Seq<char>>::empty() };
        let b = scan_keys(s.subrange(n as int, s.len() as int), defs, generics);
        lemma_scan_keys_in_table(s.subrange(n as int, s.len() as int), defs, generics);
        assert forall|i: int| 0 <= i < ks.len() implies defs.contains_key(#[trigger] ks[i]) by {
            if i < a.len() {
                assert(ks[i] == a[i]);
            } else {
                assert(ks[i] == b[i - a.len()]);
            }
        }
    } else {
        lemma_scan_keys_in_table(s.subrange(1, s.len() as int), defs, generics);
        assert(ks == scan_keys(s.subrange(1, s.len() as int), defs, generics));
    }
}

/// Index of the `>` that closes the group opened by `s[lo]`, within `s[lo..hi]`.
pub(crate) fn find_closing(s: &Vec<char>, lo: usize, hi: usize) -> (r: Option<usize>)
    requires
        lo < hi <= s@.len(),
    ensures
        ({
            let j = closing_from(s@.subrange(lo as int, hi as int), 1, 1);
            match r {
                Some(k) => j >= 0 && k == lo + j,
                None => j == -1,
            }
        }),
{
    let ghost t = s@.subrange(lo as int, hi as int);
    let mut k: usize = lo + 1;
    let mut depth: usize = 1;
    while k < hi
        invariant
            lo < k <= hi,
            hi <= s@.len(),
            t == s@.subrange(lo as int, hi as int),
            1 <= depth <= k - lo,
            closing_from(t, k - lo, depth as nat) == closing_from(t, 1, 1),
        decreases hi - k,
    {
        assert(t[k - lo] == s@[k as int]);
        let c = s[k];
        if c == '<' {
            depth += 1;
        } else if c == '>' {
            if depth <= 1 {
                return Some(k);
            }
            depth -= 1;
        }
        k += 1;
    }
    None
}

/// Whether `c` occurs in `s[lo..hi]`.
fn range_has(s: &Vec<char>, lo: usize, hi: usize, c: char) -> (r: bool)
    requires
        lo <= hi <= s@.len(),
    ensures
        r == s@.subrange(lo as int, hi as int).contains(c),
{
    let mut k: usize = lo;
    while k < hi
        invariant
            lo <= k <= hi,
            hi <= s@.len(),
            forall|m: int| lo <= m < k ==> s@[m] != c,
        decreases hi - k,
    {
        if s[k] == c {
            assert(s@.subrange(lo as int, hi as int)[k - lo] == c);
            return true;
        }
        k += 1;
    }
    proof {
        if s@.subrange(lo as int, hi as int).contains(c) {
            let m = choose|m: int| 0 <= m < hi - lo && s@.subrange(lo as int, hi as int)[m] == c;
            assert(s@[lo + m] == c);
        }
    }
    false
}

/// Whether `s[lo..hi]` names a definition of `defs` and no generic parameter.
fn range_resolvable(s: &Vec<char>, lo: usize, hi: usize, defs: &DefinitionTable, generics: &[String]) -> (r: bool)
    requires
        lo <= hi <= s@.len(),
        defs.wf(),
    ensures
        r == resolvable(s@.subrange(lo as int, hi as int), defs@, strings_view(generics@)),
{
    let w = string_of_range(s, lo, hi);
    defs.contains_key(w.as_str()) && !list_contains(generics, s, lo, hi)
}

/// Appends the pointer to the definition of `s[lo..hi]`, or the text itself.
fn push_word(out: &mut String, s: &Vec<char>, lo: usize, hi: usize, as_ref: bool)
    requires
        lo <= hi <= s@.len(),
    ensures
        final(out)@ == old(out)@ + (if as_ref {
            definition_ref(s@.subrange(lo as int, hi as int))
        } else {
            s@.subrange(lo as int, hi as int)
        }),
{
    let w = string_of_range(s, lo, hi);
    if as_ref {
        push_all(out, "#/definitions/");
    }
    push_all(out, w.as_str());
    assert(old(out)@ + definitions_prefix() + w@ =~= old(out)@ + definition_ref(w@));
}

/// Whether the angle brackets of `s[lo..hi]` balance.
fn range_balanced(s: &Vec<char>, lo: usize, hi: usize) -> (r: bool)
    requires
        lo <= hi <= s@.len(),
    ensures
        r == balanced(s@.subrange(lo as int, hi as int)),
{
    let ghost t = s@.subrange(lo as int, hi as int);
    let mut k: usize = lo;
    let mut depth: usize = 0;
    while k < hi
        invariant
            lo <= k <= hi,
            hi <= s@.len(),
            t == s@.subrange(lo as int, hi as int),
            depth <= k - lo,
            balanced_from(t, k - lo, depth as nat) == balanced(t),
        decreases hi - k,
    {
        assert(t[k - lo] == s@[k as int]);
        let c = s[k];
        if c == '<' {
            depth += 1;
        } else if c == '>' {
            if depth == 0 {
                return false;
            }
            depth -= 1;
        }
        k += 1;
    }
    depth == 0
}

/// [`resolve_ref`] on `s[lo..hi]`; the keys pointed to are appended to
/// `keys`.
fn resolve_range(
    s: &Vec<char>,
    lo: usize,
    hi: usize,
    defs: &DefinitionTable,
    generics: &[String],
    keys: &mut Vec<String>,
) -> (r: String)
    requires
        lo <= hi <= s@.len(),
        defs.wf(),
    ensures
        r@ == resolve_ref(s@.subrange(lo as int, hi as int), defs@, strings_view(generics@)),
        strings_view(final(keys)@) == strings_view(old(keys)@) + ref_keys(
            s@.subrange(lo as int, hi as int),
            defs@,
            strings_view(generics@),
        ),
    decreases hi - lo, 1int,
{
    proof {
        assert(strings_view(old(keys)@) + Seq::<Seq<char>>::empty() =~= strings_view(old(keys)@));
    }
    if lo == hi {
        return String::new();
    }
    if range_has(s, lo, hi, '#') || !range_balanced(s, lo, hi) {
        return string_of_range(s, lo, hi);
    }
    if range_resolvable(s, lo, hi, defs, generics) {
        let mut r = String::new();
        push_word(&mut r, s, lo, hi, true);
        let w = string_of_range(s, lo, hi);
        keys.push(w);
        assert(strings_view(keys@) =~= strings_view(old(keys)@) + seq![w@]);
        return r;
    }
    scan_range(s, lo, hi, defs, generics, keys)
}

/// [`resolve_scan`] on `s[lo..hi]`; the keys pointed to are appended to
/// `keys`.
fn scan_range(
    s: &Vec<char>,
    lo: usize,
    hi: usize,
    defs: &DefinitionTable,
    generics: &[String],
    keys: &mut Vec<String>,
) -> (r: String)
    requires
        lo <= hi <= s@.len(),
        defs.wf(),
    ensures
        r@ == resolve_scan(s@.subrange(lo as int, hi as int), defs@, strings_view(generics@)),
        strings_view(final(keys)@) == strings_view(old(keys)@) + scan_keys(
            s@.subrange(lo as int, hi as int),
            defs@,
            strings_view(generics@),
        ),
    decreases hi - lo, 0int,
{
    let ghost g = strings_view(generics@);
    let mut out = String::new();
    let mut i: usize = lo;
    while i < hi
        invariant
            lo <= i <= hi,
            hi <= s@.len(),
            defs.wf(),
            g == strings_view(generics@),
            out@ + resolve_scan(s@.subrange(i as int, hi as int), defs@, g) == resolve_scan(
                s@.subrange(lo as int, hi as int),
                defs@,
                g,
            ),
            strings_view(keys@) + scan_keys(s@.subrange(i as int, hi as int), defs@, g) == strings_view(
                old(keys)@,
            ) + scan_keys(s@.subrange(lo as int, hi as int), defs@, g),
        decreases hi - i,
    {
        let ghost u = s@.subrange(i as int, hi as int);
        let ghost before = out@;
        let ghost kb = strings_view(keys@);
        let ghost i0 = i;
        assert(u[0] == s@[i as int]);
        if s[i] == '<' {
            match find_closing(s, i, hi) {
                None => {
                    let rest = string_of_range(s, i, hi);
                    push_all(&mut out, rest.as_str());
                    i = hi;
                    proof {
                        assert(s@.subrange(hi as int, hi as int) =~= Seq::<char>::empty());
                        assert(kb + Seq::<Seq<char>>::empty() =~= kb);
                    }
                },
                Some(j) => {
                    proof {
                        lemma_closing_from(u, 1, 1);
                        assert(u.subrange(1, j - i) =~= s@.subrange(i + 1, j as int));
                        assert(u.subrange(j - i + 1, u.len() as int) =~= s@.subrange(j + 1, hi as int));
                    }
                    let inner = resolve_range(s, i + 1, j, defs, generics, keys);
                    out.push('<');
                    push_all(&mut out, inner.as_str());
                    out.push('>');
                    i = j + 1;
                    proof {
                        assert(out@ =~= before + (seq!['<'] + inner@ + seq!['>']));
                        let a = ref_keys(u.subrange(1, j - i0), defs@, g);
                        let b = scan_keys(u.subrange(j - i0 + 1, u.len() as int), defs@, g);
                        assert(scan_keys(u, defs@, g) == a + b);
                        assert(kb + (a + b) =~= (kb + a) + b);
                    }
                },
            }
        } else if is_word_char(s[i]) {
            let j = word_end(s, i, hi);
            let as_ref = range_resolvable(s, i, j, defs, generics);
            push_word(&mut out, s, i, j, as_ref);
            if as_ref {
                let w = string_of_range(s, i, j);
                keys.push(w);
                assert(strings_view(keys@) =~= kb + seq![w@]);
            }
            proof {
                assert(u.take(j - i) =~= s@.subrange(i as int, j as int));
                assert(u.subrange(j - i, u.len() as int) =~= s@.subrange(j as int, hi as int));
                let w = s@.subrange(i as int, j as int);
                let a = if resolvable(w, defs@, g) { seq![w] } else { Seq::<Seq<char>>::empty() };
                let b = scan_keys(s@.subrange(j as int, hi as int), defs@, g);
                assert(scan_keys(u, defs@, g) == a + b);
                assert(kb + (a + b) =~= (kb + a) + b);
                assert(strings_view(keys@) =~= kb + a);
            }
            i = j;
        } else {
            out.push(s[i]);
            proof {
                assert(u.subrange(1, u.len() as int) =~= s@.subrange(i + 1, hi as int));
                assert(out@ =~= before + seq![u[0]]);
            }
            i += 1;
        }
    }
    proof {
        assert(s@.subrange(hi as int, hi as int) =~= Seq::<char>::empty());
        assert(out@ + Seq::<char>::empty() =~= out@);
        assert(strings_view(keys@) + Seq::<Seq<char>>::empty() =~= strings_view(keys@));
    }
    out
}

/// Rewrites a type reference so that each part naming a definition of `defs`
/// (and not a generic parameter) points into the definitions section, e.g.
/// `Option<Vec<User>>` becomes `Option<Vec<#/definitions/User>>` when `User`
/// is a definition.
pub fn replace_types(sref: &str, defs: &DefinitionTable, generics: &[String]) -> (r: String)
    requires
        defs.wf(),
    ensures
        r@ == resolve_ref(sref@, defs@, strings_view(generics@)),
{
    let s = chars_of(sref);
    assert(s@.subrange(0, s@.len() as int) =~= s@);
    let mut keys: Vec<String> = Vec::new();
    resolve_range(&s, 0, s.len(), defs, generics, &mut keys)
}

/// The keys that rewriting `sref` points to (see [`ref_keys`]), in order.
pub fn referenced_keys(sref: &str, defs: &DefinitionTable, generics: &[String]) -> (r: Vec<String>)
    requires
        defs.wf(),
    ensures
        strings_view(r@) == ref_keys(sref@, defs@, strings_view(generics@)),
{
    let s = chars_of(sref);
    assert(s@.subrange(0, s@.len() as int) =~= s@);
    let mut keys: Vec<String> = Vec::new();
    let _ = resolve_range(&s, 0, s.len(), defs, generics, &mut keys);
    assert(strings_view(keys@) =~= Seq::<Seq<char>>::empty() + ref_keys(sref@, defs@, strings_view(generics@)));
    keys
}

proof fn lemma_contains_shift(a: Seq<char>, b: Seq<char>, c: char)
    ensures
        (a.contains(c) || b.contains(c)) ==> (a + b).contains(c),
        (a + b).contains(c) ==> (a.contains(c) || b.contains(c)),
{
    if a.contains(c) {
        let k = choose|k: int| 0 <= k < a.len() && a[k] == c;
        assert((a + b)[k] == c);
    }
    if b.contains(c) {
        let k = choose|k: int| 0 <= k < b.len() && b[k] == c;
        assert((a + b)[a.len() + k] == c);
    }
    if (a + b).contains(c) {
        let k = choose|k: int| 0 <= k < (a + b).len() && (a + b)[k] == c;
        if k < a.len() {
            assert(a[k] == c);
        } else {
            assert(b[k - a.len()] == c);
        }
    }
}

proof fn lemma_subrange_no_char(s: Seq<char>, i: int, j: int, c: char)
    requires
        0 <= i <= j <= s.len(),
        !s.contains(c),
    ensures
        !s.subrange(i, j).contains(c),
{
    if s.subrange(i, j).contains(c) {
        let k = choose|k: int| 0 <= k < j - i && s.subrange(i, j)[k] == c;
        assert(s[i + k] == c);
    }
}

proof fn lemma_prefix_has_hash(k: Seq<char>)
    ensures
        definition_ref(k).contains('#'),
{
    reveal_strlit("#/definitions/");
    assert(definition_ref(k)[0] == '#');
}

/// Rewriting text without a `#` either changes nothing or leaves a `#`.
proof fn lemma_ref_marks(s: Seq<char>, defs: Map<Seq<char>, Seq<char>>, generics: Seq<Seq<char>>)
    requires
        !s.contains('#'),
    ensures
        resolve_ref(s, defs, generics) == s || resolve_ref(s, defs, generics).contains('#'),
    decreases s.len(), 1nat,
{
    if s.len() > 0 {
        if resolvable(s, defs, generics) {
            lemma_prefix_has_hash(s);
        } else {
            lemma_scan_marks(s, defs, generics);
        }
    }
}

proof fn lemma_scan_marks(s: Seq<char>, defs: Map<Seq<char>, Seq<char>>, generics: Seq<Seq<char>>)
    requires
        !s.contains('#'),
    ensures
        resolve_scan(s, defs, generics) == s || resolve_scan(s, defs, generics).contains('#'),
    decreases s.len(), 0nat,
{
    let out = resolve_scan(s, defs, generics);
    if s.len() == 0 {
    } else if s[0] == '<' {
        let j = closing_from(s, 1, 1);
        lemma_closing_from(s, 1, 1);
        if j >= 0 {
            let inner = s.subrange(1, j);
            let rest = s.subrange(j + 1, s.len() as int);
            lemma_subrange_no_char(s, 1, j, '#');
            lemma_subrange_no_char(s, j + 1, s.len() as int, '#');
            lemma_ref_marks(inner, defs, generics);
            lemma_scan_marks(rest, defs, generics);
            let ri = resolve_ref(inner, defs, generics);
            let rr = resolve_scan(rest, defs, generics);
            assert(out == seq!['<'] + ri + seq!['>'] + rr);
            lemma_contains_shift(seq!['<'], ri, '#');
            lemma_contains_shift(seq!['<'] + ri, seq!['>'], '#');
            lemma_contains_shift(seq!['<'] + ri + seq!['>'], rr, '#');
            if ri == inner && rr == rest {
                assert(s =~= seq!['<'] + inner + seq!['>'] + rest);
            }
        }
    } else if word_char(s[0]) {
        let n = leading_word_len(s);
        crate::words::lemma_leading_word_len_bound(s);
        let w = s.take(n as int);
        let rest = s.subrange(n as int, s.len() as int);
        lemma_subrange_no_char(s, n as int, s.len() as int, '#');
        lemma_scan_marks(rest, defs, generics);
        let rw = if resolvable(w, defs, generics) { definition_ref(w) } else { w };
        let rr = resolve_scan(rest, defs, generics);
        assert(out == rw + rr);
        lemma_contains_shift(rw, rr, '#');
        if resolvable(w, defs, generics) {
            lemma_prefix_has_hash(w);
        }
        if rw == w && rr == rest {
            assert(s =~= w + rest);
        }
    } else {
        let rest = s.subrange(1, s.len() as int);
        lemma_subrange_no_char(s, 1, s.len() as int, '#');
        lemma_scan_marks(rest, defs, generics);
        let rr = resolve_scan(rest, defs, generics);
        assert(out == seq![s[0]] + rr);
        lemma_contains_shift(seq![s[0]], rr, '#');
        if rr == rest {
            assert(s =~= seq![s[0]] + rest);
        }
    }
}

/// Rewriting is idempotent: rewriting an already rewritten reference gives it
/// back unchanged, so no pointer is ever prefixed twice.
pub proof fn lemma_resolve_idempotent(s: Seq<char>, defs: Map<Seq<char>, Seq<char>>, generics: Seq<Seq<char>>)
    ensures
        resolve_ref(resolve_ref(s, defs, generics), defs, generics) == resolve_ref(s, defs, generics),
{
    if !s.contains('#') {
        lemma_ref_marks(s, defs, generics);
    }
}

} // verus!
