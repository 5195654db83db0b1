//! Rendering of a schema document as JSON-like text whose references to
//! other definitions and to generic parameters are placeholder tokens.
use vstd::prelude::*;
use crate::resolve::{lemma_ref_keys_in_table, ref_keys, referenced_keys, replace_types, resolve_ref};
use crate::schema::{describes, register, Schema, SchemaField, SchemaFieldRef, SchemaType, SchemaVariant};
use crate::types::{classify_spec, TypeClass, TypeExpr};
use crate::table::DefinitionTable;
use crate::text::{alphanumeric, chars_of, is_alphanumeric, push_all, to_upper, upper_of};
use crate::words::{list_contains, strings_view};

verus! {

/// The decimal digit `d` (below 10).
pub open spec fn digit_char(d: nat) -> char {
    if d == 0 { '0' } else if d == 1 { '1' } else if d == 2 { '2' } else if d == 3 { '3' }
    else if d == 4 { '4' } else if d == 5 { '5' } else if d == 6 { '6' } else if d == 7 { '7' }
    else if d == 8 { '8' } else { '9' }
}

/// The decimal form of `n`.
pub open spec fn nat_text(n: nat) -> Seq<char>
    decreases n,
{
    if n < 10 {
        seq![digit_char(n)]
    } else {
        nat_text(n / 10).push(digit_char(n % 10))
    }
}

/// The decimal form of `n`, with a leading `-` when negative.
pub open spec fn int_text(n: int) -> Seq<char> {
    if n < 0 {
        seq!['-'] + nat_text((-n) as nat)
    } else {
        nat_text(n as nat)
    }
}

fn digit(d: u128) -> (c: char)
    requires
        d < 10,
    ensures
        c == digit_char(d as nat),
{
    if d == 0 { '0' } else if d == 1 { '1' } else if d == 2 { '2' } else if d == 3 { '3' }
    else if d == 4 { '4' } else if d == 5 { '5' } else if d == 6 { '6' } else if d == 7 { '7' }
    else if d == 8 { '8' } else { '9' }
}

/// Appends the decimal form of `n`.
pub(crate) fn push_nat(out: &mut String, n: u128)
    ensures
        final(out)@ == old(out)@ + nat_text(n as nat),
    decreases n,
{
    if n >= 10 {
        push_nat(out, n / 10);
    }
    out.push(digit(n % 10));
    proof {
        if n >= 10 {
            assert(old(out)@ + nat_text(n as nat) =~= old(out)@ + nat_text((n / 10) as nat) + seq![digit_char((n % 10) as nat)]);
        } else {
            assert(old(out)@ + nat_text(n as nat) =~= old(out)@.push(digit_char(n as nat)));
        }
    }
}

/// Appends the decimal form of `n`.
pub(crate) fn push_int(out: &mut String, n: i128)
    ensures
        final(out)@ == old(out)@ + int_text(n as int),
{
    if n < 0 {
        out.push('-');
        let m: u128 = if n == i128::MIN { 0x8000_0000_0000_0000_0000_0000_0000_0000u128 } else { (-n) as u128 };
        push_nat(out, m);
        assert(old(out)@ + int_text(n as int) =~= old(out)@.push('-') + nat_text(m as nat));
    } else {
        push_nat(out, n as u128);
    }
}

/// `s` with its spaces removed.
pub open spec fn without_spaces(s: Seq<char>) -> Seq<char>
    decreases s.len(),
{
    if s.len() == 0 {
        s
    } else {
        without_spaces(s.drop_last()) + if s.last() == ' ' {
            Seq::<char>::empty()
        } else {
            seq![s.last()]
        }
    }
}

/// Appends `s` without its spaces.
pub(crate) fn push_without_spaces(out: &mut String, s: &str)
    ensures
        final(out)@ == old(out)@ + without_spaces(s@),
{
    let c = chars_of(s);
    let mut i: usize = 0;
    assert(c@.subrange(0, 0) =~= Seq::<char>::empty());
    assert(old(out)@ + without_spaces(Seq::<char>::empty()) =~= old(out)@);
    while i < c.len()
        invariant
            i <= c@.len(),
            c@ == s@,
            out@ == old(out)@ + without_spaces(c@.subrange(0, i as int)),
        decreases c@.len() - i,
    {
        let ghost before = out@;
        proof {
            assert(c@.subrange(0, i + 1).drop_last() =~= c@.subrange(0, i as int));
        }
        if c[i] != ' ' {
            out.push(c[i]);
        }
        assert(out@ =~= old(out)@ + without_spaces(c@.subrange(0, i + 1)));
        i += 1;
    }
    assert(c@.subrange(0, c@.len() as int) =~= c@);
}

/// The sanitized identifier of `s` read from its start: its runs of
/// alphanumeric characters, joined by single underscores. `pending` says a
/// separator was seen since the last alphanumeric; `started` that one was
/// already emitted.
pub open spec fn sanitize_from(s: Seq<char>, pending: bool, started: bool) -> Seq<char>
    decreases s.len(),
{
    if s.len() == 0 {
        Seq::empty()
    } else if alphanumeric(s[0]) {
        (if pending && started { seq!['_'] } else { Seq::<char>::empty() }) + seq![s[0]]
            + sanitize_from(s.drop_first(), false, true)
    } else {
        sanitize_from(s.drop_first(), true, started)
    }
}

/// The runs of alphanumeric characters of `s`, joined by single underscores
/// (so `HashMap<String, usize>` gives `HashMap_String_usize`).
pub open spec fn sanitize(s: Seq<char>) -> Seq<char> {
    sanitize_from(s, false, false)
}

/// The identifier that names the definition of `k` in a placeholder token:
/// the sanitized key, upper-cased.
///
/// This scheme is not injective: keys that differ only in letter case or in
/// their separators (`Foo<Bar>` and `Foo_Bar`, `user` and `User`) share an
/// identifier, and so share a placeholder. The substitution pass then gives
/// them the value of the first pair supplied for that identifier, and a key
/// that shares the root type's identifier is taken for the root itself.
pub open spec fn placeholder_id(k: Seq<char>) -> Seq<char> {
    upper_of(sanitize(k))
}

/// The sanitized identifier of `s` (see [`sanitize`]).
pub fn sanitize_name(s: &str) -> (r: String)
    ensures
        r@ == sanitize(s@),
{
    let c = chars_of(s);
    let mut out = String::new();
    let mut pending = false;
    let mut started = false;
    let mut i: usize = 0;
    assert(c@.skip(0) =~= c@);
    while i < c.len()
        invariant
            i <= c@.len(),
            c@ == s@,
            out@ + sanitize_from(c@.skip(i as int), pending, started) == sanitize(s@),
        decreases c@.len() - i,
    {
        let ghost before = out@;
        let ghost rest = c@.skip(i as int);
        assert(rest[0] == c@[i as int]);
        assert(rest.drop_first() =~= c@.skip(i + 1));
        let ghost p0 = pending;
        let ghost s0 = started;
        if is_alphanumeric(c[i]) {
            if pending && started {
                out.push('_');
            }
            out.push(c[i]);
            pending = false;
            started = true;
            assert(out@ =~= before + ((if p0 && s0 { seq!['_'] } else { Seq::<char>::empty() }) + seq![rest[0]]));
        } else {
            pending = true;
        }
        i += 1;
    }
    assert(c@.skip(c@.len() as int) =~= Seq::<char>::empty());
    assert(out@ + Seq::<char>::empty() =~= out@);
    out
}

/// The placeholder token standing for the definition of `k`.
pub open spec fn placeholder(k: Seq<char>) -> Seq<char> {
    "&&&"@ + placeholder_id(k) + "&&&"@
}

/// The placeholder token standing for the schema of generic parameter `g`.
pub open spec fn generic_placeholder(g: Seq<char>) -> Seq<char> {
    "&&&&"@ + g + "&&&&"@
}

/// An entry of a definitions section.
pub open spec fn definition_entry(k: Seq<char>) -> Seq<char> {
    "    \""@ + without_spaces(k) + "\": "@ + placeholder(k) + ",\n"@
}

/// An entry of the generics section.
pub open spec fn generic_entry(g: Seq<char>) -> Seq<char> {
    "    \""@ + g + "\": "@ + generic_placeholder(g) + ",\n"@
}

/// The name shown for the `i`-th field: its own, or its position when it has
/// none.
pub open spec fn field_name(f: SchemaField, i: nat) -> Seq<char> {
    if f.name@.len() == 0 {
        nat_text(i)
    } else {
        f.name@
    }
}

/// The type shown for a field: a shape kept as written appears verbatim;
/// any other reference is rewritten, spaces removed.
pub open spec fn field_type(f: SchemaField, defs: Map<Seq<char>, Seq<char>>, generics: Seq<Seq<char>>) -> Seq<char> {
    if f.sref is Type {
        f.sref.text_view()
    } else {
        without_spaces(resolve_ref(f.sref.text_view(), defs, generics))
    }
}

/// A field entry of a struct.
pub open spec fn struct_field_entry(name: Seq<char>, ty: Seq<char>) -> Seq<char> {
    "    {\n      \"name\": \""@ + name + "\",\n      \"type\": \""@ + ty + "\"\n    },\n"@
}

/// A field entry of a variant.
pub open spec fn variant_field_entry(name: Seq<char>, ty: Seq<char>) -> Seq<char> {
    "        {\n          \"name\": \""@ + name + "\",\n          \"type\": \""@ + ty + "\"\n        },\n"@
}

/// The entries of the first `n` fields of a struct.
pub open spec fn struct_fields_text(
    fs: Seq<SchemaField>,
    n: nat,
    defs: Map<Seq<char>, Seq<char>>,
    generics: Seq<Seq<char>>,
) -> Seq<char>
    decreases n,
{
    if n == 0 || n > fs.len() {
        Seq::empty()
    } else {
        struct_fields_text(fs, (n - 1) as nat, defs, generics) + struct_field_entry(
            field_name(fs[n - 1], (n - 1) as nat),
            field_type(fs[n - 1], defs, generics),
        )
    }
}

/// The entries of the first `n` fields of a variant.
pub open spec fn variant_fields_text(
    fs: Seq<SchemaField>,
    n: nat,
    defs: Map<Seq<char>, Seq<char>>,
    generics: Seq<Seq<char>>,
) -> Seq<char>
    decreases n,
{
    if n == 0 || n > fs.len() {
        Seq::empty()
    } else {
        variant_fields_text(fs, (n - 1) as nat, defs, generics) + variant_field_entry(
            field_name(fs[n - 1], (n - 1) as nat),
            field_type(fs[n - 1], defs, generics),
        )
    }
}

/// The keys the shown type of a field points to: none for a shape kept as
/// written, else those its rewriting turns into pointers.
pub open spec fn field_ref_keys(f: SchemaField, defs: Map<Seq<char>, Seq<char>>, generics: Seq<Seq<char>>) -> Seq<Seq<char>> {
    if f.sref is Type {
        Seq::empty()
    } else {
        ref_keys(f.sref.text_view(), defs, generics)
    }
}

/// The keys the first `n` fields point to, in order.
pub open spec fn fields_ref_keys(
    fs: Seq<SchemaField>,
    n: nat,
    defs: Map<Seq<char>, Seq<char>>,
    generics: Seq<Seq<char>>,
) -> Seq<Seq<char>>
    decreases n,
{
    if n == 0 || n > fs.len() {
        Seq::empty()
    } else {
        fields_ref_keys(fs, (n - 1) as nat, defs, generics) + field_ref_keys(fs[n - 1], defs, generics)
    }
}

/// Entries for those of the first `n` table entries whose key is one of
/// `keys`, in key order.
pub open spec fn pointed_entries_text(e: Seq<(Seq<char>, Seq<char>)>, n: nat, keys: Seq<Seq<char>>) -> Seq<char>
    decreases n,
{
    if n == 0 || n > e.len() {
        Seq::empty()
    } else {
        pointed_entries_text(e, (n - 1) as nat, keys) + if keys.contains(e[n - 1].0) {
            definition_entry(e[n - 1].0)
        } else {
            Seq::<char>::empty()
        }
    }
}

/// The effective discriminant of the `i`-th variant: its explicit one, else
/// one more than the previous variant's (0 for the first).
pub open spec fn effective_discriminant(vs: Seq<SchemaVariant>, i: int) -> int
    decreases i,
{
    match vs[i].discriminant {
        Some(d) => d as int,
        None => if i <= 0 {
            0
        } else {
            effective_discriminant(vs, i - 1) + 1
        },
    }
}

/// The block of one variant with discriminant `d`. Its own definitions
/// list holds, in key order, one entry for each key of the table (whose
/// entries are `entries`) that a type of its fields points to.
pub open spec fn variant_text(
    v: SchemaVariant,
    d: int,
    entries: Seq<(Seq<char>, Seq<char>)>,
    defs: Map<Seq<char>, Seq<char>>,
    generics: Seq<Seq<char>>,
) -> Seq<char> {
    "    {\n      \"name\": \""@ + v.name@ + "\",\n      \"discriminant\": "@ + int_text(d)
        + ",\n      \"type\": \"struct\",\n      \"fields\": [\n"@
        + variant_fields_text(v.fields@, v.fields@.len(), defs, generics) + "      ],\n"@
        + "  \"definitions\": {\n"@ + pointed_entries_text(
            entries,
            entries.len(),
            fields_ref_keys(v.fields@, v.fields@.len(), defs, generics),
        )
        + "        },\n"@ + "        },\n"@
}

/// The blocks of the first `n` variants.
pub open spec fn variants_text(
    vs: Seq<SchemaVariant>,
    n: nat,
    entries: Seq<(Seq<char>, Seq<char>)>,
    defs: Map<Seq<char>, Seq<char>>,
    generics: Seq<Seq<char>>,
) -> Seq<char>
    decreases n,
{
    if n == 0 || n > vs.len() {
        Seq::empty()
    } else {
        variants_text(vs, (n - 1) as nat, entries, defs, generics) + variant_text(
            vs[n - 1],
            effective_discriminant(vs, n - 1),
            entries,
            defs,
            generics,
        )
    }
}

/// The entries of the first `n` definitions.
pub open spec fn definitions_text(e: Seq<(Seq<char>, Seq<char>)>, n: nat) -> Seq<char>
    decreases n,
{
    if n == 0 || n > e.len() {
        Seq::empty()
    } else {
        definitions_text(e, (n - 1) as nat) + definition_entry(e[n - 1].0)
    }
}

/// The entries of the first `n` generic parameters.
pub open spec fn generics_text(gs: Seq<Seq<char>>, n: nat) -> Seq<char>
    decreases n,
{
    if n == 0 || n > gs.len() {
        Seq::empty()
    } else {
        generics_text(gs, (n - 1) as nat) + generic_entry(gs[n - 1])
    }
}

/// The opening of the document.
pub open spec fn header_text(kind: SchemaType, name: Seq<char>) -> Seq<char> {
    "{\n  \"type\": \""@ + (if kind == SchemaType::Enum { "enum"@ } else { "struct"@ }) + "\",\n  \"name\": \""@
        + name + "\",\n  \""@ + (if kind == SchemaType::Enum { "variants"@ } else { "fields"@ }) + "\": [\n"@
}

/// The document a schema renders to, before its placeholders are
/// substituted: header; the fields (struct) or the variants (enum), each
/// variant with its own definitions list; the document's definitions
/// section, one entry for every key of the definition table in key order;
/// the generics section, local parameters first.
///
/// The wire format gives the top-level definitions section to structs; an
/// enum document has one too, holding every key, so that a pointer
/// `#/definitions/<key>`, read from the document's root, always has its
/// entry, as it has in the variant's own list.
pub open spec fn render(s: Schema) -> Seq<char> {
    let defs = s.def@;
    let g = s.all_generics();
    header_text(s.stype, s.name@) + (if s.stype == SchemaType::Struct {
        struct_fields_text(s.fields@, s.fields@.len(), defs, g) + "  ],\n"@
    } else {
        variants_text(s.variants@, s.variants@.len(), s.def.entries(), defs, g) + "    ],\n"@
    }) + "  \"definitions\": {\n"@ + definitions_text(s.def.entries(), s.def.entries().len()) + "  },\n"@
        + "  \"generics\": {\n"@ + generics_text(g, g.len()) + "  }\n}"@
}

/// Appends the placeholder token for the definition of `k`.
pub(crate) fn push_placeholder(out: &mut String, k: &str)
    ensures
        final(out)@ == old(out)@ + placeholder(k@),
{
    let id = to_upper(sanitize_name(k).as_str());
    push_all(out, "&&&");
    push_all(out, id.as_str());
    push_all(out, "&&&");
    assert(final(out)@ =~= old(out)@ + placeholder(k@));
}

fn push_definition_entry(out: &mut String, k: &str)
    ensures
        final(out)@ == old(out)@ + definition_entry(k@),
{
    push_all(out, "    \"");
    push_without_spaces(out, k);
    push_all(out, "\": ");
    push_placeholder(out, k);
    push_all(out, ",\n");
    assert(final(out)@ =~= old(out)@ + definition_entry(k@));
}

fn push_generic_entry(out: &mut String, g: &str)
    ensures
        final(out)@ == old(out)@ + generic_entry(g@),
{
    push_all(out, "    \"");
    push_all(out, g);
    push_all(out, "\": &&&&");
    push_all(out, g);
    push_all(out, "&&&&,\n");
    proof {
        reveal_strlit("\": &&&&");
        reveal_strlit("\": ");
        reveal_strlit("&&&&");
        reveal_strlit("&&&&,\n");
        reveal_strlit(",\n");
    }
    assert(final(out)@ =~= old(out)@ + generic_entry(g@));
}

fn push_field_entry(out: &mut String, f: &SchemaField, i: usize, defs: &DefinitionTable, generics: &[String], in_variant: bool)
    requires
        defs.wf(),
    ensures
        final(out)@ == old(out)@ + if in_variant {
            variant_field_entry(field_name(*f, i as nat), field_type(*f, defs@, strings_view(generics@)))
        } else {
            struct_field_entry(field_name(*f, i as nat), field_type(*f, defs@, strings_view(generics@)))
        },
{
    if in_variant {
        push_all(out, "        {\n          \"name\": \"");
    } else {
        push_all(out, "    {\n      \"name\": \"");
    }
    let ghost o1 = out@;
    if f.name.unicode_len() == 0 {
        push_nat(out, i as u128);
    } else {
        push_all(out, f.name.as_str());
    }
    let ghost o2 = out@;
    assert(o2 == o1 + field_name(*f, i as nat));
    if in_variant {
        push_all(out, "\",\n          \"type\": \"");
    } else {
        push_all(out, "\",\n      \"type\": \"");
    }
    let sref = f.sref.to_string();
    match &f.sref {
        SchemaFieldRef::Type(_) => {
            push_all(out, sref.as_str());
        },
        _ => {
            let rewritten = replace_types(sref.as_str(), defs, generics);
            push_without_spaces(out, rewritten.as_str());
        },
    }
    if in_variant {
        push_all(out, "\"\n        },\n");
    } else {
        push_all(out, "\"\n    },\n");
    }
    assert(final(out)@ =~= old(out)@ + if in_variant {
        variant_field_entry(field_name(*f, i as nat), field_type(*f, defs@, strings_view(generics@)))
    } else {
        struct_field_entry(field_name(*f, i as nat), field_type(*f, defs@, strings_view(generics@)))
    });
}

fn push_fields(out: &mut String, fs: &Vec<SchemaField>, defs: &DefinitionTable, generics: &[String], in_variant: bool)
    requires
        defs.wf(),
    ensures
        final(out)@ == old(out)@ + if in_variant {
            variant_fields_text(fs@, fs@.len(), defs@, strings_view(generics@))
        } else {
            struct_fields_text(fs@, fs@.len(), defs@, strings_view(generics@))
        },
{
    let ghost g = strings_view(generics@);
    let mut i: usize = 0;
    assert(old(out)@ + Seq::<char>::empty() =~= old(out)@);
    while i < fs.len()
        invariant
            defs.wf(),
            i <= fs@.len(),
            g == strings_view(generics@),
            out@ == old(out)@ + if in_variant {
                variant_fields_text(fs@, i as nat, defs@, g)
            } else {
                struct_fields_text(fs@, i as nat, defs@, g)
            },
        decreases fs@.len() - i,
    {
        push_field_entry(out, &fs[i], i, defs, generics, in_variant);
        assert(out@ =~= old(out)@ + if in_variant {
            variant_fields_text(fs@, (i + 1) as nat, defs@, g)
        } else {
            struct_fields_text(fs@, (i + 1) as nat, defs@, g)
        });
        i += 1;
    }
}

/// Appends the keys that the shown types of `fs` point to.
fn collect_field_keys(keys: &mut Vec<String>, fs: &Vec<SchemaField>, defs: &DefinitionTable, generics: &[String])
    requires
        defs.wf(),
    ensures
        strings_view(final(keys)@) == strings_view(old(keys)@) + fields_ref_keys(
            fs@,
            fs@.len(),
            defs@,
            strings_view(generics@),
        ),
{
    let ghost g = strings_view(generics@);
    let mut i: usize = 0;
    assert(strings_view(keys@) =~= strings_view(old(keys)@) + fields_ref_keys(fs@, 0, defs@, g));
    while i < fs.len()
        invariant
            defs.wf(),
            i <= fs@.len(),
            g == strings_view(generics@),
            strings_view(keys@) == strings_view(old(keys)@) + fields_ref_keys(fs@, i as nat, defs@, g),
        decreases fs@.len() - i,
    {
        let ghost kb = strings_view(keys@);
        match &fs[i].sref {
            SchemaFieldRef::Type(_) => {
                assert(strings_view(keys@) =~= kb + field_ref_keys(fs@[i as int], defs@, g));
            },
            _ => {
                let sref = fs[i].sref.to_string();
                let ks = referenced_keys(sref.as_str(), defs, generics);
                let mut j: usize = 0;
                assert(ks@.subrange(0, 0) =~= Seq::<String>::empty());
                assert(strings_view(keys@) =~= kb + strings_view(ks@.subrange(0, 0)));
                while j < ks.len()
                    invariant
                        j <= ks@.len(),
                        strings_view(keys@) == kb + strings_view(ks@.subrange(0, j as int)),
                    decreases ks@.len() - j,
                {
                    let k = ks[j].clone();
                    let ghost bk = keys@;
                    keys.push(k);
                    assert(strings_view(keys@) =~= strings_view(bk).push(k@));
                    assert(strings_view(ks@.subrange(0, j + 1)) =~= strings_view(ks@.subrange(0, j as int)).push(k@));
                    assert(strings_view(keys@) =~= kb + strings_view(ks@.subrange(0, j + 1)));
                    j += 1;
                }
                assert(ks@.subrange(0, ks@.len() as int) =~= ks@);
            },
        }
        assert(strings_view(keys@) =~= strings_view(old(keys)@) + fields_ref_keys(fs@, (i + 1) as nat, defs@, g));
        i += 1;
    }
}

fn push_variant(out: &mut String, v: &SchemaVariant, d: i128, defs: &DefinitionTable, generics: &[String])
    requires
        defs.wf(),
    ensures
        final(out)@ == old(out)@ + variant_text(*v, d as int, defs.entries(), defs@, strings_view(generics@)),
{
    let ghost g = strings_view(generics@);
    push_all(out, "    {\n      \"name\": \"");
    push_all(out, v.name.as_str());
    push_all(out, "\",\n      \"discriminant\": ");
    push_int(out, d);
    push_all(out, ",\n      \"type\": \"struct\",\n      \"fields\": [\n");
    push_fields(out, &v.fields, defs, generics, true);
    push_all(out, "      ],\n");
    push_all(out, "  \"definitions\": {\n");
    let mut keys: Vec<String> = Vec::new();
    collect_field_keys(&mut keys, &v.fields, defs, generics);
    let ghost ks = fields_ref_keys(v.fields@, v.fields@.len(), defs@, g);
    assert(strings_view(keys@) =~= ks);
    let ghost o1 = out@;
    let n = defs.len();
    let mut i: usize = 0;
    assert(o1 + Seq::<char>::empty() =~= o1);
    while i < n
        invariant
            defs.wf(),
            n == defs.entries().len(),
            i <= n,
            strings_view(keys@) == ks,
            out@ == o1 + pointed_entries_text(defs.entries(), i as nat, ks),
        decreases n - i,
    {
        let (k, _v) = defs.entry(i);
        let kc = chars_of(k.as_str());
        assert(kc@.subrange(0, kc@.len() as int) =~= kc@);
        if list_contains(keys.as_slice(), &kc, 0, kc.len()) {
            push_definition_entry(out, k.as_str());
        }
        assert(out@ =~= o1 + pointed_entries_text(defs.entries(), (i + 1) as nat, ks));
        i += 1;
    }
    push_all(out, "        },\n");
    push_all(out, "        },\n");
    assert(final(out)@ =~= old(out)@ + variant_text(*v, d as int, defs.entries(), defs@, g));
}

impl Schema {
    /// Local generic parameter names followed by inherited ones.
    pub fn all_generic_names(&self) -> (r: Vec<String>)
        ensures
            strings_view(r@) == self.all_generics(),
    {
        let mut r: Vec<String> = Vec::new();
        let mut i: usize = 0;
        while i < self.generics.len()
            invariant
                i <= self.generics@.len(),
                strings_view(r@) == strings_view(self.generics@).subrange(0, i as int),
            decreases self.generics@.len() - i,
        {
            let ghost before = r@;
            let x = self.generics[i].clone();
            r.push(x);
            assert(strings_view(r@) =~= strings_view(before).push(x@));
            assert(strings_view(r@) =~= strings_view(self.generics@).subrange(0, i + 1));
            i += 1;
        }
        let mut j: usize = 0;
        let ghost l = strings_view(self.generics@);
        assert(strings_view(r@) =~= l);
        while j < self.parent_generics.len()
            invariant
                j <= self.parent_generics@.len(),
                l == strings_view(self.generics@),
                strings_view(r@) == l + strings_view(self.parent_generics@).subrange(0, j as int),
            decreases self.parent_generics@.len() - j,
        {
            let ghost before = r@;
            let x = self.parent_generics[j].clone();
            r.push(x);
            assert(strings_view(r@) =~= strings_view(before).push(x@));
            assert(strings_view(r@) =~= l + strings_view(self.parent_generics@).subrange(0, j + 1));
            j += 1;
        }
        assert(strings_view(self.parent_generics@).subrange(0, j as int) =~= strings_view(self.parent_generics@));
        r
    }

    /// Renders the schema as a document whose references to other
    /// definitions and to generic parameters are placeholder tokens, to be
    /// resolved by [`crate::substitute::substitute`].
    pub fn to_string(&self) -> (r: String)
        requires
            self.def.wf(),
        ensures
            r@ == render(*self),
    {
        let generics = self.all_generic_names();
        let ghost g = self.all_generics();
        let ghost defs = self.def@;
        let mut s = String::new();
        push_all(&mut s, "{\n  \"type\": \"");
        if self.stype == SchemaType::Enum {
            push_all(&mut s, "enum");
        } else {
            push_all(&mut s, "struct");
        }
        push_all(&mut s, "\",\n  \"name\": \"");
        push_all(&mut s, self.name.as_str());
        push_all(&mut s, "\",\n  \"");
        if self.stype == SchemaType::Enum {
            push_all(&mut s, "variants");
        } else {
            push_all(&mut s, "fields");
        }
        push_all(&mut s, "\": [\n");
        let ghost h = s@;
        assert(h =~= header_text(self.stype, self.name@));
        if self.stype == SchemaType::Struct {
            push_fields(&mut s, &self.fields, &self.def, generics.as_slice(), false);
            push_all(&mut s, "  ],\n");
        } else {
            let mut idx: i128 = 0;
            let mut i: usize = 0;
            let ghost o1 = s@;
            assert(o1 + Seq::<char>::empty() =~= o1);
            while i < self.variants.len()
                invariant
                    self.def.wf(),
                    defs == self.def@,
                    i <= self.variants@.len(),
                    strings_view(generics@) == g,
                    s@ == o1 + variants_text(self.variants@, i as nat, self.def.entries(), defs, g),
                    i > 0 ==> idx == effective_discriminant(self.variants@, i - 1) + 1,
                    i == 0 ==> idx == 0,
                    i32::MIN <= idx <= i32::MAX + i + 1,
                decreases self.variants@.len() - i,
            {
                match self.variants[i].discriminant {
                    Some(d) => {
                        idx = d as i128;
                    },
                    None => {},
                }
                assert(idx == effective_discriminant(self.variants@, i as int));
                let ghost before = s@;
                push_variant(&mut s, &self.variants[i], idx, &self.def, generics.as_slice());
                let ghost e = self.def.entries();
                assert(s@ == before + variant_text(self.variants@[i as int], idx as int, e, defs, g));
                assert(variants_text(self.variants@, (i + 1) as nat, e, defs, g) == variants_text(self.variants@, i as nat, e, defs, g)
                    + variant_text(self.variants@[i as int], effective_discriminant(self.variants@, i as int), e, defs, g));
                assert(s@ =~= o1 + variants_text(self.variants@, (i + 1) as nat, e, defs, g));
                idx = idx + 1;
                i += 1;
            }
            push_all(&mut s, "    ],\n");
        }
        let ghost o2 = s@;
        {
            push_all(&mut s, "  \"definitions\": {\n");
            let ghost o3 = s@;
            let n = self.def.len();
            let mut i: usize = 0;
            assert(o3 + Seq::<char>::empty() =~= o3);
            while i < n
                invariant
                    self.def.wf(),
                    n == self.def.entries().len(),
                    i <= n,
                    s@ == o3 + definitions_text(self.def.entries(), i as nat),
                decreases n - i,
            {
                let (k, _v) = self.def.entry(i);
                push_definition_entry(&mut s, k.as_str());
                assert(s@ =~= o3 + definitions_text(self.def.entries(), (i + 1) as nat));
                i += 1;
            }
            push_all(&mut s, "  },\n");
        }
        let ghost o4 = s@;
        push_all(&mut s, "  \"generics\": {\n");
        let ghost o5 = s@;
        let mut i: usize = 0;
        assert(o5 + Seq::<char>::empty() =~= o5);
        while i < generics.len()
            invariant
                i <= generics@.len(),
                strings_view(generics@) == g,
                s@ == o5 + generics_text(g, i as nat),
            decreases generics@.len() - i,
        {
            assert(generics@[i as int]@ == g[i as int]);
            push_generic_entry(&mut s, generics[i].as_str());
            assert(s@ =~= o5 + generics_text(g, (i + 1) as nat));
            i += 1;
        }
        push_all(&mut s, "  }\n}");
        assert(s@ =~= render(*self));
        s
    }
}

/// A shape the engine does not decompose never stops a derivation: it adds
/// nothing to the definition table, and a field that has it records and
/// shows its written form as is.
pub proof fn lemma_unsupported_kept(
    m: Map<Seq<char>, Seq<char>>,
    t: TypeExpr,
    generics: Seq<Seq<char>>,
    f: SchemaField,
)
    requires
        t is Other,
        describes(f.sref, t),
    ensures
        register(m, t, generics) == m,
        classify_spec(t, generics) == TypeClass::Unsupported,
        f.sref is Type,
        field_type(f, m, generics) == t.text_view(),
{
}

/// Rendering does not depend on the order in which definitions were
/// registered: two schemas that differ at most in the order their tables
/// were filled render the same document.
pub proof fn lemma_render_canonical(a: Schema, b: Schema)
    requires
        a.def.wf(),
        b.def.wf(),
        a.def@ == b.def@,
        a.name == b.name,
        a.stype == b.stype,
        a.generics == b.generics,
        a.parent_generics == b.parent_generics,
        a.fields == b.fields,
        a.variants == b.variants,
    ensures
        render(a) == render(b),
{
    DefinitionTable::lemma_canonical(&a.def, &b.def);
}

/// Discriminants follow declaration order: when the variants after the
/// `j`-th up to the `i`-th carry no explicit discriminant, the `i`-th gets
/// the `j`-th's explicit one plus `i - j`, or `i` itself when none of the
/// first `i + 1` carries one.
pub proof fn lemma_discriminants_in_order(vs: Seq<SchemaVariant>, j: int, i: int)
    requires
        0 <= j <= i < vs.len(),
        forall|k: int| j < k <= i ==> (#[trigger] vs[k]).discriminant is None,
    ensures
        vs[j].discriminant is Some ==> effective_discriminant(vs, i) == vs[j].discriminant->0 as int + (i - j),
        j == 0 && vs[0].discriminant is None ==> effective_discriminant(vs, i) == i,
    decreases i - j,
{
    if i > j {
        lemma_discriminants_in_order(vs, j, i - 1);
        assert(vs[i].discriminant is None);
    }
}

proof fn lemma_fields_ref_keys_in_table(
    fs: Seq<SchemaField>,
    n: nat,
    defs: Map<Seq<char>, Seq<char>>,
    generics: Seq<Seq<char>>,
)
    ensures
        forall|i: int| 0 <= i < fields_ref_keys(fs, n, defs, generics).len() ==> defs.contains_key(
            #[trigger] fields_ref_keys(fs, n, defs, generics)[i],
        ),
    decreases n,
{
    if n > 0 && n <= fs.len() {
        lemma_fields_ref_keys_in_table(fs, (n - 1) as nat, defs, generics);
        let a = fields_ref_keys(fs, (n - 1) as nat, defs, generics);
        let b = field_ref_keys(fs[n - 1], defs, generics);
        if !(fs[n - 1].sref is Type) {
            lemma_ref_keys_in_table(fs[n - 1].sref.text_view(), defs, generics);
        }
        let ks = fields_ref_keys(fs, n, defs, generics);
        assert forall|i: int| 0 <= i < ks.len() implies defs.contains_key(#[trigger] ks[i]) by {
            if i < a.len() {
                assert(ks[i] == a[i]);
            } else {
                assert(ks[i] == b[i - a.len()]);
            }
        }
    }
}

/// A variant's own definitions list is complete: every key that a shown
/// type of its fields points to is a key of the table, so the list (which
/// keeps the table entries whose key is pointed to) has an entry for it.
pub proof fn lemma_variant_definitions_complete(v: SchemaVariant, t: DefinitionTable, generics: Seq<Seq<char>>)
    requires
        t.wf(),
    ensures
        forall|k: Seq<char>| #[trigger] fields_ref_keys(v.fields@, v.fields@.len(), t@, generics).contains(k)
            ==> exists|i: int| 0 <= i < t.entries().len() && t.entries()[i].0 == k,
{
    let ks = fields_ref_keys(v.fields@, v.fields@.len(), t@, generics);
    lemma_fields_ref_keys_in_table(v.fields@, v.fields@.len(), t@, generics);
    crate::table::lemma_map_of_sorted(t.entries());
    assert forall|k: Seq<char>| #[trigger] ks.contains(k) implies exists|i: int| 0 <= i < t.entries().len()
        && t.entries()[i].0 == k by {
        let j = choose|j: int| 0 <= j < ks.len() && ks[j] == k;
        assert(t@.contains_key(ks[j]));
    }
}

} // verus!
