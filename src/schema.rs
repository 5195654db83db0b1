//! The schema document of one type: its kind, name, fields or variants,
//! generic parameters and definition table, and how registering a field's
//! type fills the table.
use vstd::prelude::*;
use crate::table::DefinitionTable;
use crate::types::{classify, classify_spec, remove_create_type_path, simplified, TypeClass, TypeExpr};
use crate::text::chars_of;
use crate::words::{lemma_concat_contains, list_contains, primitive_name, strings_view};

verus! {

broadcast use vstd::std_specs::vec::group_vec_axioms;

/// The kind of type a schema describes.
#[derive(PartialEq, Eq, Structural, Debug, Clone, Copy)]
pub enum SchemaType {
    Enum,
    Struct,
}

/// How a field refers to its type.
#[derive(Debug)]
pub enum SchemaFieldRef {
    /// A shape kept as written.
    Type(String),
    /// A reference, in simplified form.
    Refs(String),
    /// A list of the given element type.
    ItemsRefs(String),
}

impl SchemaFieldRef {
    /// The text the reference carries.
    pub open spec fn text_view(&self) -> Seq<char> {
        match self {
            SchemaFieldRef::Type(s) => s@,
            SchemaFieldRef::Refs(s) => s@,
            SchemaFieldRef::ItemsRefs(s) => s@,
        }
    }

    /// The text the reference carries.
    pub fn to_string(&self) -> (r: String)
        ensures
            r@ == self.text_view(),
    {
        match self {
            SchemaFieldRef::Type(s) => s.clone(),
            SchemaFieldRef::Refs(s) => s.clone(),
            SchemaFieldRef::ItemsRefs(s) => s.clone(),
        }
    }
}

/// A field: its name (empty when unnamed) and the reference to its type.
#[derive(Debug)]
pub struct SchemaField {
    pub name: String,
    pub sref: SchemaFieldRef,
}

/// An enum variant: its name, its fields in declaration order, and its
/// explicit discriminant, if any.
#[derive(Debug)]
pub struct SchemaVariant {
    pub name: String,
    pub fields: Vec<SchemaField>,
    pub discriminant: Option<i32>,
}

/// The reference that a field of type `t` records: the simplified form of
/// the element type of an array or slice, the simplified form of a path, and
/// the written form otherwise.
pub open spec fn describes(r: SchemaFieldRef, t: TypeExpr) -> bool {
    match t {
        TypeExpr::Array { elem, .. } => r is ItemsRefs && r.text_view() == simplified(*elem),
        TypeExpr::Path { .. } => r is Refs && r.text_view() == simplified(t),
        _ => r is Type && r.text_view() == t.text_view(),
    }
}

/// The reference a field of type `t` records (see [`describes`]).
pub fn field_ref(t: &TypeExpr) -> (r: SchemaFieldRef)
    ensures
        describes(r, *t),
{
    match t {
        TypeExpr::Array { elem, .. } => SchemaFieldRef::ItemsRefs(remove_create_type_path(elem)),
        TypeExpr::Path { .. } => SchemaFieldRef::Refs(remove_create_type_path(t)),
        TypeExpr::Other { text } => SchemaFieldRef::Type(text.clone()),
        TypeExpr::Tuple { text, .. } => SchemaFieldRef::Type(text.clone()),
    }
}

/// The definition table after registering `t`: primitives, generic
/// parameters and undecomposed shapes add nothing; a container adds what its
/// arguments add; a tuple what its elements add; an array or slice what its
/// element adds; a named type adds its
/// simplified form mapped to its written form, then what its arguments add.
pub open spec fn register(
    m: Map<Seq<char>, Seq<char>>,
    t: TypeExpr,
    generics: Seq<Seq<char>>,
) -> Map<Seq<char>, Seq<char>>
    decreases t,
{
    match t {
        TypeExpr::Path { text, args, .. } => {
            let c = classify_spec(t, generics);
            if c == TypeClass::Container || c == TypeClass::Nominal {
                let m2 = if c == TypeClass::Nominal {
                    m.insert(simplified(t), text@)
                } else {
                    m
                };
                match args {
                    Some(a) => register_list(m2, a@, generics),
                    None => m2,
                }
            } else {
                m
            }
        },
        TypeExpr::Tuple { elems, .. } => register_list(m, elems@, generics),
        TypeExpr::Array { elem, .. } => register(m, *elem, generics),
        _ => m,
    }
}

/// Registering each of `a` in turn, first to last.
pub open spec fn register_list(
    m: Map<Seq<char>, Seq<char>>,
    a: Seq<TypeExpr>,
    generics: Seq<Seq<char>>,
) -> Map<Seq<char>, Seq<char>>
    decreases a,
{
    if a.len() == 0 {
        m
    } else {
        register(register_list(m, a.subrange(0, a.len() - 1), generics), a[a.len() - 1], generics)
    }
}

proof fn lemma_union_assoc(a: Map<Seq<char>, Seq<char>>, b: Map<Seq<char>, Seq<char>>, c: Map<Seq<char>, Seq<char>>)
    ensures
        a.union_prefer_right(b).union_prefer_right(c) == a.union_prefer_right(b.union_prefer_right(c)),
{
    assert(a.union_prefer_right(b).union_prefer_right(c) =~= a.union_prefer_right(b.union_prefer_right(c)));
}

/// Registering into a table adds to it what registering into an empty
/// table gives, later entries winning.
proof fn lemma_register_union(m: Map<Seq<char>, Seq<char>>, t: TypeExpr, generics: Seq<Seq<char>>)
    ensures
        register(m, t, generics) == m.union_prefer_right(register(Map::empty(), t, generics)),
    decreases t,
{
    let e = Map::<Seq<char>, Seq<char>>::empty();
    match t {
        TypeExpr::Path { text, args, .. } => {
            let c = classify_spec(t, generics);
            if c == TypeClass::Container || c == TypeClass::Nominal {
                let m2 = if c == TypeClass::Nominal { m.insert(simplified(t), text@) } else { m };
                let e2 = if c == TypeClass::Nominal { e.insert(simplified(t), text@) } else { e };
                assert(m2 == m.union_prefer_right(e2)) by {
                    assert(m2 =~= m.union_prefer_right(e2));
                }
                match args {
                    Some(a) => {
                        assert(decreases_to!(t => t->args));
                        lemma_register_list_union(m2, a@, generics);
                        lemma_register_list_union(e2, a@, generics);
                        lemma_union_assoc(m, e2, register_list(e, a@, generics));
                    },
                    None => {
                        assert(m =~= m.union_prefer_right(e));
                    },
                }
            } else {
                assert(m =~= m.union_prefer_right(e));
            }
        },
        TypeExpr::Tuple { elems, .. } => {
            lemma_register_list_union(m, elems@, generics);
        },
        TypeExpr::Array { elem, .. } => {
            lemma_register_union(m, *elem, generics);
        },
        _ => {
            assert(m =~= m.union_prefer_right(e));
        },
    }
}

proof fn lemma_register_list_union(m: Map<Seq<char>, Seq<char>>, a: Seq<TypeExpr>, generics: Seq<Seq<char>>)
    ensures
        register_list(m, a, generics) == m.union_prefer_right(register_list(Map::empty(), a, generics)),
    decreases a,
{
    let e = Map::<Seq<char>, Seq<char>>::empty();
    if a.len() == 0 {
        assert(m =~= m.union_prefer_right(e));
    } else {
        let p = a.subrange(0, a.len() - 1);
        let last = a[a.len() - 1];
        lemma_register_list_union(m, p, generics);
        let dp = register_list(e, p, generics);
        lemma_register_union(register_list(m, p, generics), last, generics);
        lemma_register_union(dp, last, generics);
        lemma_union_assoc(m, dp, register(e, last, generics));
    }
}

/// Registering the same type twice gives the same table as registering it
/// once.
pub proof fn lemma_register_idempotent(m: Map<Seq<char>, Seq<char>>, t: TypeExpr, generics: Seq<Seq<char>>)
    ensures
        register(register(m, t, generics), t, generics) == register(m, t, generics),
{
    let d = register(Map::empty(), t, generics);
    lemma_register_union(m, t, generics);
    lemma_register_union(m.union_prefer_right(d), t, generics);
    lemma_union_assoc(m, d, d);
    assert(d.union_prefer_right(d) =~= d);
}

/// Registration adds no key that names a primitive type, and a path whose
/// simplified form is a primitive is never classified as needing a
/// definition nor registered.
pub proof fn lemma_register_skips_primitives(m: Map<Seq<char>, Seq<char>>, t: TypeExpr, generics: Seq<Seq<char>>)
    ensures
        forall|k: Seq<char>| #[trigger] register(m, t, generics).contains_key(k) && !m.contains_key(k)
            ==> !primitive_name(k),
        primitive_name(simplified(t)) ==> classify_spec(t, generics) != TypeClass::Nominal,
        primitive_name(simplified(t)) && t is Path ==> register(m, t, generics) == m,
    decreases t,
{
    match t {
        TypeExpr::Path { text, args, .. } => {
            let c = classify_spec(t, generics);
            if c == TypeClass::Container || c == TypeClass::Nominal {
                let m2 = if c == TypeClass::Nominal { m.insert(simplified(t), text@) } else { m };
                assert(c == TypeClass::Nominal ==> !primitive_name(simplified(t)));
                assert(forall|k: Seq<char>| m2.contains_key(k) && !m.contains_key(k) ==> k == simplified(t)
                    && c == TypeClass::Nominal);
                match args {
                    Some(a) => {
                        assert(decreases_to!(t => t->args));
                        lemma_register_list_skips_primitives(m2, a@, generics);
                        assert(register(m, t, generics) == register_list(m2, a@, generics));
                        assert forall|k: Seq<char>| #[trigger] register(m, t, generics).contains_key(k)
                            && !m.contains_key(k) implies !primitive_name(k) by {
                            if m2.contains_key(k) {
                                assert(k == simplified(t));
                            } else {
                                assert(register_list(m2, a@, generics).contains_key(k));
                            }
                        }
                    },
                    None => {
                        assert(register(m, t, generics) == m2);
                        assert forall|k: Seq<char>| #[trigger] register(m, t, generics).contains_key(k)
                            && !m.contains_key(k) implies !primitive_name(k) by {
                            assert(k == simplified(t));
                        }
                    },
                }
            } else {
                assert(register(m, t, generics) == m);
            }
        },
        TypeExpr::Tuple { elems, .. } => {
            lemma_register_list_skips_primitives(m, elems@, generics);
            assert(register(m, t, generics) == register_list(m, elems@, generics));
        },
        TypeExpr::Array { elem, .. } => {
            lemma_register_skips_primitives(m, *elem, generics);
        },
        _ => {},
    }
}

proof fn lemma_register_list_skips_primitives(m: Map<Seq<char>, Seq<char>>, a: Seq<TypeExpr>, generics: Seq<Seq<char>>)
    ensures
        forall|k: Seq<char>| #[trigger] register_list(m, a, generics).contains_key(k) && !m.contains_key(k)
            ==> !primitive_name(k),
    decreases a,
{
    if a.len() > 0 {
        let p = a.subrange(0, a.len() - 1);
        lemma_register_list_skips_primitives(m, p, generics);
        lemma_register_skips_primitives(register_list(m, p, generics), a[a.len() - 1], generics);
    }
}

proof fn lemma_register_list_primitives(m: Map<Seq<char>, Seq<char>>, a: Seq<TypeExpr>, generics: Seq<Seq<char>>)
    requires
        forall|i: int| 0 <= i < a.len() ==> (#[trigger] a[i]) is Path && primitive_name(simplified(a[i])),
    ensures
        register_list(m, a, generics) == m,
    decreases a.len(),
{
    if a.len() > 0 {
        let p = a.subrange(0, a.len() - 1);
        assert forall|i: int| 0 <= i < p.len() implies (#[trigger] p[i]) is Path && primitive_name(simplified(p[i])) by {
            assert(p[i] == a[i]);
        }
        lemma_register_list_primitives(m, p, generics);
        lemma_register_skips_primitives(m, a[a.len() - 1], generics);
    }
}

/// A recognized container applied only to primitive types (`Option<u64>`,
/// `HashMap<String, bool>`) adds nothing to the definition table.
pub proof fn lemma_container_of_primitives(m: Map<Seq<char>, Seq<char>>, t: TypeExpr, generics: Seq<Seq<char>>)
    requires
        t is Path,
        classify_spec(t, generics) == TypeClass::Container,
        t->args is Some ==> forall|i: int| 0 <= i < t->args->0@.len() ==> (#[trigger] t->args->0@[i]) is Path
            && primitive_name(simplified(t->args->0@[i])),
    ensures
        register(m, t, generics) == m,
{
    match t->args {
        Some(a) => lemma_register_list_primitives(m, a@, generics),
        None => {},
    }
}

/// A path rooted at a generic parameter is classified as generic even when
/// its name is also a recognized container name, and registering it adds
/// nothing.
pub proof fn lemma_generic_first(m: Map<Seq<char>, Seq<char>>, t: TypeExpr, generics: Seq<Seq<char>>)
    requires
        t is Path,
        t->segments@.len() > 0,
        generics.contains(t->segments@[0]@),
    ensures
        classify_spec(t, generics) == TypeClass::Generic,
        register(m, t, generics) == m,
{
}

/// `s` without the occurrences of `x`, order kept.
pub open spec fn without(s: Seq<Seq<char>>, x: Seq<char>) -> Seq<Seq<char>>
    decreases s.len(),
{
    if s.len() == 0 {
        s
    } else {
        let r = without(s.drop_last(), x);
        if s.last() == x {
            r
        } else {
            r.push(s.last())
        }
    }
}

/// The schema of one type under derivation.
#[derive(Debug)]
pub struct Schema {
    /// The name of the type.
    pub name: String,
    /// The type's own generic parameters, in declaration order.
    pub generics: Vec<String>,
    /// Generic parameters inherited from an enclosing derivation, in the
    /// order they were added; none of them is also a local one.
    pub parent_generics: Vec<String>,
    /// The kind of the type.
    pub stype: SchemaType,
    /// The fields of a struct, in declaration order.
    pub fields: Vec<SchemaField>,
    /// The variants of an enum, in declaration order.
    pub variants: Vec<SchemaVariant>,
    /// Simplified reference key to written form of each type that needs a
    /// definition.
    pub def: DefinitionTable,
}

impl Schema {
    /// All generic parameter names in scope: local ones, then inherited ones.
    pub open spec fn all_generics(&self) -> Seq<Seq<char>> {
        strings_view(self.generics@) + strings_view(self.parent_generics@)
    }

    /// A fresh schema with nothing recorded.
    pub fn new(name: String, stype: SchemaType) -> (r: Self)
        ensures
            r.name == name,
            r.stype == stype,
            r.generics@.len() == 0,
            r.parent_generics@.len() == 0,
            r.fields@.len() == 0,
            r.variants@.len() == 0,
            r.def.wf(),
            r.def@ == Map::<Seq<char>, Seq<char>>::empty(),
    {
        Self {
            name,
            generics: Vec::new(),
            parent_generics: Vec::new(),
            stype,
            fields: Vec::new(),
            variants: Vec::new(),
            def: DefinitionTable::new(),
        }
    }

    /// Declares a generic parameter of the type itself. A name already
    /// declared is not added again; a name inherited from an enclosing
    /// derivation stops being an inherited one (the local one wins).
    pub fn add_generic(&mut self, ident: String)
        ensures
            strings_view(final(self).generics@) == if strings_view(old(self).generics@).contains(ident@) {
                strings_view(old(self).generics@)
            } else {
                strings_view(old(self).generics@).push(ident@)
            },
            strings_view(final(self).parent_generics@) == without(strings_view(old(self).parent_generics@), ident@),
            final(self).name == old(self).name,
            final(self).stype == old(self).stype,
            final(self).fields == old(self).fields,
            final(self).variants == old(self).variants,
            final(self).def == old(self).def,
    {
        let c = chars_of(ident.as_str());
        assert(c@.subrange(0, c@.len() as int) =~= c@);
        let known = list_contains(self.generics.as_slice(), &c, 0, c.len());
        let mut kept: Vec<String> = Vec::new();
        let mut i: usize = 0;
        while i < self.parent_generics.len()
            invariant
                i <= self.parent_generics@.len(),
                self.parent_generics == old(self).parent_generics,
                strings_view(kept@) == without(strings_view(self.parent_generics@).subrange(0, i as int), ident@),
            decreases self.parent_generics@.len() - i,
        {
            let ghost pv = strings_view(self.parent_generics@);
            proof {
                assert(pv.subrange(0, i + 1).drop_last() =~= pv.subrange(0, i as int));
            }
            if self.parent_generics[i] != ident {
                let ghost before = kept@;
                kept.push(self.parent_generics[i].clone());
                assert(strings_view(kept@) =~= strings_view(before).push(pv[i as int]));
            }
            i += 1;
        }
        assert(strings_view(self.parent_generics@).subrange(0, self.parent_generics@.len() as int)
            =~= strings_view(self.parent_generics@));
        self.parent_generics = kept;
        if !known {
            let ghost before = self.generics@;
            self.generics.push(ident);
            assert(strings_view(self.generics@) =~= strings_view(before).push(c@));
        }
    }

    /// Declares a generic parameter inherited from an enclosing derivation.
    /// A name that is already local or already inherited is not added.
    pub fn add_parent_generic(&mut self, ident: String)
        ensures
            strings_view(final(self).parent_generics@) == if old(self).all_generics().contains(ident@) {
                strings_view(old(self).parent_generics@)
            } else {
                strings_view(old(self).parent_generics@).push(ident@)
            },
            final(self).generics == old(self).generics,
            final(self).name == old(self).name,
            final(self).stype == old(self).stype,
            final(self).fields == old(self).fields,
            final(self).variants == old(self).variants,
            final(self).def == old(self).def,
    {
        let c = chars_of(ident.as_str());
        assert(c@.subrange(0, c@.len() as int) =~= c@);
        let in_locals = list_contains(self.generics.as_slice(), &c, 0, c.len());
        let in_parents = list_contains(self.parent_generics.as_slice(), &c, 0, c.len());
        proof {
            let l = strings_view(self.generics@);
            let p = strings_view(self.parent_generics@);
            lemma_concat_contains(l, p, c@);
        }
        if !in_locals && !in_parents {
            let ghost before = self.parent_generics@;
            self.parent_generics.push(ident);
            assert(strings_view(self.parent_generics@) =~= strings_view(before).push(c@));
        }
    }

    /// Records a field after registering its type (see [`Schema::add_field_with`]).
    pub fn add_field(&mut self, name: String, stype: &TypeExpr)
        requires
            old(self).def.wf(),
        ensures
            final(self).def.wf(),
            final(self).def@ == register(old(self).def@, *stype, old(self).all_generics()),
            final(self).fields@.len() == old(self).fields@.len() + 1,
            final(self).fields@.subrange(0, old(self).fields@.len() as int) == old(self).fields@,
            final(self).fields@.last().name == name,
            describes(final(self).fields@.last().sref, *stype),
            final(self).name == old(self).name,
            final(self).stype == old(self).stype,
            final(self).generics == old(self).generics,
            final(self).parent_generics == old(self).parent_generics,
            final(self).variants == old(self).variants,
    {
        self.add_field_with(name, stype, true);
    }

    /// Records a field of a struct, in declaration order. Its type is
    /// registered in the definition table only when `include_in_def` holds
    /// (a type that is inlined rather than referenced is not).
    pub fn add_field_with(&mut self, name: String, stype: &TypeExpr, include_in_def: bool)
        requires
            old(self).def.wf(),
        ensures
            final(self).def.wf(),
            final(self).def@ == if include_in_def {
                register(old(self).def@, *stype, old(self).all_generics())
            } else {
                old(self).def@
            },
            final(self).fields@.len() == old(self).fields@.len() + 1,
            final(self).fields@.subrange(0, old(self).fields@.len() as int) == old(self).fields@,
            final(self).fields@.last().name == name,
            describes(final(self).fields@.last().sref, *stype),
            final(self).name == old(self).name,
            final(self).stype == old(self).stype,
            final(self).generics == old(self).generics,
            final(self).parent_generics == old(self).parent_generics,
            final(self).variants == old(self).variants,
    {
        if include_in_def {
            self.process_type(stype);
        }
        let sref = field_ref(stype);
        self.fields.push(SchemaField { name, sref });
        assert(self.fields@.subrange(0, old(self).fields@.len() as int) =~= old(self).fields@);
    }

    /// Records a field of the last variant after registering its type.
    pub fn add_variant_field(&mut self, name: String, stype: &TypeExpr)
        requires
            old(self).def.wf(),
            old(self).variants@.len() > 0,
        ensures
            final(self).def.wf(),
            final(self).def@ == register(old(self).def@, *stype, old(self).all_generics()),
            final(self).variants@.len() == old(self).variants@.len(),
            final(self).variants@.subrange(0, old(self).variants@.len() - 1)
                == old(self).variants@.subrange(0, old(self).variants@.len() - 1),
            final(self).variants@.last().name == old(self).variants@.last().name,
            final(self).variants@.last().discriminant == old(self).variants@.last().discriminant,
            final(self).variants@.last().fields@.len() == old(self).variants@.last().fields@.len() + 1,
            final(self).variants@.last().fields@.subrange(0, old(self).variants@.last().fields@.len() as int)
                == old(self).variants@.last().fields@,
            final(self).variants@.last().fields@.last().name == name,
            describes(final(self).variants@.last().fields@.last().sref, *stype),
            final(self).name == old(self).name,
            final(self).stype == old(self).stype,
            final(self).generics == old(self).generics,
            final(self).parent_generics == old(self).parent_generics,
            final(self).fields == old(self).fields,
    {
        self.process_type(stype);
        let sref = field_ref(stype);
        let mut v = self.variants.pop().unwrap();
        let ghost vf = v.fields@;
        v.fields.push(SchemaField { name, sref });
        self.variants.push(v);
        proof {
            let n = old(self).variants@.len();
            assert(self.variants@.subrange(0, n - 1) =~= old(self).variants@.subrange(0, n - 1));
            assert(self.variants@.last().fields@.subrange(0, vf.len() as int) =~= vf);
        }
    }

    /// Records a variant of an enum, in declaration order, with its fields
    /// (an empty name for an unnamed field) and its explicit discriminant;
    /// each field's type is registered in turn.
    pub fn add_variant(&mut self, name: String, fields: &Vec<(String, TypeExpr)>, discriminant: Option<i32>)
        requires
            old(self).def.wf(),
        ensures
            final(self).def.wf(),
            final(self).def@ == register_list(
                old(self).def@,
                fields@.map_values(|p: (String, TypeExpr)| p.1),
                old(self).all_generics(),
            ),
            final(self).variants@.len() == old(self).variants@.len() + 1,
            final(self).variants@.subrange(0, old(self).variants@.len() as int) == old(self).variants@,
            final(self).variants@.last().name == name,
            final(self).variants@.last().discriminant == discriminant,
            final(self).variants@.last().fields@.len() == fields@.len(),
            forall|i: int| 0 <= i < fields@.len() ==> (#[trigger] final(self).variants@.last().fields@[i]).name == fields@[i].0
                && describes(final(self).variants@.last().fields@[i].sref, fields@[i].1),
            final(self).name == old(self).name,
            final(self).stype == old(self).stype,
            final(self).generics == old(self).generics,
            final(self).parent_generics == old(self).parent_generics,
            final(self).fields == old(self).fields,
    {
        self.variants.push(SchemaVariant { name, fields: Vec::new(), discriminant });
        let ghost g = self.all_generics();
        let ghost types = fields@.map_values(|p: (String, TypeExpr)| p.1);
        let ghost n = old(self).variants@.len();
        let mut i: usize = 0;
        assert(self.variants@.subrange(0, n as int) =~= old(self).variants@);
        while i < fields.len()
            invariant
                i <= fields@.len(),
                types == fields@.map_values(|p: (String, TypeExpr)| p.1),
                g == self.all_generics(),
                g == old(self).all_generics(),
                self.def.wf(),
                self.def@ == register_list(old(self).def@, types.subrange(0, i as int), g),
                self.variants@.len() == n + 1,
                self.variants@.subrange(0, n as int) == old(self).variants@,
                self.variants@.last().name == name,
                self.variants@.last().discriminant == discriminant,
                self.variants@.last().fields@.len() == i,
                forall|k: int| 0 <= k < i ==> (#[trigger] self.variants@.last().fields@[k]).name == fields@[k].0
                    && describes(self.variants@.last().fields@[k].sref, fields@[k].1),
                self.name == old(self).name,
                self.stype == old(self).stype,
                self.generics == old(self).generics,
                self.parent_generics == old(self).parent_generics,
                self.fields == old(self).fields,
            decreases fields@.len() - i,
        {
            let ghost before = self.variants@.last().fields@;
            let ghost vs = self.variants@;
            let fname = fields[i].0.clone();
            self.add_variant_field(fname, &fields[i].1);
            proof {
                let s = types.subrange(0, i + 1);
                assert(s.subrange(0, i as int) =~= types.subrange(0, i as int));
                assert(s[i as int] == fields@[i as int].1);
                assert(self.variants@.subrange(0, n as int) =~= vs.subrange(0, n as int));
                assert forall|k: int| 0 <= k < i + 1 implies (#[trigger] self.variants@.last().fields@[k]).name == fields@[k].0
                    && describes(self.variants@.last().fields@[k].sref, fields@[k].1) by {
                    if k < i {
                        assert(self.variants@.last().fields@[k] == self.variants@.last().fields@.subrange(0, i as int)[k]);
                        assert(before[k] == self.variants@.last().fields@[k]);
                    }
                }
            }
            i += 1;
        }
        assert(types.subrange(0, fields@.len() as int) =~= types);
    }

    /// Registers `stype` (and, recursively, the types inside it) in the
    /// definition table.
    pub fn process_type(&mut self, stype: &TypeExpr)
        requires
            old(self).def.wf(),
        ensures
            final(self).def.wf(),
            final(self).def@ == register(old(self).def@, *stype, old(self).all_generics()),
            final(self).name == old(self).name,
            final(self).stype == old(self).stype,
            final(self).generics == old(self).generics,
            final(self).parent_generics == old(self).parent_generics,
            final(self).fields == old(self).fields,
            final(self).variants == old(self).variants,
        decreases stype,
    {
        let ghost g = self.all_generics();
        match stype {
            TypeExpr::Path { text, args, .. } => {
                let c = classify(stype, self.generics.as_slice(), self.parent_generics.as_slice());
                if c == TypeClass::Container || c == TypeClass::Nominal {
                    if c == TypeClass::Nominal {
                        let key = remove_create_type_path(stype);
                        self.def.insert(key, text.clone());
                    }
                    match args {
                        Some(a) => {
                            let ghost m2 = self.def@;
                            let mut i: usize = 0;
                            while i < a.len()
                                invariant
                                    *stype is Path,
                                    (*stype)->args == Some(*a),
                                    i <= a@.len(),
                                    self.def.wf(),
                                    self.def@ == register_list(m2, a@.subrange(0, i as int), g),
                                    g == self.all_generics(),
                                    self.name == old(self).name,
                                    self.stype == old(self).stype,
                                    self.generics == old(self).generics,
                                    self.parent_generics == old(self).parent_generics,
                                    self.fields == old(self).fields,
                                    self.variants == old(self).variants,
                                decreases a@.len() - i,
                            {
                                proof {
                                    assert(decreases_to!(*stype => (*stype)->args));
                                    assert(decreases_to!((*stype)->args => (*stype)->args->0));
                                    assert(decreases_to!(*a => a[i as int]));
                                    let s = a@.subrange(0, i + 1);
                                    assert(s.subrange(0, i as int) =~= a@.subrange(0, i as int));
                                }
                                self.process_type(&a[i]);
                                i += 1;
                            }
                            assert(a@.subrange(0, a@.len() as int) =~= a@);
                        },
                        None => {},
                    }
                }
            },
            TypeExpr::Tuple { elems, .. } => {
                let ghost m0 = self.def@;
                let mut i: usize = 0;
                while i < elems.len()
                    invariant
                        *stype is Tuple,
                        (*stype)->elems == *elems,
                        i <= elems@.len(),
                        self.def.wf(),
                        self.def@ == register_list(m0, elems@.subrange(0, i as int), g),
                        g == self.all_generics(),
                        self.name == old(self).name,
                        self.stype == old(self).stype,
                        self.generics == old(self).generics,
                        self.parent_generics == old(self).parent_generics,
                        self.fields == old(self).fields,
                        self.variants == old(self).variants,
                    decreases elems@.len() - i,
                {
                    proof {
                        assert(decreases_to!(*stype => (*stype)->elems));
                        assert(decreases_to!(*elems => elems[i as int]));
                        let s = elems@.subrange(0, i + 1);
                        assert(s.subrange(0, i as int) =~= elems@.subrange(0, i as int));
                    }
                    self.process_type(&elems[i]);
                    i += 1;
                }
                assert(elems@.subrange(0, elems@.len() as int) =~= elems@);
            },
            TypeExpr::Array { elem, .. } => {
                proof {
                    assert(decreases_to!(*stype => (*stype)->elem));
                }
                self.process_type(elem);
            },
            _ => {},
        }
    }
}

} // verus!
