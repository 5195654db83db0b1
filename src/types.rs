//! The shape of a type expression as the schema engine reads it, its
//! simplified written form, and its classification.
use vstd::prelude::*;
use crate::text::{chars_of, push_all};
use crate::words::{chars_are, is_primitive_type, lemma_concat_contains, list_contains, primitive_name, strings_view};

verus! {

broadcast use vstd::std_specs::vec::group_vec_axioms;

/// A type expression as written in a field declaration.
///
/// Every variant carries `text`, the written form of the whole expression as
/// the compiler's token printer renders it (tokens separated by spaces, e.g.
/// `MyObject < Params >`).
#[derive(Debug)]
pub enum TypeExpr {
    /// A path such as `a::b::Name<Args>`: the identifiers of its segments, and,
    /// when the last segment has angle brackets, the type arguments inside them.
    Path { text: String, segments: Vec<String>, args: Option<Vec<TypeExpr>> },
    /// An array or slice, `[elem; N]` or `[elem]`.
    Array { text: String, elem: Box<TypeExpr> },
    /// A tuple `(A, B, ...)`.
    Tuple { text: String, elems: Vec<TypeExpr> },
    /// Any other shape, kept as its written form only.
    Other { text: String },
}

/// How the schema engine treats a type expression.
#[derive(PartialEq, Eq, Structural, Debug, Clone, Copy)]
pub enum TypeClass {
    /// One of the fixed primitive types: never a definition.
    Primitive,
    /// A generic parameter of the type (or a path rooted at one, such as `T::Item`).
    Generic,
    /// A recognized container (`Option`, `Vec`, `Result`, `HashMap`): only its
    /// arguments are of interest.
    Container,
    /// A tuple: only its elements are of interest.
    Tuple,
    /// An array or slice: only its element is of interest.
    Array,
    /// A named type that needs a definition of its own.
    Nominal,
    /// A shape the engine does not decompose.
    Unsupported,
}

impl TypeExpr {
    /// The written form of the whole expression.
    pub open spec fn text_view(&self) -> Seq<char> {
        match self {
            TypeExpr::Path { text, .. } => text@,
            TypeExpr::Array { text, .. } => text@,
            TypeExpr::Tuple { text, .. } => text@,
            TypeExpr::Other { text } => text@,
        }
    }
}

/// The identifier of the last segment of a path (empty for an empty path).
pub open spec fn last_ident(segments: Seq<String>) -> Seq<char> {
    if segments.len() > 0 {
        segments.last()@
    } else {
        Seq::empty()
    }
}

/// The simplified written form: for a path, the last segment's identifier
/// with its type arguments simplified in turn and joined by `", "`, module
/// prefixes and spaces dropped; for any other shape, its written form.
pub open spec fn simplified(t: TypeExpr) -> Seq<char>
    decreases t,
{
    match t {
        TypeExpr::Path { segments, args, .. } => match args {
            Some(a) => last_ident(segments@) + seq!['<'] + simplified_list(a@) + seq!['>'],
            None => last_ident(segments@),
        },
        _ => t.text_view(),
    }
}

/// The simplified forms of `a`, joined by `", "`.
pub open spec fn simplified_list(a: Seq<TypeExpr>) -> Seq<char>
    decreases a,
{
    if a.len() == 0 {
        Seq::empty()
    } else if a.len() == 1 {
        simplified(a[0])
    } else {
        simplified_list(a.subrange(0, a.len() - 1)) + seq![',', ' '] + simplified(a[a.len() - 1])
    }
}

/// The simplified written form of a type expression (see [`simplified`]).
pub fn remove_create_type_path(t: &TypeExpr) -> (r: String)
    ensures
        r@ == simplified(*t),
    decreases t,
{
    match t {
        TypeExpr::Path { segments, args, .. } => {
            let mut r = String::new();
            if segments.len() > 0 {
                r = segments[segments.len() - 1].clone();
            }
            match args {
                Some(a) => {
                    r.push('<');
                    let mut i: usize = 0;
                    while i < a.len()
                        invariant
                            *t is Path,
                            (*t)->args == Some(*a),
                            i <= a@.len(),
                            r@ == last_ident(segments@) + seq!['<'] + simplified_list(a@.subrange(0, i as int)),
                        decreases a@.len() - i,
                    {
                        if i > 0 {
                            push_all(&mut r, ", ");
                        }
                        proof {
                            assert(decreases_to!(*t => (*t)->args));
                            assert(decreases_to!((*t)->args => (*t)->args->0));
                            assert(decreases_to!(*a => a[i as int]));
                        }
                        let part = remove_create_type_path(&a[i]);
                        push_all(&mut r, part.as_str());
                        proof {
                            let s = a@.subrange(0, i + 1);
                            assert(s.subrange(0, i as int) =~= a@.subrange(0, i as int));
                            assert(s[i as int] == a@[i as int]);
                            if i > 0 {
                                reveal_strlit(", ");
                            } else {
                                assert(a@.subrange(0, 0) =~= Seq::<TypeExpr>::empty());
                            }
                        }
                        i += 1;
                    }
                    assert(a@.subrange(0, a@.len() as int) =~= a@);
                    r.push('>');
                },
                None => {},
            }
            r
        },
        TypeExpr::Array { text, .. } => text.clone(),
        TypeExpr::Tuple { text, .. } => text.clone(),
        TypeExpr::Other { text } => text.clone(),
    }
}

/// The recognized container names, whose arguments are registered instead of
/// the container itself.
pub open spec fn container_name(s: Seq<char>) -> bool {
    s == "Option"@ || s == "Vec"@ || s == "Result"@ || s == "HashMap"@
}

/// How a type expression is treated, given the generic parameter names in
/// scope (local ones and inherited ones). A path whose first segment is a
/// generic name is `Generic` whatever else it is; then primitives, then the
/// recognized containers; any other non-empty path is `Nominal`.
pub open spec fn classify_spec(t: TypeExpr, generics: Seq<Seq<char>>) -> TypeClass {
    match t {
        TypeExpr::Path { segments, .. } => if segments@.len() == 0 {
            TypeClass::Unsupported
        } else if generics.contains(segments@[0]@) {
            TypeClass::Generic
        } else if primitive_name(simplified(t)) {
            TypeClass::Primitive
        } else if container_name(last_ident(segments@)) {
            TypeClass::Container
        } else {
            TypeClass::Nominal
        },
        TypeExpr::Tuple { .. } => TypeClass::Tuple,
        TypeExpr::Array { .. } => TypeClass::Array,
        _ => TypeClass::Unsupported,
    }
}

/// Classifies a type expression against the local generic parameters of the
/// type under derivation and those inherited from an enclosing derivation.
pub fn classify(t: &TypeExpr, locals: &[String], parents: &[String]) -> (r: TypeClass)
    ensures
        r == classify_spec(*t, strings_view(locals@) + strings_view(parents@)),
{
    match t {
        TypeExpr::Path { segments, .. } => {
            if segments.len() == 0 {
                return TypeClass::Unsupported;
            }
            let first = chars_of(segments[0].as_str());
            let ghost g = strings_view(locals@) + strings_view(parents@);
            let in_locals = list_contains(locals, &first, 0, first.len());
            let in_parents = list_contains(parents, &first, 0, first.len());
            proof {
                assert(first@.subrange(0, first@.len() as int) =~= first@);
                lemma_concat_contains(strings_view(locals@), strings_view(parents@), first@);
            }
            if in_locals || in_parents {
                return TypeClass::Generic;
            }
            let simple = remove_create_type_path(t);
            if is_primitive_type(simple.as_str()) {
                return TypeClass::Primitive;
            }
            let last = chars_of(segments[segments.len() - 1].as_str());
            if chars_are(&last, "Option") || chars_are(&last, "Vec") || chars_are(&last, "Result")
                || chars_are(&last, "HashMap") {
                TypeClass::Container
            } else {
                TypeClass::Nominal
            }
        },
        TypeExpr::Tuple { .. } => TypeClass::Tuple,
        TypeExpr::Array { .. } => TypeClass::Array,
        _ => TypeClass::Unsupported,
    }
}

} // verus!
