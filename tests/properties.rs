use ts_schema::{
    classify, extract_parent_generics, extract_type_names, replace_types, sanitize_name, substitute, DefinitionTable, Schema,
    SchemaError, SchemaType, TypeClass, TypeExpr,
};

fn path(text: &str, segments: &[&str], args: Option<Vec<TypeExpr>>) -> TypeExpr {
    TypeExpr::Path {
        text: text.to_string(),
        segments: segments.iter().map(|s| s.to_string()).collect(),
        args,
    }
}

fn ident(name: &str) -> TypeExpr {
    path(name, &[name], None)
}

fn compact(s: &str) -> String {
    s.replace(' ', "").replace('\n', "")
}

#[test]
fn registering_twice_keeps_the_table() {
    let ty = path(
        "Option < Vec < Point < Gender > > >",
        &["Option"],
        Some(vec![path(
            "Vec < Point < Gender > >",
            &["Vec"],
            Some(vec![path("Point < Gender >", &["Point"], Some(vec![ident("Gender")]))]),
        )]),
    );
    let mut once = Schema::new("User".to_string(), SchemaType::Struct);
    once.process_type(&ty);
    let mut twice = Schema::new("User".to_string(), SchemaType::Struct);
    twice.process_type(&ty);
    twice.process_type(&ty);
    assert_eq!(once.def.len(), 2);
    assert_eq!(twice.def.len(), 2);
    assert_eq!(twice.def.get("Point<Gender>"), Some(&"Point < Gender >".to_string()));
    assert_eq!(twice.def.get("Gender"), Some(&"Gender".to_string()));
    assert_eq!(once.to_string(), twice.to_string());
}

#[test]
fn primitives_are_never_registered() {
    let names = [
        "usize", "isize", "i8", "i16", "i32", "i64", "u8", "u16", "u32", "u64", "f32", "f64", "bool", "char",
        "String", "Uuid", "NaiveDateTime",
    ];
    let mut schema = Schema::new("P".to_string(), SchemaType::Struct);
    for n in names.iter() {
        let t = ident(n);
        assert_eq!(classify(&t, &[], &[]), TypeClass::Primitive);
        schema.process_type(&t);
    }
    let qualified = path("std :: string :: String", &["std", "string", "String"], None);
    assert_eq!(classify(&qualified, &[], &[]), TypeClass::Primitive);
    schema.process_type(&qualified);
    assert_eq!(schema.def.len(), 0);
}

#[test]
fn generic_name_wins_over_container() {
    let generics = vec!["Option".to_string()];
    let bare = ident("Option");
    assert_eq!(classify(&bare, &generics, &[]), TypeClass::Generic);
    let with_args = path("Option < User >", &["Option"], Some(vec![ident("User")]));
    assert_eq!(classify(&with_args, &generics, &[]), TypeClass::Generic);
    assert_eq!(classify(&with_args, &[], &generics), TypeClass::Generic);
    assert_eq!(classify(&with_args, &[], &[]), TypeClass::Container);
    let assoc = path("T :: Item", &["T", "Item"], None);
    assert_eq!(classify(&assoc, &["T".to_string()], &[]), TypeClass::Generic);
    let mut schema = Schema::new("S".to_string(), SchemaType::Struct);
    schema.add_generic("Option".to_string());
    schema.process_type(&with_args);
    assert_eq!(schema.def.len(), 0);
}

#[test]
fn classification_of_other_shapes() {
    let user = ident("User");
    assert_eq!(classify(&user, &[], &[]), TypeClass::Nominal);
    let tuple = TypeExpr::Tuple { text: "(User , u8)".to_string(), elems: vec![ident("User"), ident("u8")] };
    assert_eq!(classify(&tuple, &[], &[]), TypeClass::Tuple);
    let array = TypeExpr::Array { text: "[User ; 3]".to_string(), elem: Box::new(ident("User")) };
    assert_eq!(classify(&array, &[], &[]), TypeClass::Array);
    let mut schema = Schema::new("S".to_string(), SchemaType::Struct);
    schema.process_type(&tuple);
    assert_eq!(schema.def.get("User"), Some(&"User".to_string()));
    assert_eq!(schema.def.len(), 1);
}

#[test]
fn rewriting_nested_reference_and_again() {
    let mut defs = DefinitionTable::new();
    defs.insert("User".to_string(), "User".to_string());
    let once = replace_types("Option<Vec<User>>", &defs, &[]);
    assert_eq!(once, "Option<Vec<#/definitions/User>>");
    let twice = replace_types(&once, &defs, &[]);
    assert_eq!(twice, once);
    let whole = replace_types("User", &defs, &[]);
    assert_eq!(replace_types(&whole, &defs, &[]), "#/definitions/User");
}

#[test]
fn rewriting_keeps_unclosed_group() {
    let mut defs = DefinitionTable::new();
    defs.insert("User".to_string(), "User".to_string());
    assert_eq!(replace_types("Vec<User", &defs, &[]), "Vec<User");
    assert_eq!(replace_types("", &defs, &[]), "");
    assert_eq!(replace_types("User>", &defs, &[]), "User>");
    assert_eq!(replace_types("User<", &defs, &[]), "User<");
    assert_eq!(replace_types("Option<User", &defs, &[]), "Option<User");
    assert_eq!(replace_types("Vec<User>>", &defs, &[]), "Vec<User>>");
}

#[test]
fn self_reference_resolves_to_root_pointer() {
    let mut schema = Schema::new("User".to_string(), SchemaType::Struct);
    schema.add_field("user_id".to_string(), &ident("i32"));
    schema.add_field("family".to_string(), &path("Vec < User >", &["Vec"], Some(vec![ident("User")])));
    let doc = schema.to_string();
    assert!(doc.contains("&&&USER&&&"));
    let done = substitute(&doc, "User", &vec![], &vec![]).unwrap();
    assert!(!done.contains("&&&"));
    let c = compact(&done);
    assert!(c.contains("\"definitions\":{\"User\":\"#\",},"));
    assert!(c.contains("\"type\":\"Vec<#>\""));
}

#[test]
fn enum_discriminants_follow_declaration_order() {
    let f64_ty = ident("f64");
    let b_fields = vec![("foo".to_string(), ident("String")), ("bar".to_string(), f64_ty)];
    let c_fields = vec![("".to_string(), ident("SimpleRef"))];

    let mut schema = Schema::new("E".to_string(), SchemaType::Enum);
    schema.add_variant("A".to_string(), &vec![], None);
    schema.add_variant("B".to_string(), &b_fields, None);
    schema.add_variant("C".to_string(), &c_fields, None);
    let c = compact(&schema.to_string());
    assert!(c.contains("\"name\":\"A\",\"discriminant\":0,"));
    assert!(c.contains("\"name\":\"B\",\"discriminant\":1,"));
    assert!(c.contains("\"name\":\"C\",\"discriminant\":2,"));
    assert!(c.contains("{\"name\":\"0\",\"type\":\"#/definitions/SimpleRef\"}"));
    assert!(c.contains("\"SimpleRef\":&&&SIMPLEREF&&&,"));

    let mut schema = Schema::new("E".to_string(), SchemaType::Enum);
    schema.add_variant("A".to_string(), &vec![], None);
    schema.add_variant("B".to_string(), &b_fields, Some(5));
    schema.add_variant("C".to_string(), &c_fields, None);
    let c = compact(&schema.to_string());
    assert!(c.contains("\"name\":\"A\",\"discriminant\":0,"));
    assert!(c.contains("\"name\":\"B\",\"discriminant\":5,"));
    assert!(c.contains("\"name\":\"C\",\"discriminant\":6,"));
}

#[test]
fn negative_and_large_discriminants() {
    let mut schema = Schema::new("E".to_string(), SchemaType::Enum);
    schema.add_variant("A".to_string(), &vec![], Some(-3));
    schema.add_variant("B".to_string(), &vec![], None);
    schema.add_variant("C".to_string(), &vec![], Some(i32::MAX));
    schema.add_variant("D".to_string(), &vec![], None);
    let c = compact(&schema.to_string());
    assert!(c.contains("\"name\":\"A\",\"discriminant\":-3,"));
    assert!(c.contains("\"name\":\"B\",\"discriminant\":-2,"));
    assert!(c.contains("\"name\":\"C\",\"discriminant\":2147483647,"));
    assert!(c.contains("\"name\":\"D\",\"discriminant\":2147483648,"));
}

#[test]
fn point_generic_bound_at_use_site() {
    let mut schema = Schema::new("Point".to_string(), SchemaType::Struct);
    schema.add_generic("T".to_string());
    schema.add_field("time".to_string(), &ident("u64"));
    schema.add_field("value".to_string(), &ident("T"));
    assert_eq!(schema.def.len(), 0);
    let doc = schema.to_string();
    assert_eq!(
        compact(&doc),
        compact(
            r#"{"type": "struct", "name": "Point", "fields": [
                {"name": "time", "type": "u64"},
                {"name": "value", "type": "T"},
            ],
            "definitions": {},
            "generics": {"T": &&&&T&&&&,}}"#
        )
    );
    let gender = "GenderSchema".to_string();
    let done = substitute(&doc, "Point", &vec![], &vec![("T".to_string(), gender)]).unwrap();
    let c = compact(&done);
    assert!(c.contains("\"definitions\":{},"));
    assert!(c.contains("\"generics\":{\"T\":GenderSchema,}"));
}

#[test]
fn unsupported_shape_is_kept_verbatim() {
    let mut schema = Schema::new("S".to_string(), SchemaType::Struct);
    let other = TypeExpr::Other { text: "& 'static str".to_string() };
    assert_eq!(classify(&other, &[], &[]), TypeClass::Unsupported);
    schema.add_field("label".to_string(), &other);
    assert_eq!(schema.def.len(), 0);
    let doc = schema.to_string();
    assert!(doc.contains("\"type\": \"& 'static str\""));
}

#[test]
fn unresolved_placeholder_is_an_error() {
    let mut schema = Schema::new("MyObject".to_string(), SchemaType::Struct);
    schema.add_field("params".to_string(), &ident("Params"));
    let doc = schema.to_string();
    assert!(doc.contains("\"Params\": &&&PARAMS&&&,"));
    assert_eq!(
        substitute(&doc, "MyObject", &vec![], &vec![]),
        Err(SchemaError::UnresolvedPlaceholder("PARAMS".to_string()))
    );
    let done = substitute(&doc, "MyObject", &vec![("Params".to_string(), "ParamsSchema".to_string())], &vec![]).unwrap();
    assert!(done.contains("\"Params\": ParamsSchema,"));
    assert!(done.contains("\"type\": \"#/definitions/Params\""));

    let mut generic = Schema::new("Box".to_string(), SchemaType::Struct);
    generic.add_generic("T".to_string());
    let doc = generic.to_string();
    assert_eq!(
        substitute(&doc, "Box", &vec![], &vec![]),
        Err(SchemaError::UnresolvedPlaceholder("T".to_string()))
    );
}

#[test]
fn definitions_follow_key_order_whatever_the_registration_order() {
    let mut a = Schema::new("S".to_string(), SchemaType::Struct);
    a.add_field("z".to_string(), &ident("Zebra"));
    a.add_field("b".to_string(), &ident("Bee"));
    let mut b = Schema::new("S".to_string(), SchemaType::Struct);
    b.process_type(&ident("Bee"));
    b.process_type(&ident("Zebra"));
    b.add_field_with("z".to_string(), &ident("Zebra"), false);
    b.add_field_with("b".to_string(), &ident("Bee"), false);
    assert_eq!(a.to_string(), b.to_string());
    let c = compact(&a.to_string());
    assert!(c.contains("\"definitions\":{\"Bee\":&&&BEE&&&,\"Zebra\":&&&ZEBRA&&&,},"));
}

#[test]
fn inlined_field_is_not_registered() {
    let mut schema = Schema::new("S".to_string(), SchemaType::Struct);
    schema.add_field_with("inner".to_string(), &ident("Inner"), false);
    assert_eq!(schema.def.len(), 0);
    assert_eq!(schema.fields.len(), 1);
}

#[test]
fn sanitized_identifiers() {
    assert_eq!(sanitize_name("HashMap<String, usize>"), "HashMap_String_usize");
    assert_eq!(sanitize_name("__a::b__"), "a_b");
    assert_eq!(sanitize_name(""), "");
    let mut schema = Schema::new("S".to_string(), SchemaType::Struct);
    schema.add_field(
        "m".to_string(),
        &path("MyObject < Params >", &["MyObject"], Some(vec![ident("Params")])),
    );
    let c = compact(&schema.to_string());
    assert!(c.contains("\"MyObject<Params>\":&&&MYOBJECT_PARAMS&&&,"));
    assert!(c.contains("\"Params\":&&&PARAMS&&&,"));
}

#[test]
fn parent_generics_read_from_rendered_document() {
    let mut parent = Schema::new("TaskInput".to_string(), SchemaType::Enum);
    parent.add_generic("A".to_string());
    parent.add_generic("B".to_string());
    let doc = parent.to_string();
    assert_eq!(extract_parent_generics(&doc), vec!["A".to_string(), "B".to_string()]);
    let done = substitute(
        &doc,
        "TaskInput",
        &vec![],
        &vec![
            ("A".to_string(), "{ \"generics\": { \"X\": 1 } }".to_string()),
            ("B".to_string(), "RoleSchema".to_string()),
        ],
    )
    .unwrap();
    assert_eq!(extract_parent_generics(&done), vec!["A".to_string(), "B".to_string()]);
    assert_eq!(extract_parent_generics("{}"), Vec::<String>::new());
    assert_eq!(extract_parent_generics(""), Vec::<String>::new());
}

#[test]
fn local_generic_wins_over_parent() {
    let mut schema = Schema::new("S".to_string(), SchemaType::Struct);
    schema.add_parent_generic("A".to_string());
    schema.add_parent_generic("B".to_string());
    schema.add_parent_generic("A".to_string());
    assert_eq!(schema.parent_generics, vec!["A".to_string(), "B".to_string()]);
    schema.add_generic("A".to_string());
    schema.add_generic("A".to_string());
    assert_eq!(schema.generics, vec!["A".to_string()]);
    assert_eq!(schema.parent_generics, vec!["B".to_string()]);
    schema.add_parent_generic("A".to_string());
    assert_eq!(schema.parent_generics, vec!["B".to_string()]);
    schema.add_field("b".to_string(), &ident("B"));
    assert_eq!(schema.def.len(), 0);
    let c = compact(&schema.to_string());
    assert!(c.contains("\"generics\":{\"A\":&&&&A&&&&,\"B\":&&&&B&&&&,}"));
    assert!(c.contains("{\"name\":\"b\",\"type\":\"B\"}"));
}

#[test]
fn non_ascii_identifiers_are_words() {
    assert_eq!(extract_type_names("Vec<Été>"), vec!["Vec", "Été"]);
    assert_eq!(sanitize_name("Été<x>"), "Été_x");
}

#[test]
fn standalone_form_names_the_constant() {
    assert_eq!(ts_schema::standalone_form("User", "{}"), "const UserSchema = {}");
}

#[test]
fn self_reference_detection() {
    assert!(ts_schema::is_self_reference("User", "User"));
    assert!(!ts_schema::is_self_reference("UserRole", "User"));
    assert!(!ts_schema::is_self_reference("Vec<User>", "User"));
}

#[test]
fn array_field_records_its_element() {
    let mut schema = Schema::new("S".to_string(), SchemaType::Struct);
    schema.add_field("owner".to_string(), &ident("User"));
    let array = TypeExpr::Array { text: "[User ; 3]".to_string(), elem: Box::new(ident("User")) };
    schema.add_field("team".to_string(), &array);
    assert_eq!(schema.fields[1].sref.to_string(), "User");
    assert_eq!(schema.def.len(), 1);
    let c = compact(&schema.to_string());
    assert!(c.contains("{\"name\":\"team\",\"type\":\"#/definitions/User\"}"));
}

#[test]
fn unnamed_struct_field_gets_its_position() {
    let mut schema = Schema::new("Wrapper".to_string(), SchemaType::Struct);
    schema.add_field("".to_string(), &ident("u8"));
    schema.add_field("".to_string(), &ident("Inner"));
    let c = compact(&schema.to_string());
    assert!(c.contains("{\"name\":\"0\",\"type\":\"u8\"},{\"name\":\"1\",\"type\":\"#/definitions/Inner\"},"));
}

#[test]
fn array_element_is_registered() {
    let mut schema = Schema::new("Team".to_string(), SchemaType::Struct);
    let array = TypeExpr::Array { text: "[User ; 4]".to_string(), elem: Box::new(ident("User")) };
    schema.add_field("members".to_string(), &array);
    assert_eq!(schema.def.get("User"), Some(&"User".to_string()));
    assert_eq!(schema.def.len(), 1);
    let c = compact(&schema.to_string());
    assert!(c.contains("{\"name\":\"members\",\"type\":\"#/definitions/User\"}"));
    assert!(c.contains("\"definitions\":{\"User\":&&&USER&&&,},"));
}

#[test]
fn enum_document_has_an_entry_for_every_pointer() {
    let inner = path("MyObject < Params >", &["MyObject"], Some(vec![ident("Params")]));
    let field = path("Option < MyObject < Params > >", &["Option"], Some(vec![inner]));
    let mut schema = Schema::new("E".to_string(), SchemaType::Enum);
    schema.add_variant("V".to_string(), &vec![("".to_string(), field)], None);
    let c = compact(&schema.to_string());
    assert!(c.contains("\"type\":\"Option<#/definitions/MyObject<Params>>\""));
    assert!(c.contains(
        "],\"definitions\":{\"MyObject<Params>\":&&&MYOBJECT_PARAMS&&&,\"Params\":&&&PARAMS&&&,},\"generics\":{}}"
    ));
    assert!(c.contains("\"definitions\":{\"MyObject<Params>\":&&&MYOBJECT_PARAMS&&&,},},"));
}

#[test]
fn array_of_qualified_path_points_to_its_key() {
    let mut schema = Schema::new("Team".to_string(), SchemaType::Struct);
    let elem = path("a :: User", &["a", "User"], None);
    let array = TypeExpr::Array { text: "[a :: User ; 4]".to_string(), elem: Box::new(elem) };
    schema.add_field("members".to_string(), &array);
    assert_eq!(schema.fields[0].sref.to_string(), "User");
    assert_eq!(schema.def.get("User"), Some(&"a :: User".to_string()));
    let c = compact(&schema.to_string());
    assert!(c.contains("{\"name\":\"members\",\"type\":\"#/definitions/User\"}"));
}

#[test]
fn word_characters() {
    assert!(ts_schema::is_word_char('a'));
    assert!(ts_schema::is_word_char('_'));
    assert!(ts_schema::is_word_char('é'));
    assert!(!ts_schema::is_word_char('&'));
    assert!(!ts_schema::is_word_char('<'));
}

#[test]
fn variant_lists_the_keys_its_fields_point_to() {
    let mut schema = Schema::new("E".to_string(), SchemaType::Enum);
    let map = path(
        "HashMap < String , Vec < Params > >",
        &["HashMap"],
        Some(vec![ident("String"), path("Vec < Params >", &["Vec"], Some(vec![ident("Params")]))]),
    );
    schema.add_variant("A".to_string(), &vec![("m".to_string(), map)], None);
    schema.add_variant("B".to_string(), &vec![("x".to_string(), ident("Other"))], None);
    let c = compact(&schema.to_string());
    assert!(c.contains("\"type\":\"HashMap<String,Vec<#/definitions/Params>>\"},],\"definitions\":{\"Params\":&&&PARAMS&&&,},},"));
    assert!(c.contains("\"type\":\"#/definitions/Other\"},],\"definitions\":{\"Other\":&&&OTHER&&&,},},"));
}

#[test]
fn referenced_keys_follow_the_pointers() {
    let mut defs = DefinitionTable::new();
    defs.insert("MyObject<Params>".to_string(), "MyObject < Params >".to_string());
    defs.insert("Params".to_string(), "Params".to_string());
    defs.insert("User".to_string(), "User".to_string());
    assert_eq!(ts_schema::referenced_keys("Option<MyObject<Params>>", &defs, &[]), vec!["MyObject<Params>"]);
    assert_eq!(ts_schema::referenced_keys("HashMap<User, Params>", &defs, &[]), vec!["User", "Params"]);
    assert_eq!(ts_schema::referenced_keys("Vec<User", &defs, &[]), Vec::<String>::new());
    assert_eq!(ts_schema::referenced_keys("User", &defs, &["User".to_string()]), Vec::<String>::new());
}
