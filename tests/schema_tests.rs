use ts_schema::{
    extract_type_names, is_primitive_type, remove_create_type_path, replace_types, DefinitionTable, Schema,
    SchemaType, TypeExpr,
};

fn path(text: &str, segments: &[&str], args: Option<Vec<TypeExpr>>) -> TypeExpr {
    TypeExpr::Path {
        text: text.to_string(),
        segments: segments.iter().map(|s| s.to_string()).collect(),
        args,
    }
}

fn ident(name: &str) -> TypeExpr {
    path(name, &[name], None)
}

#[test]
fn test_is_primitive_type() {
    assert_eq!(is_primitive_type("usize"), true);
    assert_eq!(is_primitive_type("isize"), true);
    assert_eq!(is_primitive_type("i8"), true);
    assert_eq!(is_primitive_type("i16"), true);
    assert_eq!(is_primitive_type("i32"), true);
    assert_eq!(is_primitive_type("i64"), true);
    assert_eq!(is_primitive_type("u8"), true);
    assert_eq!(is_primitive_type("u16"), true);
    assert_eq!(is_primitive_type("u32"), true);
    assert_eq!(is_primitive_type("u64"), true);
    assert_eq!(is_primitive_type("f32"), true);
    assert_eq!(is_primitive_type("f64"), true);
    assert_eq!(is_primitive_type("bool"), true);
    assert_eq!(is_primitive_type("char"), true);
    assert_eq!(is_primitive_type("String"), true);
    assert_eq!(is_primitive_type("Uuid"), true);
    assert_eq!(is_primitive_type("NaiveDateTime"), true);
    assert_eq!(is_primitive_type("Option<usize>"), false);
    assert_eq!(is_primitive_type("Vec<usize>"), false);
    assert_eq!(is_primitive_type("Option<Vec<usize>>"), false);
}

#[test]
fn test_extract_type_names() {
    assert_eq!(extract_type_names("usize"), vec!["usize"]);
    assert_eq!(extract_type_names("Option<usize>"), vec!["Option", "usize"]);
    assert_eq!(extract_type_names("Vec<usize>"), vec!["Vec", "usize"]);
    assert_eq!(
        extract_type_names("Option<Vec<usize>>"),
        vec!["Option", "Vec", "usize"]
    );
    assert_eq!(
        extract_type_names("HashMap<String, usize>"),
        vec!["HashMap", "String", "usize"]
    );
}

#[test]
fn test_remove_create_type_path() {
    // std::collections::HashMap<String, usize>
    let type_path = path(
        "std :: collections :: HashMap < String , usize >",
        &["std", "collections", "HashMap"],
        Some(vec![ident("String"), ident("usize")]),
    );
    assert_eq!(remove_create_type_path(&type_path), "HashMap<String, usize>");

    let type_path = ident("usize");
    assert_eq!(remove_create_type_path(&type_path), "usize");

    let type_path = path("Option < usize >", &["Option"], Some(vec![ident("usize")]));
    assert_eq!(remove_create_type_path(&type_path), "Option<usize>");

    let type_path = path("Vec < usize >", &["Vec"], Some(vec![ident("usize")]));
    assert_eq!(remove_create_type_path(&type_path), "Vec<usize>");

    // my_fake_module::HashMap<String, usize>
    let type_path = path(
        "my_fake_module :: HashMap < String , usize >",
        &["my_fake_module", "HashMap"],
        Some(vec![ident("String"), ident("usize")]),
    );
    assert_eq!(remove_create_type_path(&type_path), "HashMap<String, usize>");

    // my_fake_module2::my_fake_module::HashMap<my_fake_module::HashMap<String, usize>, usize>
    let inner = path(
        "my_fake_module :: HashMap < String , usize >",
        &["my_fake_module", "HashMap"],
        Some(vec![ident("String"), ident("usize")]),
    );
    let type_path = path(
        "my_fake_module2 :: my_fake_module :: HashMap < my_fake_module :: HashMap < String , usize > , usize >",
        &["my_fake_module2", "my_fake_module", "HashMap"],
        Some(vec![inner, ident("usize")]),
    );
    assert_eq!(
        remove_create_type_path(&type_path),
        "HashMap<HashMap<String, usize>, usize>"
    );
}

#[test]
fn test_replace_types() {
    let mut defs = DefinitionTable::new();
    defs.insert("MyObject".to_string(), "MyObject".to_string());
    defs.insert("Params".to_string(), "Params".to_string());

    let generics = vec!["T".to_string(), "Complex".to_string()];

    assert_eq!(
        replace_types("MyObject", &defs, &generics),
        "#/definitions/MyObject".to_string()
    );
    assert_eq!(
        replace_types("Params", &defs, &generics),
        "#/definitions/Params".to_string()
    );
    assert_eq!(
        replace_types("MyObject<Params>", &defs, &generics),
        "#/definitions/MyObject<#/definitions/Params>".to_string()
    );
    assert_eq!(
        replace_types("MyObject<Params, T>", &defs, &generics),
        "#/definitions/MyObject<#/definitions/Params, T>".to_string()
    );
    assert_eq!(replace_types("T", &defs, &generics), "T".to_string());
    assert_eq!(
        replace_types("Complex", &defs, &generics),
        "Complex".to_string()
    );
    assert_eq!(
        replace_types("Option<T>", &defs, &generics),
        "Option<T>".to_string()
    );
    assert_eq!(
        replace_types("Vec<Complex>", &defs, &generics),
        "Vec<Complex>".to_string()
    );
    assert_eq!(
        replace_types("Option<MyObject>", &defs, &generics),
        "Option<#/definitions/MyObject>".to_string()
    );
    assert_eq!(
        replace_types("Vec<MyObject>", &defs, &generics),
        "Vec<#/definitions/MyObject>".to_string()
    );
    assert_eq!(
        replace_types("Option<Vec<MyObject>>", &defs, &generics),
        "Option<Vec<#/definitions/MyObject>>".to_string()
    );
    assert_eq!(
        replace_types("HashMap<String, usize>", &defs, &generics),
        "HashMap<String, usize>".to_string()
    );
    assert_eq!(
        replace_types("HashMap<String, MyObject>", &defs, &generics),
        "HashMap<String, #/definitions/MyObject>".to_string()
    );
    assert_eq!(
        replace_types("HashMap<String, Params>", &defs, &generics),
        "HashMap<String, #/definitions/Params>".to_string()
    );
    assert_eq!(
        replace_types("HashMap<String, MyObject, Params>", &defs, &generics),
        "HashMap<String, #/definitions/MyObject, #/definitions/Params>".to_string()
    );
}

#[test]
fn test_process_type() {
    let mut schema = Schema::new("MyObject".to_string(), SchemaType::Struct);
    schema.process_type(&ident("usize"));
    schema.process_type(&ident("String"));
    schema.process_type(&path("Option < usize >", &["Option"], Some(vec![ident("usize")])));
    schema.process_type(&path("Vec < usize >", &["Vec"], Some(vec![ident("usize")])));
    schema.process_type(&path(
        "Option < Vec < usize > >",
        &["Option"],
        Some(vec![path("Vec < usize >", &["Vec"], Some(vec![ident("usize")]))]),
    ));
    schema.process_type(&path(
        "HashMap < String , usize >",
        &["HashMap"],
        Some(vec![ident("String"), ident("usize")]),
    ));
    assert_eq!(schema.def.len(), 0);

    let mut schema = Schema::new("MyObject".to_string(), SchemaType::Struct);
    schema.add_generic("T".to_string());
    schema.process_type(&ident("MyObject"));
    schema.process_type(&ident("Params"));
    schema.process_type(&ident("T"));
    schema.process_type(&ident("Complex"));
    assert_eq!(schema.def.len(), 3);
    assert_eq!(schema.def.get("MyObject"), Some(&"MyObject".to_string()));
    assert_eq!(schema.def.get("Params"), Some(&"Params".to_string()));
    assert_eq!(schema.def.get("Complex"), Some(&"Complex".to_string()));
    assert_eq!(schema.def.get("T"), None);
    assert_eq!(schema.generics.len(), 1);
    assert_eq!(schema.generics[0], "T");

    let mut schema = Schema::new("MyObject".to_string(), SchemaType::Struct);
    schema.add_generic("T".to_string());
    schema.process_type(&path("MyObject < Params >", &["MyObject"], Some(vec![ident("Params")])));
    println!("{:?}", schema.def);
    assert_eq!(schema.def.len(), 2);
    assert_eq!(schema.def.get("Params"), Some(&"Params".to_string()));
    assert_eq!(
        schema.def.get("MyObject<Params>"),
        Some(&"MyObject < Params >".to_string())
    );
    schema.process_type(&path(
        "MyObject < Params , T >",
        &["MyObject"],
        Some(vec![ident("Params"), ident("T")]),
    ));
    println!("{:?}", schema.def);
    assert_eq!(schema.def.len(), 3);
    assert_eq!(
        schema.def.get("MyObject<Params, T>"),
        Some(&"MyObject < Params , T >".to_string())
    );
    assert_eq!(
        schema.def.get("MyObject<Params>"),
        Some(&"MyObject < Params >".to_string())
    );
    assert_eq!(schema.def.get("Params"), Some(&"Params".to_string()));
    assert_eq!(schema.def.get("T"), None);
}

#[test]
fn test_add_field() {
    let mut schema = Schema::new("MyObject".to_string(), SchemaType::Struct);
    schema.add_field("id".to_string(), &ident("usize"));
    schema.add_field("name".to_string(), &ident("String"));
    schema.add_field("age".to_string(), &ident("u8"));
    schema.add_field("is_active".to_string(), &ident("bool"));
    schema.add_field("created_at".to_string(), &ident("NaiveDateTime"));
    schema.add_field("updated_at".to_string(), &ident("NaiveDateTime"));
    assert_eq!(schema.fields.len(), 6);
    assert_eq!(schema.fields[0].name, "id");
    assert_eq!(schema.fields[1].name, "name");
    assert_eq!(schema.fields[2].name, "age");
    assert_eq!(schema.fields[3].name, "is_active");
    assert_eq!(schema.fields[4].name, "created_at");
    assert_eq!(schema.fields[5].name, "updated_at");
}

#[test]
fn test_add_variant() {
    let mut schema = Schema::new("MyEnum".to_string(), SchemaType::Enum);
    let fields = vec![
        ("".to_string(), ident("Params")),
        ("".to_string(), path("Vec < MyObject >", &["Vec"], Some(vec![ident("MyObject")]))),
    ];
    schema.add_variant("A".to_string(), &fields, Some(3));
    assert_eq!(schema.variants.len(), 1);
    assert_eq!(schema.variants[0].name, "A");
    assert_eq!(schema.variants[0].discriminant, Some(3));
    assert_eq!(schema.variants[0].fields.len(), 2);
    assert_eq!(schema.variants[0].fields[1].sref.to_string(), "Vec<MyObject>");
    assert_eq!(schema.def.len(), 2);
}

#[test]
fn test_to_string() {
    // Create a schema with a struct
    let mut schema = Schema::new("MyObject".to_string(), SchemaType::Struct);
    schema.add_field("id".to_string(), &ident("usize"));
    schema.add_field("name".to_string(), &ident("String"));

    let expected = r#"{
            "type": "struct",
            "name": "MyObject",
            "fields": [
                {
                    "name": "id",
                    "type": "usize"
                },
                {
                    "name": "name",
                    "type": "String"
                },
            ],
            "definitions": {},
            "generics": {}
        }"#;
    assert_eq!(
        schema.to_string().replace(' ', "").replace('\n', ""),
        expected.replace(' ', "").replace('\n', "")
    );
}
