use parts_unknown::ts_data::{
    TranslateType, TsAttr, TsData, TsDecl, TsField, TsFields, TsPath, TsVariant, derive_impl, is_skip,
};

fn path(name: &str, args: Vec<TsPath>) -> TsPath {
    TsPath { segments: name.split("::").map(|s| s.to_string()).collect(), args }
}

fn plain(name: &str) -> TsPath {
    path(name, vec![])
}

fn field(name: &str, ty: TsPath) -> TsField {
    TsField { attrs: vec![], ident: name.to_string(), ty: vec![ty] }
}

fn decl_struct(name: &str, fields: Vec<TsField>) -> TsDecl {
    TsDecl {
        ident: name.to_string(),
        data: TsData::Struct { fields: TsFields::Named(fields), fields_debug: String::new() },
    }
}

fn variant(name: &str, fields: TsFields) -> TsVariant {
    TsVariant { ident: name.to_string(), fields, fields_debug: "Unnamed(..)".to_string() }
}

fn to_ts(p: TsPath) -> (Vec<String>, Option<String>) {
    let mut t = TranslateType::new();
    t.visit_path(&p);
    (t.out, t.error.map(|e| e.text))
}

#[test]
fn struct_becomes_an_interface() {
    let tile = decl_struct(
        "Tile",
        vec![
            field("space", plain("Space")),
            field("creature", path("Option", vec![path("Id", vec![plain("Creature")])])),
        ],
    );
    let text = derive_impl(&tile).ok().unwrap();
    assert_eq!(
        text,
        "\n/* TsData Generated */\nexport interface Tile {\n    space: Space,\n    creature?: Id<Creature>,\n}"
    );
}

#[test]
fn bare_enum_becomes_a_union() {
    let space = TsDecl {
        ident: "Space".to_string(),
        data: TsData::Enum { variants: vec![variant("Empty", TsFields::Unit), variant("Wall", TsFields::Unit)] },
    };
    assert_eq!(derive_impl(&space).ok().unwrap(), "\n/* TsData Generated */\nexport type Space = \"Empty\" | \"Wall\";");
}

#[test]
fn enum_with_fields_becomes_an_interface() {
    let kind = TsDecl {
        ident: "IntentKind".to_string(),
        data: TsData::Enum {
            variants: vec![
                variant(
                    "Attack",
                    TsFields::Named(vec![field("damage", plain("i32")), field("range", plain("Range"))]),
                ),
                variant("Stunned", TsFields::Unit),
            ],
        },
    };
    assert_eq!(
        derive_impl(&kind).ok().unwrap(),
        "\n/* TsData Generated */\nexport interface IntentKind {\n    Attack?: {\n        damage: number,\n        range: Range,\n    },\n    Stunned?: {}\n}\n"
    );
}

#[test]
fn containers_are_written_out() {
    let map = path("HashMap", vec![path("Id", vec![plain("creature::Part")]), plain("Part")]);
    assert_eq!(to_ts(map), (vec!["Map<Id<Part>, Part>".to_string()], None));
    let tags = path("Vec", vec![path("Vec", vec![plain("PartTag")])]);
    assert_eq!(to_ts(tags), (vec!["PartTag[][]".to_string()], None));
    assert_eq!(to_ts(path("Box", vec![plain("Hex")])), (vec!["Hex".to_string()], None));
    let opt = path("Vec", vec![path("Option", vec![plain("i32")])]);
    assert_eq!(to_ts(opt), (vec!["number | undefined[]".to_string()], None));
    assert_eq!(to_ts(plain("hex::Direction")), (vec!["Direction".to_string()], None));
    assert_eq!(to_ts(plain("bool")), (vec!["boolean".to_string()], None));
    assert_eq!(to_ts(plain("ModId")), (vec!["number".to_string()], None));
    assert_eq!(to_ts(plain("String")), (vec!["string".to_string()], None));
    assert!(TranslateType::is_passthrough("TargetSpec"));
    assert!(!TranslateType::is_passthrough("Tile"));
}

#[test]
fn skipped_fields_are_left_out() {
    let skip = TsAttr { path: vec!["serde".to_string()], tokens: "(skip)".to_string() };
    assert!(is_skip(&skip));
    assert!(!is_skip(&TsAttr { path: vec!["serde".to_string()], tokens: "(default)".to_string() }));
    let mut hidden = field("cache", plain("f32"));
    hidden.attrs.push(skip);
    let d = decl_struct("Card", vec![field("name", plain("String")), hidden]);
    assert_eq!(derive_impl(&d).ok().unwrap(), "\n/* TsData Generated */\nexport interface Card {\n    name: string,\n}");
}

#[test]
fn declarations_without_counterpart_are_refused() {
    let d = decl_struct("Stat", vec![field("factor", plain("f32"))]);
    assert_eq!(derive_impl(&d).err().unwrap().text, "unhandled type f32");
    let u = TsDecl { ident: "U".to_string(), data: TsData::Union };
    assert_eq!(derive_impl(&u).err().unwrap().text, "unhandled ast.data branch");
    let e = TsDecl {
        ident: "Shape".to_string(),
        data: TsData::Enum { variants: vec![variant("Circle", TsFields::Unnamed), variant("Dot", TsFields::Unit)] },
    };
    assert_eq!(derive_impl(&e).err().unwrap().text, "unhandled enum variant: Unnamed(..)");
    let t = TsDecl {
        ident: "Pair".to_string(),
        data: TsData::Struct { fields: TsFields::Unnamed, fields_debug: "Unnamed(..)".to_string() },
    };
    assert_eq!(derive_impl(&t).err().unwrap().text, "unhandled Fields branch: Unnamed(..)");
    let empty_vec = decl_struct("V", vec![field("v", plain("Vec"))]);
    assert_eq!(derive_impl(&empty_vec).err().unwrap().text, "invalid Vec args []");
    let two = TsField { attrs: vec![], ident: "pair".to_string(), ty: vec![plain("i32"), plain("String")] };
    assert_eq!(
        derive_impl(&decl_struct("P", vec![two])).err().unwrap().text,
        "Invalid translated type [\"number\", \"string\"]"
    );
}

#[test]
fn wrong_argument_lists_are_quoted_in_the_error() {
    let two = decl_struct("V", vec![field("v", path("Vec", vec![plain("i32"), plain("String")]))]);
    assert_eq!(derive_impl(&two).err().unwrap().text, "invalid Vec args [\"number\", \"string\"]");
}
