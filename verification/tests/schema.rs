//! Tests for the schema model and the catalog wire encoding.

use dynamite::codec::decode_script_api;
use dynamite::codec::encode_script_api;
use dynamite::DataLayout;
use dynamite::DataType;
use dynamite::FunctionDefinition;
use dynamite::HasDataLayout;
use dynamite::Primitive;
use dynamite::ScriptApi;
use dynamite::ScriptApiError;
use dynamite::ScriptType;
use dynamite::StructDefinition;

fn fn_def(args: Vec<(&str, &str)>, ret: Option<&str>) -> FunctionDefinition {
    FunctionDefinition {
        arguments: args
            .into_iter()
            .map(|(n, t)| (n.to_string(), t.to_string()))
            .collect(),
        return_type: ret.map(|t| t.to_string()),
    }
}

fn leaf_struct(size: usize, align: usize, prim: Primitive) -> StructDefinition {
    StructDefinition {
        layout: DataLayout::from_size_align(size, align).unwrap(),
        component_type: DataType::Primitive(prim),
        method_definitions: vec![],
    }
}

#[test]
fn layout_from_size_align_accepts_multiples_of_power_of_two() {
    let l = DataLayout::from_size_align(8, 4).unwrap();
    assert_eq!(l.size(), 8);
    assert_eq!(l.align(), 4);
}

#[test]
fn layout_from_size_align_rejects_size_not_multiple_of_align() {
    assert_eq!(
        DataLayout::from_size_align(5, 4),
        Err(ScriptApiError::InvalidLayout)
    );
}

#[test]
fn layout_from_size_align_rejects_non_power_of_two_align() {
    assert_eq!(
        DataLayout::from_size_align(4, 3),
        Err(ScriptApiError::InvalidLayout)
    );
    assert_eq!(
        DataLayout::from_size_align(0, 0),
        Err(ScriptApiError::InvalidLayout)
    );
}

#[test]
fn layout_zero_size_is_fine_for_any_power_of_two() {
    let l = DataLayout::from_size_align(0, 16).unwrap();
    assert_eq!(l.size(), 0);
    assert_eq!(l.align(), 16);
}

#[test]
fn primitive_layouts_are_fixed() {
    assert_eq!(Primitive::U32.get_data_layout().size(), 4);
    assert_eq!(Primitive::U32.get_data_layout().align(), 4);
    assert_eq!(Primitive::Bool.get_data_layout().size(), 1);
    assert_eq!(Primitive::Char.get_data_layout().align(), 1);
    assert_eq!(Primitive::U8.get_data_layout().size(), 1);
    assert_eq!(Primitive::U128.get_data_layout().size(), 16);
    assert_eq!(Primitive::I64.get_data_layout().align(), 8);
    assert_eq!(Primitive::F32.get_data_layout().size(), 4);
    assert_eq!(Primitive::F64.get_data_layout().align(), 8);
}

#[test]
fn empty_catalog_round_trips() {
    let api = ScriptApi::new();
    let bytes = encode_script_api(&api);
    assert_eq!(bytes.len(), 8);
    let back = decode_script_api(&bytes).unwrap();
    assert_eq!(back, api);
}

#[test]
fn catalog_with_functions_round_trips() {
    let mut api = ScriptApi::new();
    api.insert(
        "native::nullary".to_string(),
        ScriptType::Function(fn_def(vec![], None)),
    )
    .unwrap();
    api.insert(
        "native::unary".to_string(),
        ScriptType::Function(fn_def(vec![("x", "std::u32")], Some("std::u32"))),
    )
    .unwrap();
    api.insert(
        "native::binary".to_string(),
        ScriptType::Function(fn_def(
            vec![("a", "std::i32"), ("b", "std::i32")],
            Some("std::i32"),
        )),
    )
    .unwrap();
    let bytes = encode_script_api(&api);
    let back = decode_script_api(&bytes).unwrap();
    assert_eq!(back, api);
}

#[test]
fn catalog_with_nested_structs_and_pointers_round_trips() {
    let inner = leaf_struct(4, 4, Primitive::U32);
    let outer = StructDefinition {
        layout: DataLayout::from_size_align(8, 4).unwrap(),
        component_type: DataType::Struct {
            fields: vec![
                ("x".to_string(), inner),
                ("y".to_string(), leaf_struct(4, 4, Primitive::F32)),
            ],
        },
        method_definitions: vec![fn_def(vec![("self", "game::Vec2")], Some("std::f32"))],
    };
    let pointer_entry = ScriptType::Struct(StructDefinition {
        layout: DataLayout::from_size_align(8, 8).unwrap(),
        component_type: DataType::Pointer(Box::new(ScriptType::Struct(leaf_struct(
            1,
            1,
            Primitive::Bool,
        )))),
        method_definitions: vec![],
    });
    let mut api = ScriptApi::new();
    api.insert("game::Vec2".to_string(), ScriptType::Struct(outer))
        .unwrap();
    api.insert("game::BoolRef".to_string(), pointer_entry).unwrap();
    let bytes = encode_script_api(&api);
    let back = decode_script_api(&bytes).unwrap();
    assert_eq!(back, api);
}

#[test]
fn catalog_with_unicode_paths_round_trips() {
    let mut api = ScriptApi::new();
    api.insert(
        "p\u{00e4}ck::\u{1F600}fn".to_string(),
        ScriptType::Function(fn_def(vec![("\u{03b1}", "std::char")], None)),
    )
    .unwrap();
    let bytes = encode_script_api(&api);
    let back = decode_script_api(&bytes).unwrap();
    assert_eq!(back, api);
}

#[test]
fn catalog_with_every_primitive_round_trips() {
    let prims = vec![
        Primitive::U8,
        Primitive::U16,
        Primitive::U32,
        Primitive::U64,
        Primitive::U128,
        Primitive::I8,
        Primitive::I16,
        Primitive::I32,
        Primitive::I64,
        Primitive::I128,
        Primitive::F32,
        Primitive::F64,
        Primitive::Char,
        Primitive::Bool,
    ];
    let mut api = ScriptApi::new();
    for (i, p) in prims.into_iter().enumerate() {
        let layout = p.get_data_layout();
        api.insert(
            format!("prim::t{}", i),
            ScriptType::Struct(StructDefinition {
                layout,
                component_type: DataType::Primitive(p),
                method_definitions: vec![],
            }),
        )
        .unwrap();
    }
    let bytes = encode_script_api(&api);
    let back = decode_script_api(&bytes).unwrap();
    assert_eq!(back, api);
}

#[test]
fn decode_rejects_truncated_input() {
    let mut api = ScriptApi::new();
    api.insert(
        "native::f".to_string(),
        ScriptType::Function(fn_def(vec![], None)),
    )
    .unwrap();
    let mut bytes = encode_script_api(&api);
    bytes.pop();
    assert_eq!(decode_script_api(&bytes), Err(ScriptApiError::ProtocolError));
}

#[test]
fn decode_rejects_trailing_garbage() {
    let api = ScriptApi::new();
    let mut bytes = encode_script_api(&api);
    bytes.push(0);
    assert_eq!(decode_script_api(&bytes), Err(ScriptApiError::ProtocolError));
}

#[test]
fn decode_rejects_empty_input() {
    let bytes: Vec<u8> = vec![];
    assert_eq!(decode_script_api(&bytes), Err(ScriptApiError::ProtocolError));
}

#[test]
fn decode_rejects_invalid_code_point() {
    // One entry whose path claims one character with a surrogate code
    // point, which no character carries.
    let mut bytes: Vec<u8> = vec![];
    bytes.extend_from_slice(&1u64.to_le_bytes());
    bytes.extend_from_slice(&1u64.to_le_bytes());
    bytes.extend_from_slice(&0xD800u32.to_le_bytes());
    assert_eq!(decode_script_api(&bytes), Err(ScriptApiError::ProtocolError));
}

#[test]
fn decode_rejects_duplicate_paths() {
    // Two entries under the same path: structurally valid bytes that no
    // well-formed catalog would produce.
    let mut api = ScriptApi::new();
    api.insert(
        "dup::path".to_string(),
        ScriptType::Function(fn_def(vec![], None)),
    )
    .unwrap();
    let one = encode_script_api(&api);
    let mut bytes: Vec<u8> = vec![];
    bytes.extend_from_slice(&2u64.to_le_bytes());
    bytes.extend_from_slice(&one[8..]);
    bytes.extend_from_slice(&one[8..]);
    assert_eq!(decode_script_api(&bytes), Err(ScriptApiError::ProtocolError));
}

#[test]
fn catalog_insert_rejects_claimed_path() {
    let mut api = ScriptApi::new();
    api.insert(
        "a::b".to_string(),
        ScriptType::Function(fn_def(vec![], None)),
    )
    .unwrap();
    let r = api.insert(
        "a::b".to_string(),
        ScriptType::Function(fn_def(vec![], None)),
    );
    assert_eq!(r, Err(ScriptApiError::TypeRedefined("a::b".to_string())));
    assert_eq!(api.len(), 1);
}

#[test]
fn catalog_lookup_finds_inserted_entry() {
    let mut api = ScriptApi::new();
    let def = ScriptType::Function(fn_def(vec![("n", "std::u8")], None));
    api.insert("m::f".to_string(), def).unwrap();
    assert!(api.contains_path("m::f"));
    assert!(!api.contains_path("m::g"));
    match api.get("m::f") {
        Some(ScriptType::Function(fd)) => {
            assert_eq!(fd.arguments.len(), 1);
            assert_eq!(fd.arguments[0].0, "n");
        }
        _ => panic!("missing entry"),
    }
}
