//! Tests for the host orchestrator, the native registry and the adapter
//! initialization handshake.

use dynamite::AdapterInitState;
use dynamite::DataType;
use dynamite::Dynamite;
use dynamite::FunctionDefinition;
use dynamite::LanguageAdapter;
use dynamite::OpaqueHandle;
use dynamite::Primitive;
use dynamite::ScriptApiError;
use dynamite::ScriptType;
use dynamite::Stockpile;
use dynamite::StockpileItem;

type NativeFn = fn(Vec<OpaqueHandle>) -> OpaqueHandle;

// In the real system a handle carries a pointer's address. The tests use
// the same type-erased convention with small integers standing for the
// addresses of the values 2, 3, and so on.
fn add(args: Vec<OpaqueHandle>) -> OpaqueHandle {
    OpaqueHandle::new(args[0].addr + args[1].addr)
}

fn double(args: Vec<OpaqueHandle>) -> OpaqueHandle {
    OpaqueHandle::new(2 * args[0].addr)
}

fn fn_entry(args: Vec<&str>) -> ScriptType {
    ScriptType::Function(FunctionDefinition {
        arguments: args
            .into_iter()
            .map(|n| (n.to_string(), "std::i32".to_string()))
            .collect(),
        return_type: Some("std::i32".to_string()),
    })
}

fn item(path: &str, ty: ScriptType, f: Option<NativeFn>) -> StockpileItem<NativeFn> {
    StockpileItem {
        path: path.to_string(),
        script_type: ty,
        function_pointer: f,
    }
}

fn math_adapter() -> Stockpile<NativeFn> {
    Stockpile::new(vec![
        item("native::add", fn_entry(vec!["a", "b"]), Some(add)),
        item(
            "native::Marker",
            ScriptType::Struct(dynamite::StructDefinition {
                layout: dynamite::DataLayout::from_size_align(4, 4).unwrap(),
                component_type: DataType::Primitive(Primitive::I32),
                method_definitions: vec![],
            }),
            None,
        ),
    ])
    .unwrap()
}

fn scale_adapter() -> Stockpile<NativeFn> {
    Stockpile::new(vec![item(
        "scale::double",
        fn_entry(vec!["x"]),
        Some(double),
    )])
    .unwrap()
}

#[test]
fn registering_disjoint_adapters_merges_all_catalogs() {
    let mut host: Dynamite<Stockpile<NativeFn>> = Dynamite::new();
    let a = math_adapter();
    let b = scale_adapter();
    let na = a.get_api().len();
    let nb = b.get_api().len();
    host.add_language_adapter(a).unwrap();
    host.add_language_adapter(b).unwrap();
    let full = host.get_full_api();
    assert_eq!(full.len(), na + nb);
    assert!(full.contains_path("native::add"));
    assert!(full.contains_path("native::Marker"));
    assert!(full.contains_path("scale::double"));
    // Every original path resolves to its originating adapter: a call
    // through the merged view reaches the right native function.
    let r = host
        .call_function("scale::double", &vec![OpaqueHandle::new(21)])
        .unwrap();
    assert_eq!(r.addr, 42);
}

#[test]
fn conflicting_registration_is_rejected_whole() {
    let mut host: Dynamite<Stockpile<NativeFn>> = Dynamite::new();
    host.add_language_adapter(math_adapter()).unwrap();
    let before = host.get_full_api();
    // This adapter shares exactly one path with the registered one.
    let clash = Stockpile::new(vec![
        item("other::fresh", fn_entry(vec![]), None),
        item("native::add", fn_entry(vec!["a", "b"]), Some(add)),
    ])
    .unwrap();
    let r = host.add_language_adapter(clash);
    assert_eq!(
        r,
        Err(ScriptApiError::TypeRedefined("native::add".to_string()))
    );
    // No partial insertion: the merged catalog is unchanged, so even the
    // non-conflicting path of the rejected adapter is absent.
    let after = host.get_full_api();
    assert_eq!(after, before);
    assert!(!after.contains_path("other::fresh"));
}

#[test]
fn dispatching_add_returns_the_sum() {
    let mut host: Dynamite<Stockpile<NativeFn>> = Dynamite::new();
    host.add_language_adapter(math_adapter()).unwrap();
    let two = OpaqueHandle::new(2);
    let three = OpaqueHandle::new(3);
    let r = host.call_function("native::add", &vec![two, three]).unwrap();
    assert_eq!(r.addr, 5);
}

#[test]
fn dispatching_missing_path_returns_not_found() {
    let mut host: Dynamite<Stockpile<NativeFn>> = Dynamite::new();
    host.add_language_adapter(math_adapter()).unwrap();
    let r = host.call_function("missing::path", &vec![]);
    assert_eq!(
        r,
        Err(ScriptApiError::NotFound("missing::path".to_string()))
    );
    // The process goes on: the host still serves calls afterwards.
    let r = host
        .call_function("native::add", &vec![OpaqueHandle::new(1), OpaqueHandle::new(1)])
        .unwrap();
    assert_eq!(r.addr, 2);
}

#[test]
fn dispatching_with_wrong_arity_is_rejected() {
    let mut host: Dynamite<Stockpile<NativeFn>> = Dynamite::new();
    host.add_language_adapter(math_adapter()).unwrap();
    let r = host.call_function("native::add", &vec![OpaqueHandle::new(2)]);
    assert_eq!(
        r,
        Err(ScriptApiError::ArityMismatch("native::add".to_string()))
    );
}

#[test]
fn dispatching_to_a_struct_path_is_rejected() {
    let mut host: Dynamite<Stockpile<NativeFn>> = Dynamite::new();
    host.add_language_adapter(math_adapter()).unwrap();
    let r = host.call_function("native::Marker", &vec![]);
    assert_eq!(
        r,
        Err(ScriptApiError::TypeMismatch("native::Marker".to_string()))
    );
}

#[test]
fn stockpile_rejects_duplicate_paths() {
    let r = Stockpile::new(vec![
        item("native::add", fn_entry(vec!["a", "b"]), Some(add)),
        item("native::add", fn_entry(vec!["a", "b"]), Some(add)),
    ]);
    match r {
        Err(ScriptApiError::TypeRedefined(p)) => assert_eq!(p, "native::add"),
        _ => panic!("duplicate path accepted"),
    }
}

#[test]
fn stockpile_call_without_function_pointer_is_a_type_mismatch() {
    let s = math_adapter();
    let r = s.call_function("native::Marker", &vec![]);
    assert_eq!(
        r,
        Err(ScriptApiError::TypeMismatch("native::Marker".to_string()))
    );
}

#[test]
fn init_adapter_twice_is_idempotent() {
    // The stored bundle stands for the host's callback table; the test
    // uses a plain value in its place.
    let mut state: AdapterInitState<u64> = AdapterInitState::new();
    state.init(7);
    assert_eq!(state.host(), &Some(7));
    // A second initialization, even with another bundle, changes nothing.
    state.init(99);
    assert_eq!(state.host(), &Some(7));
}

#[test]
fn fresh_adapter_state_holds_no_bundle() {
    let state: AdapterInitState<u64> = AdapterInitState::new();
    assert_eq!(state.host(), &None);
}

#[test]
fn empty_host_serves_an_empty_catalog() {
    let host: Dynamite<Stockpile<NativeFn>> = Dynamite::new();
    assert_eq!(host.get_full_api().len(), 0);
    let r = host.call_function("anything", &vec![]);
    assert_eq!(r, Err(ScriptApiError::NotFound("anything".to_string())));
}
