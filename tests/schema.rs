use serenity_ipc::clipboard::{
    REQUEST_GET_CLIPBOARD_DATA, REQUEST_SET_CLIPBOARD_DATA, RESPONSE_GET_CLIPBOARD_DATA,
};
use serenity_ipc::magic::compute_magic;
use serenity_ipc::schema::MethodIds;
use serenity_ipc::schema_text::{parse_schema, tokenize};

#[test]
fn pipe_marker_schema_allocates_ids() {
    let e = parse_schema("endpoint X { foo() | , bar() => (u32 v) }").unwrap();
    assert_eq!(e.name, "X");
    assert_eq!(e.methods.len(), 2);
    assert_eq!(e.methods[0].name, "foo");
    assert!(!e.methods[0].has_response);
    assert_eq!(e.methods[1].name, "bar");
    assert!(e.methods[1].has_response);
    assert_eq!(e.methods[1].returns.len(), 1);
    assert_eq!(e.methods[1].returns[0].field_type, "u32");
    assert_eq!(e.methods[1].returns[0].name, "v");
    let ids = e.method_ids();
    assert!(ids[0] == MethodIds { request: 1, response: None });
    assert!(ids[1] == MethodIds { request: 2, response: Some(3) });
}

#[test]
fn clipboard_schema_parses() {
    let text = "endpoint ClipboardServer\n{\n    get_clipboard_data() => (Core::AnonymousBuffer data, String mime_type, HashMap<String,String> metadata)\n    set_clipboard_data(Core::AnonymousBuffer data, String mime_type, HashMap<String, String> metadata) =|\n}\n";
    let e = parse_schema(text).unwrap();
    assert_eq!(e.name, "ClipboardServer");
    assert_eq!(compute_magic(&e.name), 0x4f3a_28db);
    let get = &e.methods[0];
    assert!(get.arguments.is_empty());
    let types: Vec<&str> = get.returns.iter().map(|f| f.field_type.as_str()).collect();
    assert_eq!(types, vec!["Core::AnonymousBuffer", "String", "HashMap<String,String>"]);
    let names: Vec<&str> = get.returns.iter().map(|f| f.name.as_str()).collect();
    assert_eq!(names, vec!["data", "mime_type", "metadata"]);
    let set = &e.methods[1];
    assert!(!set.has_response);
    assert_eq!(set.arguments.len(), 3);
    assert_eq!(set.arguments[2].field_type, "HashMap<String,String>");
    let ids = e.method_ids();
    assert!(ids[0] == MethodIds { request: REQUEST_GET_CLIPBOARD_DATA, response: Some(RESPONSE_GET_CLIPBOARD_DATA) });
    assert!(ids[1] == MethodIds { request: REQUEST_SET_CLIPBOARD_DATA, response: None });
}

#[test]
fn method_without_marker_or_results_has_a_response() {
    let e = parse_schema("endpoint E { ping() pong(u32 a, [UTF8] String b) }").unwrap();
    assert!(e.methods[0].has_response && e.methods[1].has_response);
    assert_eq!(e.methods[1].arguments[1].field_type, "String");
    let ids = e.method_ids();
    assert!(ids[1] == MethodIds { request: 3, response: Some(4) });
}

#[test]
fn nested_generic_types_keep_their_text() {
    let e = parse_schema("endpoint E { f(Vector<HashMap<u32, Vector<u8>>> x) }").unwrap();
    assert_eq!(e.methods[0].arguments[0].field_type, "Vector<HashMap<u32,Vector<u8>>>");
}

#[test]
fn malformed_schemas_are_refused() {
    assert!(parse_schema("").is_none());
    assert!(parse_schema("endpoint").is_none());
    assert!(parse_schema("endpoint X {").is_none());
    assert!(parse_schema("endpoint X { f( }").is_none());
    assert!(parse_schema("endpoint X { f(u32) }").is_none());
    assert!(parse_schema("endpoint X { f() => (u32 a) => (u32 b) }").is_none());
    assert!(parse_schema("endpoint X { f(Vec<u32 x) }").is_none());
    assert!(parse_schema("endpoint X { } extra").is_none());
    assert!(parse_schema("endpoint X { f(u32 a;) }").is_none());
    assert!(parse_schema("interface X { }").is_none());
}

#[test]
fn tokens_split_identifiers_and_symbols() {
    let t = tokenize("a_1::b <c>").unwrap();
    let texts: Vec<&str> = t.iter().map(|x| x.text.as_str()).collect();
    assert_eq!(texts, vec!["a_1", ":", ":", "b", "<", "c", ">"]);
    assert!(t[0].is_ident && !t[1].is_ident);
    assert!(tokenize("a;b").is_none());
}
