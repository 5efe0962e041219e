use search::debug::type_name_str;

#[test]
fn shortens_paths() {
    assert_eq!(type_name_str("alloc::vec::Vec<core::option::Option<u8>>"), "Vec<Option<u8>>");
    assert_eq!(type_name_str("(u8, alloc::string::String)"), "(u8, String)");
    assert_eq!(type_name_str("[core::option::Option<u8>; 3]"), "[Option<u8>; 3]");
    assert_eq!(type_name_str("&[u8]"), "&[u8]");
    assert_eq!(type_name_str("u32"), "u32");
    assert_eq!(type_name_str(""), "");
}

#[test]
fn keeps_closure_suffix() {
    assert_eq!(type_name_str("search::runner::main::{{closure}}"), "main::{{closure}}");
    assert_eq!(
        type_name_str("alloc::vec::Vec<alloc::string::String>::{{closure}}"),
        "Vec<String>::{{closure}}"
    );
}
