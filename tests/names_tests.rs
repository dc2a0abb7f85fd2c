use liberror::names::{
    parse_generics, process_base_type, process_type_name, standardized_type_name, trimmed,
};

fn canon(s: &str) -> String {
    standardized_type_name(s)
}

#[test]
fn test_std_primitive_types() {
    assert_eq!(canon("i32"), "i32");
    assert_eq!(canon("bool"), "bool");
    assert_eq!(canon("f64"), "f64");
    assert_eq!(canon("char"), "char");
    assert_eq!(canon("()"), "()");
}

#[test]
fn test_std_string_types() {
    assert_eq!(canon("&str"), "&str");
    assert_eq!(canon("alloc::string::String"), "String");
}

#[test]
fn test_std_collection_types() {
    assert_eq!(canon("alloc::vec::Vec<i32>"), "Vec<i32>");
    assert_eq!(
        canon("std::collections::hash::map::HashMap<alloc::string::String, i32>"),
        "HashMap<String, i32>"
    );
    assert_eq!(canon("[i32; 5]"), "[i32; 5]");
    assert_eq!(canon("&[i32]"), "&[i32]");
}

#[test]
fn test_std_option_result_types() {
    assert_eq!(canon("core::option::Option<i32>"), "Option<i32>");
    assert_eq!(
        canon("core::result::Result<i32, alloc::string::String>"),
        "Result<i32, String>"
    );
}

#[test]
fn test_std_smart_pointers() {
    assert_eq!(canon("alloc::boxed::Box<i32>"), "Box<i32>");
    assert_eq!(canon("alloc::rc::Rc<alloc::string::String>"), "Rc<String>");
    assert_eq!(canon("alloc::sync::Arc<alloc::vec::Vec<i32>>"), "Arc<Vec<i32>>");
}

#[test]
fn test_custom_types() {
    let custom = canon("names_tests::my_module::MyStruct<i32>");
    assert!(custom.contains("my_module::MyStruct<i32>"));

    let nested = canon("names_tests::my_module::nested::NestedType<alloc::string::String>");
    assert!(nested.contains("my_module::nested::NestedType<String>"));
}

#[test]
fn test_complex_std_types() {
    assert_eq!(
        canon("std::collections::hash::map::HashMap<alloc::string::String, alloc::vec::Vec<core::option::Option<i32>>>"),
        "HashMap<String, Vec<Option<i32>>>"
    );
    assert_eq!(
        canon("core::result::Result<alloc::vec::Vec<alloc::string::String>, alloc::boxed::Box<dyn core::error::Error>>"),
        "Result<Vec<String>, Box<dyn Error>>"
    );
}

#[test]
fn test_complex_nested_std_types() {
    assert_eq!(
        canon("alloc::collections::btree::map::BTreeMap<alloc::string::String, alloc::vec::Vec<std::collections::hash::map::HashMap<alloc::string::String, alloc::string::String>>>"),
        "BTreeMap<String, Vec<HashMap<String, String>>>"
    );
    assert_eq!(
        canon("core::option::Option<core::result::Result<alloc::vec::Vec<std::collections::hash::map::HashMap<i32, alloc::string::String>>, alloc::sync::Arc<std::sync::poison::mutex::Mutex<i32>>>>"),
        "Option<Result<Vec<HashMap<i32, String>>, Arc<Mutex<i32>>>>"
    );
    assert_eq!(
        canon("std::collections::hash::map::HashMap<alloc::string::String, alloc::vec::Vec<i32>>"),
        "HashMap<String, Vec<i32>>"
    );
}

#[test]
fn test_trait_objects() {
    assert_eq!(canon("&dyn core::fmt::Debug"), "&dyn Debug");
    assert_eq!(canon("alloc::boxed::Box<dyn core::any::Any>"), "Box<dyn Any>");
    assert_eq!(canon("alloc::boxed::Box<dyn core::error::Error>"), "Box<dyn Error>");
}

#[test]
fn test_array_types() {
    assert_eq!(canon("[i32; 5]"), "[i32; 5]");
    assert_eq!(canon("[bool; 10]"), "[bool; 10]");
    assert_eq!(canon("[alloc::string::String; 3]"), "[String; 3]");
}

#[test]
fn test_type_format_of_values() {
    assert_eq!(canon("i32"), "i32");
    assert_eq!(canon("alloc::string::String"), "String");
    assert_eq!(
        canon("std::collections::hash::map::HashMap<alloc::string::String, alloc::vec::Vec<i32>>"),
        "HashMap<String, Vec<i32>>"
    );
}

#[test]
fn already_minimal_descriptor_is_unchanged() {
    let d = "HashMap<String, Vec<Option<i32>>>";
    assert_eq!(canon(d), d);
}

#[test]
fn boxed_std_error_trait_object() {
    assert_eq!(canon("alloc::boxed::Box<dyn std::error::Error>"), "Box<dyn Error>");
}

#[test]
fn canonicalizing_twice_changes_nothing() {
    let d = "core::result::Result<alloc::vec::Vec<alloc::string::String>, &[i32; 4]>";
    let once = canon(d);
    assert_eq!(once, "Result<Vec<String>, &[i32; 4]>");
    assert_eq!(canon(&once), once);
}

#[test]
fn pointer_descriptors_keep_their_marker() {
    assert_eq!(process_type_name("*const i32"), "*const i32");
    assert_eq!(process_type_name("*mut alloc::string::String"), "*mut String");
    assert_eq!(process_type_name("*mut u8"), "*mut u8");
    assert_eq!(process_type_name("*const *mut core::option::Option<u8>"), "*const *mut Option<u8>");
    let once = process_type_name("*const &alloc::vec::Vec<u8>");
    assert_eq!(once, "*const &Vec<u8>");
    assert_eq!(process_type_name(&once), once);
}

#[test]
fn malformed_array_is_returned_unchanged() {
    assert_eq!(process_type_name("[i32; 5"), "[i32; 5");
    assert_eq!(process_type_name("[]i32;"), "[]i32;");
}

#[test]
fn unicode_whitespace_is_trimmed() {
    assert_eq!(trimmed("\u{A0}\u{3000} i32\u{2009}\n"), "i32");
    assert_eq!(parse_generics("\u{A0}alloc::string::String,\u{2003}i32"), "String, i32");
    assert_eq!(process_type_name("[\u{A0}bool; 2]"), "[bool; 2]");
}

#[test]
fn empty_descriptor_stays_empty() {
    assert_eq!(process_type_name(""), "");
}

#[test]
fn generic_arguments_are_trimmed_and_joined() {
    assert_eq!(parse_generics(" alloc::string::String ,i32,  "), "String, i32");
    assert_eq!(parse_generics("a<b,c>,d"), "a<b, c>, d");
    assert_eq!(parse_generics(""), "");
}

#[test]
fn base_types_use_the_alias_table() {
    assert_eq!(process_base_type("std::error::Error"), "Error");
    assert_eq!(process_base_type("core::fmt::Display"), "Display");
    assert_eq!(process_base_type("core::fmt::Debug"), "Debug");
    assert_eq!(process_base_type("core::any::Any"), "Any");
    assert_eq!(process_base_type("mycrate::Thing"), "mycrate::Thing");
    assert_eq!(process_base_type("Box<dyn core::fmt::Debug"), "dyn Debug");
}
