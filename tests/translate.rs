use bf_toolkit::translate;

#[test]
fn test_translate_camel_case() {
    let test = "thisIsACamel";
    let result = translate(test);
    assert_eq!(result, "this_is_a_camel");
}

#[test]
fn test_translate_title_case() {
    let test = "ThisIsATitle";
    let result = translate(test);
    assert_eq!(result, "this_is_a_title");
}

#[test]
fn translate_edge_cases() {
    assert_eq!(translate(""), "");
    assert_eq!(translate("A"), "a");
    assert_eq!(translate("already_snake"), "already_snake");
    assert_eq!(translate("éX9"), "é_x9");
}
