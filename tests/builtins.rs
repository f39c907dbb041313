use qlp::builtins::{Exec, Include, JsonToTable, MinifyJson, PrettierJson, ShiftJis};

#[test]
fn builtin_names() {
    assert_eq!("exec", Exec.get_name());
    assert_eq!("include", Include.get_name());
    assert_eq!("prettier_json", PrettierJson.get_name());
    assert_eq!("minify_json", MinifyJson.get_name());
    assert_eq!("json_to_table", JsonToTable.get_name());
    assert_eq!("s", ShiftJis.get_name());
}

#[test]
fn prettier_json_indents() {
    assert_eq!("{\n  \"a\": [\n    1,\n    2\n  ]\n}", PrettierJson.apply("{\"a\":[1,2]}").unwrap());
    assert!(PrettierJson.apply("{\"a\":").is_err());
}

#[test]
fn minify_json_strips_whitespace() {
    assert_eq!("{\"a\":[1,2]}", MinifyJson.apply("{ \"a\" : [ 1, 2 ] }").unwrap());
    assert!(MinifyJson.apply("nope").is_err());
}

#[test]
fn shift_jis_encodes() {
    assert_eq!(vec![0x82, 0xA0], ShiftJis.apply("あ"));
    assert_eq!(b"abc".to_vec(), ShiftJis.apply("abc"));
}
