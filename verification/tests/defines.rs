use hearts_of_modding::defines::{parse_define_assignment, parse_defines_lua};

fn parsed(line: &str) -> Option<(String, f64)> {
    parse_define_assignment(line).map(|(k, v)| (k, v.parse::<f64>().unwrap()))
}

#[test]
fn test_parse_define_assignment() {
    assert_eq!(parsed("SOME_VALUE = 123.45"), Some(("SOME_VALUE".to_string(), 123.45)));
    assert_eq!(parsed("SOME_VALUE = 123.45,"), Some(("SOME_VALUE".to_string(), 123.45)));
    assert_eq!(parsed("SOME_VALUE = 123.45, -- comment"), Some(("SOME_VALUE".to_string(), 123.45)));
    assert_eq!(parsed("SOME_TABLE = {"), None);
}

#[test]
fn define_assignment_rejects_non_numbers() {
    assert_eq!(parse_define_assignment("NAME = \"text\""), None);
    assert_eq!(parse_define_assignment("no assignment here"), None);
    assert_eq!(parse_define_assignment("X = 1e5,,"), Some(("X".to_string(), "1e5".to_string())));
    assert_eq!(parse_define_assignment("Y = -inf"), Some(("Y".to_string(), "-inf".to_string())));
}

#[test]
fn defines_file_later_values_replace_earlier() {
    let content = "NDefines = {\n-- comment = 5\n\tA = 1,\n\tB = 2.5, -- note\n\tA = 3\n\tT = { 1, 2 }\n}\n";
    let defines = parse_defines_lua(content);
    assert_eq!(
        defines,
        vec![("A".to_string(), "3".to_string()), ("B".to_string(), "2.5".to_string())]
    );
}
