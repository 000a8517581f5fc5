use hearts_of_modding::csv::format_csv;

#[test]
fn csv_columns_are_padded() {
    let input = "1;2;3\n10;200;3000\n";
    assert_eq!(format_csv(input, ';'), "1 ;2  ;3   \n10;200;3000\n");
}

#[test]
fn csv_comments_and_blank_lines() {
    let input = "  # header comment  \n\na ; bb\nccc;d\n";
    assert_eq!(format_csv(input, ';'), "# header comment\n\na  ;bb\nccc;d \n");
}

#[test]
fn csv_without_final_newline() {
    assert_eq!(format_csv("a;b\nccc;d", ';'), "a  ;b\nccc;d");
}

#[test]
fn csv_empty_and_blank() {
    assert_eq!(format_csv("", ';'), "");
    assert_eq!(format_csv("   \n", ';'), "");
}

#[test]
fn csv_widths_count_bytes_padding_counts_characters() {
    // "é" is two bytes wide for the column width, one character when padded.
    assert_eq!(format_csv("é;x\nab;y\n", ';'), "é ;x\nab;y\n");
}

#[test]
fn formatting_keeps_every_line_in_place() {
    let content = "# header\n1;land;x\n\n  22 ;sea;  yy\n# tail\n3;;\n";
    let r = format_csv(content, ';');
    let a: Vec<&str> = content.lines().collect();
    let b: Vec<&str> = r.lines().collect();
    assert_eq!(a.len(), b.len());
    assert_eq!(b[0], "# header");
    assert_eq!(b[2], "");
    assert_eq!(b[4], "# tail");
    assert_eq!(b[1], "1 ;land;x ");
    assert_eq!(b[3], "22;sea ;yy");
    assert_eq!(b[5], "3 ;    ;  ");
    assert!(r.ends_with('\n'));
}

#[test]
fn formatting_twice_changes_nothing() {
    for content in ["1;land;x\n  22 ;sea;  yy\n", "# c\n;a;\nlong_value;b\n", "a;b\n\n# x\nccc;d;e"] {
        let once = format_csv(content, ';');
        assert_eq!(format_csv(&once, ';'), once);
    }
}
