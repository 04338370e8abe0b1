use ireland_dino_finder::materials::split_csv_record;

#[test]
fn csv_splitter_handles_quoted_commas() {
    let fields = split_csv_record("a,\"b, c\",\"d\"\"e\"");
    assert_eq!(fields, vec!["a", "b, c", "d\"e"]);
}

#[test]
fn csv_splitter_keeps_empty_fields() {
    assert_eq!(split_csv_record(""), vec![""]);
    assert_eq!(split_csv_record(","), vec!["", ""]);
    assert_eq!(split_csv_record("a,,b,"), vec!["a", "", "b", ""]);
}

#[test]
fn csv_splitter_keeps_blanks_inside_fields() {
    assert_eq!(split_csv_record(" water , 1.0"), vec![" water ", " 1.0"]);
}

#[test]
fn csv_splitter_reads_quotes_outside_and_unterminated() {
    // A quote in the middle of a field toggles quoting without being kept.
    assert_eq!(split_csv_record("ab\"c,d\"e,f"), vec!["abc,de", "f"]);
    // An unterminated quote keeps the rest of the line in the field.
    assert_eq!(split_csv_record("x,\"y,z"), vec!["x", "y,z"]);
    // A doubled quote outside quotes opens and closes quoting at once.
    assert_eq!(split_csv_record("a\"\"b"), vec!["ab"]);
}

#[test]
fn csv_quoted_fields_round_trip() {
    let fields = vec!["plain", "with, comma", "with \"quote\"", "", "\""];
    let mut line = String::new();
    for (i, f) in fields.iter().enumerate() {
        if i > 0 {
            line.push(',');
        }
        line.push('"');
        line.push_str(&f.replace('"', "\"\""));
        line.push('"');
    }
    assert_eq!(split_csv_record(&line), fields);
}
