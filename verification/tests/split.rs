use protoc_gen_prost::split_escaped;

fn strings(items: &[&str]) -> Vec<String> {
    items.iter().map(|s| s.to_string()).collect()
}

#[test]
fn escaped_separator_is_text() {
    assert_eq!(split_escaped("a\\,b,c", ','), strings(&["a,b", "c"]));
}

#[test]
fn empty_fields_are_kept() {
    assert_eq!(split_escaped(",,", ','), strings(&["", "", ""]));
}

#[test]
fn empty_input_is_one_empty_field() {
    assert_eq!(split_escaped("", ','), strings(&[""]));
}

#[test]
fn plain_fields() {
    assert_eq!(split_escaped("a=1,b,c=2=3", ','), strings(&["a=1", "b", "c=2=3"]));
}

#[test]
fn marker_elsewhere_stays() {
    assert_eq!(split_escaped("a\\nb,c\\d", ','), strings(&["a\\nb", "c\\d"]));
}

#[test]
fn only_one_marker_is_dropped() {
    // two markers and a separator: the second marker escapes, the first stays
    assert_eq!(split_escaped("a\\\\,b", ','), strings(&["a\\,b"]));
}

#[test]
fn several_escapes_in_one_field() {
    assert_eq!(split_escaped("x\\,y\\,z,w", ','), strings(&["x,y,z", "w"]));
}

#[test]
fn marker_at_the_end_stays() {
    assert_eq!(split_escaped("a\\", ','), strings(&["a\\"]));
    assert_eq!(split_escaped("abc\\", ','), strings(&["abc\\"]));
    assert_eq!(split_escaped("a,b\\", ','), strings(&["a", "b\\"]));
    assert_eq!(split_escaped("a\\,b\\", ','), strings(&["a,b\\"]));
    assert_eq!(split_escaped("\\", ','), strings(&["\\"]));
}

#[test]
fn split_undoes_join_with_last_field_ending_in_marker() {
    let fields = strings(&["a,b", "c\\"]);
    let joined = fields.iter().map(|f| f.replace(',', "\\,")).collect::<Vec<_>>().join(",");
    assert_eq!(joined, "a\\,b,c\\");
    assert_eq!(split_escaped(&joined, ','), fields);
}

#[test]
fn separator_that_is_the_marker_splits_plainly() {
    assert_eq!(split_escaped("a\\b\\\\c", '\\'), strings(&["a", "b", "", "c"]));
    assert_eq!(split_escaped("a\\", '\\'), strings(&["a", ""]));
}

#[test]
fn other_separators() {
    assert_eq!(split_escaped("a;b\\;c", ';'), strings(&["a", "b;c"]));
    assert_eq!(split_escaped("é,ü\\,ß", ','), strings(&["é", "ü,ß"]));
}

#[test]
fn split_undoes_escaped_join() {
    let fields = strings(&["a,b", "", "c\\d", ",", "plain"]);
    let joined = fields
        .iter()
        .map(|f| f.replace(',', "\\,"))
        .collect::<Vec<_>>()
        .join(",");
    assert_eq!(joined, "a\\,b,,c\\d,\\,,plain");
    assert_eq!(split_escaped(&joined, ','), fields);
}

#[test]
fn split_does_not_undo_join_of_field_ending_in_marker() {
    // the one kind of field that escaping cannot carry
    let joined = "a\\,b";
    assert_ne!(split_escaped(joined, ','), strings(&["a\\", "b"]));
}
