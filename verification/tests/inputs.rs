use semaphore_contract::field::Field;
use semaphore_contract::inputs::{parse_public_inputs, split_at_quotes};

fn fields(values: [u64; 4]) -> Option<Vec<Field>> {
    Some(values.iter().map(|value| Field::from_u64(*value)).collect())
}

#[test]
fn quotes_cut_a_text_into_pieces() {
    assert_eq!(split_at_quotes(""), vec![""]);
    assert_eq!(split_at_quotes("abc"), vec!["abc"]);
    assert_eq!(split_at_quotes("\""), vec!["", ""]);
    assert_eq!(split_at_quotes("a\"b"), vec!["a", "b"]);
    assert_eq!(split_at_quotes("\"\"\""), vec!["", "", "", ""]);
    assert_eq!(split_at_quotes("[\"1\",\"2\"]"), vec!["[", "1", ",", "2", "]"]);
    assert_eq!(split_at_quotes("é\"ü\"漢"), vec!["é", "ü", "漢"]);
}

#[test]
fn inputs_stand_between_quotes() {
    assert_eq!(parse_public_inputs("[\"1\",\"2\",\"3\",\"4\"]"), fields([1, 2, 3, 4]));
    assert_eq!(
        parse_public_inputs("[\n \"10\",\n \"20\",\n \"30\",\n \"40\"\n]\n"),
        fields([10, 20, 30, 40])
    );
    assert_eq!(
        parse_public_inputs(" \t\r\n[ \"5\" ,\t\"6\"\r\n,\"7\",\n\n\"8\" ] \n"),
        fields([5, 6, 7, 8])
    );
}

#[test]
fn inputs_of_the_test_vector() {
    let text = r#"
        [
            "0","0","0","0"
        ]
        "#;
    assert_eq!(parse_public_inputs(text), fields([0, 0, 0, 0]));
}

#[test]
fn another_number_of_inputs_is_refused() {
    assert_eq!(parse_public_inputs(""), None);
    assert_eq!(parse_public_inputs("[]"), None);
    assert_eq!(parse_public_inputs("[\"1\",\"2\",\"3\"]"), None);
    assert_eq!(parse_public_inputs("[\"1\",\"2\",\"3\",\"4\",\"5\"]"), None);
    // a quote that is not closed
    assert_eq!(parse_public_inputs("[\"1\",\"2\",\"3\",\"4]"), None);
    assert_eq!(parse_public_inputs("[\"1\",\"2\",\"3\",\"4\"]\""), None);
}

#[test]
fn an_input_that_is_no_field_element_is_refused() {
    assert_eq!(parse_public_inputs("[\"1\",\"x\",\"3\",\"4\"]"), None);
    assert_eq!(parse_public_inputs("[\"1\",\"2\",\"3\",\" 4\"]"), None);
    assert_eq!(parse_public_inputs("[\"1\",\"\",\"3\",\"4\"]"), None);
    assert_eq!(parse_public_inputs("[\"1\",\"02\",\"3\",\"4\"]"), None);
    assert_eq!(parse_public_inputs("[\"1\",\"0x2\",\"3\",\"4\"]"), None);
    assert_eq!(parse_public_inputs("[\"-1\",\"2\",\"3\",\"4\"]"), None);
    // No later input takes the place of one that is refused.
    assert_eq!(parse_public_inputs("[\"1\",\"x\",\"3\",\"4\",\"5\"]"), None);
    // The order of the field is no element of it.
    assert_eq!(
        parse_public_inputs(
            "[\"1\",\"21888242871839275222246405745257275088548364400416034343698204186575808495617\",\"3\",\"4\"]"
        ),
        None
    );
}

#[test]
fn only_a_list_is_taken() {
    // no brackets, no commas
    assert_eq!(parse_public_inputs("\"5\"\"6\"\"7\"\"8\""), None);
    assert_eq!(parse_public_inputs("\"5\",\"6\",\"7\",\"8\""), None);
    assert_eq!(parse_public_inputs("[\"5\"\"6\",\"7\",\"8\"]"), None);
    assert_eq!(parse_public_inputs("[\"5\",\"6\",\"7\",\"8\""), None);
    assert_eq!(parse_public_inputs("\"5\",\"6\",\"7\",\"8\"]"), None);
    // something else than white space outside the quotes
    assert_eq!(parse_public_inputs("[7,\"1\",\"2\",\"3\",\"4\"]"), None);
    assert_eq!(parse_public_inputs("7\"1\"8\"2\"9\"3\"10\"4\"11"), None);
    assert_eq!(parse_public_inputs("[\"1\",\"2\",\"3\",\"4\"]x"), None);
    assert_eq!(parse_public_inputs("x[\"1\",\"2\",\"3\",\"4\"]"), None);
    assert_eq!(parse_public_inputs("[\"1\",,\"2\",\"3\",\"4\"]"), None);
    assert_eq!(parse_public_inputs("[[\"1\",\"2\",\"3\",\"4\"]"), None);
    assert_eq!(parse_public_inputs("[\"1\",\"2\",\"3\",\"4\"]]"), None);
    assert_eq!(parse_public_inputs("[\"1\";\"2\",\"3\",\"4\"]"), None);
    assert_eq!(parse_public_inputs("]\"1\",\"2\",\"3\",\"4\"["), None);
    assert_eq!(parse_public_inputs("[\"1\",\"2\",\"3\",\"4\",]"), None);
    assert_eq!(parse_public_inputs("é[\"1\",\"2\",\"3\",\"4\"]"), None);
    assert_eq!(parse_public_inputs("[\"1\",\u{a0}\"2\",\"3\",\"4\"]"), None);
    assert_eq!(parse_public_inputs("1,2,3,4"), None);
    assert_eq!(parse_public_inputs("[1,2,3,4]"), None);
}

#[test]
fn large_inputs_are_read_whole() {
    let text = "[\"21888242871839275222246405745257275088548364400416034343698204186575808495616\",\"0\",\"0\",\"0\"]";
    let found = parse_public_inputs(text).expect("four field elements");
    assert_eq!(found.len(), 4);
    assert_eq!(
        found[0].to_string(),
        "21888242871839275222246405745257275088548364400416034343698204186575808495616"
    );
}
