use subtitles::placeholder::Placeholders;

#[test]
fn test_placeholder() {
    let abbr_map: Vec<(String, String)> = vec![
        ("foo".to_string(), "bar".to_string()),
        ("baz".to_string(), "qux".to_string()),
    ];
    let placeholder = Placeholders::new(&abbr_map);

    let text = "foo bar baz qux";
    let text_w_placeholders = placeholder.insert(text);
    let text_w_fullform = placeholder.expand(&text_w_placeholders);

    let expected = "bar bar qux qux";
    assert_eq!(expected, text_w_fullform);
}

#[test]
fn placeholder_numbering_follows_table_order() {
    let abbr_map: Vec<(String, String)> = vec![
        ("foo".to_string(), "bar".to_string()),
        ("baz".to_string(), "qux".to_string()),
    ];
    let placeholder = Placeholders::new(&abbr_map);

    let inserted = placeholder.insert("foo baz");
    assert_eq!("PLACEHOLDER_0 PLACEHOLDER_1", inserted);
}

#[test]
fn placeholder_roundtrip_single_entry() {
    let abbr_map: Vec<(String, String)> =
        vec![("UN".to_string(), "United Nations".to_string())];
    let placeholder = Placeholders::new(&abbr_map);

    let text = "The UN met. Then the UN spoke.";
    let inserted = placeholder.insert(text);
    assert_eq!("The PLACEHOLDER_0 met. Then the PLACEHOLDER_0 spoke.", inserted);

    let restored = placeholder.replace(&inserted);
    assert_eq!(text, restored);
}

#[test]
fn placeholder_empty_full_form_expands_to_nothing() {
    let abbr_map: Vec<(String, String)> = vec![("ab".to_string(), "".to_string())];
    let placeholder = Placeholders::new(&abbr_map);

    let inserted = placeholder.insert("ab cd");
    assert_eq!("PLACEHOLDER_0 cd", inserted);
    assert_eq!(" cd", placeholder.expand(&inserted));
}

#[test]
fn placeholder_empty_abbreviation_dropped() {
    let abbr_map: Vec<(String, String)> = vec![
        ("".to_string(), "nothing".to_string()),
        ("ab".to_string(), "alpha beta".to_string()),
    ];
    let placeholder = Placeholders::new(&abbr_map);

    let inserted = placeholder.insert("ab cd");
    assert_eq!("PLACEHOLDER_0 cd", inserted);
    assert_eq!("alpha beta cd", placeholder.expand(&inserted));
}
