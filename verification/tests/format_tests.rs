use wl_scanner::format::{format_documentation, sanitize_enum_entry_name, snake_to_upper_camel, to_title};

#[test]
fn upper_camel_of_snake_names() {
    assert_eq!(snake_to_upper_camel("wl_display"), "WlDisplay");
    assert_eq!(snake_to_upper_camel("get_registry"), "GetRegistry");
    assert_eq!(snake_to_upper_camel("done"), "Done");
    assert_eq!(snake_to_upper_camel(""), "");
}

#[test]
fn upper_camel_drops_every_underscore() {
    assert_eq!(snake_to_upper_camel("__a"), "A");
    assert_eq!(snake_to_upper_camel("a__b_"), "AB");
    assert_eq!(snake_to_upper_camel("_"), "");
    assert_eq!(snake_to_upper_camel("x_1y"), "X1y");
}

#[test]
fn upper_camel_leaves_non_ascii_letters() {
    assert_eq!(snake_to_upper_camel("été_ok"), "étéOk");
}

#[test]
fn upper_camel_is_idempotent() {
    for name in ["wl_display", "__x__y", "AlreadyCamel", "a_b_c", ""] {
        let once = snake_to_upper_camel(name);
        assert_eq!(snake_to_upper_camel(&once), once);
        assert!(!once.contains('_'));
    }
}

#[test]
fn sanitize_keeps_identifier_names() {
    assert_eq!(sanitize_enum_entry_name("normal".to_string()), "normal");
    assert_eq!(sanitize_enum_entry_name("_hidden".to_string()), "_hidden");
    assert_eq!(sanitize_enum_entry_name("Zed".to_string()), "Zed");
}

#[test]
fn sanitize_prefixes_other_names() {
    assert_eq!(sanitize_enum_entry_name("90".to_string()), "N90");
    assert_eq!(sanitize_enum_entry_name("-x".to_string()), "N-x");
    assert_eq!(sanitize_enum_entry_name("é".to_string()), "Né");
}

#[test]
fn sanitize_is_idempotent() {
    let once = sanitize_enum_entry_name("270".to_string());
    assert_eq!(sanitize_enum_entry_name(once.clone()), once);
}

#[test]
fn title_upper_cases_first_character() {
    assert_eq!(to_title(&"the mode".to_string()), "The mode");
    assert_eq!(to_title(&"Already".to_string()), "Already");
    assert_eq!(to_title(&"1st".to_string()), "1st");
    assert_eq!(to_title(&"x".to_string()), "X");
    assert_eq!(to_title(&"aé".to_string()), "Aé");
}

#[test]
fn title_is_idempotent() {
    let once = to_title(&"serial number".to_string());
    assert_eq!(to_title(&once), once);
}

#[test]
fn documentation_collapses_spaces_then_drops_tabs() {
    assert_eq!(format_documentation("a  b").unwrap(), "a b");
    assert_eq!(format_documentation("a     b  c").unwrap(), "a b c");
    assert_eq!(format_documentation("\tindented\ttext").unwrap(), "indentedtext");
    assert_eq!(format_documentation("one\n   two").unwrap(), "one\n two");
    assert_eq!(format_documentation("").unwrap(), "");
}

#[test]
fn documentation_tab_between_spaces_leaves_two_spaces() {
    assert_eq!(format_documentation(" \t ").unwrap(), "  ");
}

#[test]
fn documentation_without_tabs_is_stable() {
    let once = format_documentation("x   y  z ").unwrap();
    assert_eq!(once, "x y z ");
    assert_eq!(format_documentation(&once).unwrap(), once);
    assert!(!format_documentation("a\t\tb").unwrap().contains('\t'));
}

/// Splits at underscores and capitalizes each word with std's own string
/// functions.
fn camel_by_words(s: &str) -> String {
    s.split('_')
        .map(|w| {
            let mut chars = w.chars();
            match chars.next() {
                Some(first) => first.to_ascii_uppercase().to_string() + chars.as_str(),
                None => String::new(),
            }
        })
        .collect()
}

#[test]
fn upper_camel_is_capitalized_words() {
    for name in ["wl_data_device_manager", "_", "a__b", "x", "", "ärger_übel", "9_lives", "trailing_"] {
        assert_eq!(snake_to_upper_camel(name), camel_by_words(name));
    }
}
