use aegis::vector::{feature_display_name, Property};

fn prop(k: &str, v: Option<&str>) -> Property {
    Property { key: k.to_string(), text: v.map(|s| s.to_string()) }
}

#[test]
fn display_name_prefers_uppercase_name() {
    let props = Some(vec![prop("name", Some("france")), prop("NAME", Some("France"))]);
    assert_eq!(feature_display_name(&props), Some("France".to_string()));
}

#[test]
fn display_name_skips_empty_and_non_string_values() {
    let props = Some(vec![
        prop("NAME", Some("")),
        prop("name", None),
        prop("NAME_LONG", Some("Republic of Chile")),
        prop("ADMIN", Some("Chile")),
    ]);
    assert_eq!(feature_display_name(&props), Some("Republic of Chile".to_string()));
}

#[test]
fn display_name_falls_back_to_formal_name() {
    let props = Some(vec![prop("pop_est", Some("1")), prop("FORMAL_EN", Some("Kingdom of Spain"))]);
    assert_eq!(feature_display_name(&props), Some("Kingdom of Spain".to_string()));
    let props = Some(vec![prop("SOVEREIGNT", Some("Norway")), prop("FORMAL_EN", Some("x"))]);
    assert_eq!(feature_display_name(&props), Some("Norway".to_string()));
}

#[test]
fn display_name_none_without_usable_property() {
    assert_eq!(feature_display_name(&None), None);
    assert_eq!(feature_display_name(&Some(vec![])), None);
    let props = Some(vec![prop("Name", Some("Peru")), prop("NAME", None)]);
    assert_eq!(feature_display_name(&props), None);
}
