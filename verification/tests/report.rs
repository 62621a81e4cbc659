use airflow_analytics::report::escape_for_script;

#[test]
fn escapes_script_terminators() {
    assert_eq!(
        escape_for_script(r#"{"id":"</script>"}"#),
        r#"{"id":"\u003c/script>"}"#
    );
}

#[test]
fn escaping_twice_is_escaping_once() {
    let once = escape_for_script("<a><b>");
    assert_eq!(once, r"\u003ca>\u003cb>");
    assert_eq!(escape_for_script(&once), once);
    assert_eq!(escape_for_script("no tags"), "no tags");
    assert_eq!(escape_for_script(""), "");
}

#[test]
fn escaping_grows_by_five_per_less_than_and_reverses() {
    let json = r#"{"id":"a<b<c","x":"<"}"#;
    let out = escape_for_script(json);
    let less_than = json.matches('<').count();
    assert_eq!(out.chars().count(), json.chars().count() + 5 * less_than);
    assert!(!out.contains('<'));
    assert_eq!(out.replace(r"\u003c", "<"), json);
}
