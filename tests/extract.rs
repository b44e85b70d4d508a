use weave_modules::extract::{extract_package, extract_packages, sort_packages, sorted_packages};

#[test]
fn blank_is_blank() {
    let actual = extract_package("");
    assert_eq!(actual, None);
}

#[test]
fn it_works() {
    let actual = extract_package("include 'instrumentation:akka-2.2'");
    assert_eq!(actual, Some("akka-2.2"));
}

#[test]
fn line_without_keyword_is_skipped() {
    assert_eq!(extract_package("include 'module:akka-2.2'"), None);
    assert_eq!(extract_package("include 'Instrumentation:akka-2.2'"), None);
}

#[test]
fn line_without_colon_is_skipped() {
    assert_eq!(extract_package("include 'instrumentation/akka-2.2'"), None);
}

#[test]
fn colon_as_last_character_gives_empty_identifier() {
    assert_eq!(extract_package("instrumentation:"), Some(""));
    assert_eq!(extract_package("instrumentation:x"), Some(""));
}

#[test]
fn first_colon_starts_the_identifier() {
    assert_eq!(extract_package("instrumentation:a:b'"), Some("a:b"));
    assert_eq!(extract_package("x:instrumentation:zio'"), Some("instrumentation:zio"));
}

#[test]
fn positions_count_characters() {
    assert_eq!(extract_package("include 'instrumentation:café-1.0'"), Some("café-1.0"));
}

#[test]
fn identifiers_keep_line_order() {
    let lines = vec![
        "include 'instrumentation:zio-1.0'".to_string(),
        "rootProject.name = 'agent'".to_string(),
        "include 'instrumentation:akka-2.2'".to_string(),
    ];
    assert_eq!(extract_packages(&lines), vec!["zio-1.0", "akka-2.2"]);
}

#[test]
fn sorting_orders_versions_numerically() {
    let pkgs = vec!["scala-2.13.0", "zio-1.0", "scala-2.9.3", "akka-2.2"];
    assert_eq!(
        sort_packages(&pkgs),
        vec!["akka-2.2", "scala-2.9.3", "scala-2.13.0", "zio-1.0"]
    );
    let none: Vec<&str> = Vec::new();
    assert_eq!(sort_packages(&none), none);
}

#[test]
fn settings_lines_come_out_sorted() {
    let lines = vec![
        "include 'instrumentation:zio-1.0'".to_string(),
        "include 'instrumentation:akka-2.2'".to_string(),
    ];
    let sorted = sorted_packages(&lines);
    assert_eq!(sorted, vec!["akka-2.2", "zio-1.0"]);
    let loaded: Vec<String> = sorted
        .iter()
        .map(|p| format!("Supportability/WeaveInstrumentation/Loaded/com.newrelic.instrumentation.{}/1", p))
        .collect();
    assert_eq!(
        loaded[0],
        "Supportability/WeaveInstrumentation/Loaded/com.newrelic.instrumentation.akka-2.2/1"
    );
}
