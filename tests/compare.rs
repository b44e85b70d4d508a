use std::cmp::Ordering::{Equal, Greater, Less};
use weave_modules::compare::{cmp_as_num_if_possible, cmp_pkgs, package_wo_version};

#[test]
fn base_package_compare() {
    let first = "com.newrelic.instrumentation.scala-2.9.3";
    let last = "com.newrelic.instrumentation.zio";
    assert_eq!(cmp_pkgs(first, last), Less);
}

#[test]
fn edge_package_compare() {
    let first = "com.newrelic.instrumentation.play-shaded-async-http-client-1.0.0";
    let last = "com.newrelic.instrumentation.play-ws-2.6.0";
    assert_eq!(cmp_pkgs(first, last), Less);
}

#[test]
fn package_compare() {
    let old = "com.newrelic.instrumentation.scala-2.9.3";
    let new = "com.newrelic.instrumentation.scala-2.13.0";
    assert_eq!(cmp_pkgs(new, new), Equal);
    assert_eq!(cmp_pkgs(old, new), Less);
    assert_eq!(cmp_pkgs(new, old), Greater);
}

#[test]
fn compare_as_strings() {
    assert_eq!(cmp_as_num_if_possible("java", "javax"), Less);
    assert_eq!(cmp_as_num_if_possible("javax", "java"), Greater);
    assert_eq!(cmp_as_num_if_possible("java", "java"), Equal);
}

#[test]
fn compare_as_ints() {
    assert_eq!(cmp_as_num_if_possible("1", "2"), Less);
    assert_eq!(cmp_as_num_if_possible("2", "1"), Greater);
    assert_eq!(cmp_as_num_if_possible("1", "1"), Equal);
    assert_eq!(cmp_as_num_if_possible("30", "4"), Greater);
}

#[test]
fn identifiers_without_dash_compare_as_base_names() {
    assert_eq!(cmp_pkgs("java", "javax"), Less);
    assert_eq!(cmp_pkgs("javax", "java"), Greater);
    assert_eq!(cmp_pkgs("java", "java"), Equal);
    assert_eq!(cmp_pkgs("1", "2"), Less);
    assert_eq!(cmp_pkgs("30", "4"), Less);
}

#[test]
fn numbers_above_a_byte_compare_as_text() {
    assert_eq!(cmp_as_num_if_possible("300", "4"), Less);
    assert_eq!(cmp_as_num_if_possible("255", "4"), Greater);
    assert_eq!(cmp_as_num_if_possible("256", "4"), Less);
}

#[test]
fn plus_sign_and_leading_zeros_read_as_numbers() {
    assert_eq!(cmp_as_num_if_possible("+7", "10"), Less);
    assert_eq!(cmp_as_num_if_possible("007", "10"), Less);
    assert_eq!(cmp_as_num_if_possible("-7", "10"), Less);
    assert_eq!(cmp_as_num_if_possible("+", "0"), Less);
    assert_eq!(cmp_as_num_if_possible("", ""), Equal);
}

#[test]
fn base_name_is_text_before_last_dash() {
    assert_eq!(package_wo_version("play-ws-2.6.0"), "play-ws");
    assert_eq!(package_wo_version("zio"), "zio");
    assert_eq!(package_wo_version("-1.0"), "");
    assert_eq!(package_wo_version("a-"), "a");
}

#[test]
fn shorter_version_counts_as_equal() {
    assert_eq!(cmp_pkgs("scala-2.13", "scala-2.13.0"), Equal);
    assert_eq!(cmp_pkgs("scala-2.13.0", "scala-2.13"), Equal);
    assert_eq!(cmp_pkgs("scala-2.12", "scala-2.13.0"), Less);
}

#[test]
fn textual_version_segments() {
    assert_eq!(cmp_pkgs("jdbc-8.0-312.jdbc3", "jdbc-8.0-312.jdbc4"), Less);
    assert_eq!(cmp_pkgs("mod-1.x", "mod-1.10"), Greater);
}

#[test]
fn swapped_arguments_give_opposite_order() {
    let ids = [
        "com.newrelic.instrumentation.scala-2.9.3",
        "com.newrelic.instrumentation.scala-2.13.0",
        "com.newrelic.instrumentation.zio",
        "java",
        "java-1",
        "javax",
        "30",
        "4",
        "mod-1.x",
    ];
    for a in ids.iter() {
        assert_eq!(cmp_pkgs(a, a), Equal);
        for b in ids.iter() {
            assert_eq!(cmp_pkgs(b, a), cmp_pkgs(a, b).reverse());
        }
    }
}

#[test]
fn empty_first_version_segment_breaks_symmetry() {
    assert_eq!(cmp_pkgs("java", "java-"), Less);
    assert_eq!(cmp_pkgs("java-", "java"), Equal);
    assert_eq!(cmp_pkgs("java", "java-.1"), Less);
    assert_eq!(cmp_pkgs("java-.1", "java"), Equal);
    assert_eq!(cmp_pkgs("java-1", "java"), Greater);
}
