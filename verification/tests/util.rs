use stat_server::strutil;
use stat_server::tpl::{init_jinja_tpl, TemplateRegistry};

#[test]
fn decimal_and_two_digit_rendering() {
    assert_eq!(strutil::u64_to_string(0), "0");
    assert_eq!(strutil::u64_to_string(907), "907");
    assert_eq!(strutil::u64_to_two_digits(7), "07");
    assert_eq!(strutil::u64_to_two_digits(42), "42");
}

#[test]
fn uptime_rendering() {
    assert_eq!(strutil::uptime_string(0), "00:00:00");
    assert_eq!(strutil::uptime_string(3700), "01:01:40");
    assert_eq!(strutil::uptime_string(86399), "23:59:59");
    assert_eq!(strutil::uptime_string(86400), "1 \u{5929}");
    assert_eq!(strutil::uptime_string(10 * 86400 + 5), "10 \u{5929}");
}

#[test]
fn string_comparisons() {
    assert!(strutil::str_eq("abc", "abc"));
    assert!(!strutil::str_eq("abc", "abd"));
    assert!(strutil::str_lex_le("alpha", "beta"));
    assert!(strutil::str_lex_le("a", "ab"));
    assert!(!strutil::str_lex_le("b", "ab"));
    assert!(strutil::str_lex_le("same", "same"));
}

#[test]
fn substring_search() {
    assert!(strutil::str_contains_sub("os=ubuntu;region=eu", "os="));
    assert!(!strutil::str_contains_sub("region=eu", "os="));
    assert!(strutil::str_contains_sub("anything", ""));
}

#[test]
fn lowercase_folds_case() {
    // would fail if the fold handed its argument back unchanged
    let folded = strutil::lowercase("Ubuntu 22.04 LTS");
    assert_eq!(folded, "ubuntu 22.04 lts");
}

#[test]
fn template_registry_round_trip() {
    let mut reg = TemplateRegistry::new();
    init_jinja_tpl(
        &mut reg,
        "<html>detail</html>".to_string(),
        "<html>map</html>".to_string(),
        "#!/bin/sh".to_string(),
    );
    assert_eq!(reg.templates.len(), 3);
    assert_eq!(reg.get_template("http", "map").unwrap(), "<html>map</html>");
    assert_eq!(reg.get_template("http", "client-init").unwrap(), "#!/bin/sh");
    assert!(reg.get_template("http", "missing").is_none());
    assert!(reg.get_template("grpc", "map").is_none());
}
