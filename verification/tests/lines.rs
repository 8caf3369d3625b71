use notfail::ansi::strip_ansi_codes;
use notfail::counts::{
    can_parse_completed_file_tests, can_parse_test_summary, parse_completed_file_tests,
    parse_test_summary,
};
use notfail::failure::{is_failure_line, is_failure_text};

#[test]
fn test_strip_ansi_codes() {
    // Simple case
    assert_eq!(strip_ansi_codes("hello"), "hello");

    // With color codes
    assert_eq!(strip_ansi_codes("\x1b[32m✓\x1b[0m test"), "✓ test");

    // Complex vitest output
    let input = " \x1b[32m✓\x1b[0m \x1b[45mjsdom\x1b[0m src/test.ts (8 tests) 2ms";
    let clean = strip_ansi_codes(input);
    assert!(clean.trim().starts_with("✓"));
}

#[test]
fn test_parse_completed_file_tests() {
    // Plain text
    assert_eq!(parse_completed_file_tests(" ✓ jsdom src/test.ts (8 tests) 2ms"), Some(8));

    // With ANSI codes
    let colored = " \x1b[32m✓\x1b[0m \x1b[45mjsdom\x1b[0m src/test.ts (15 tests) 2ms";
    assert_eq!(parse_completed_file_tests(colored), Some(15));

    // Non-matching line
    assert_eq!(parse_completed_file_tests(" ❯ jsdom src/test.ts"), None);
}

#[test]
fn escapes_are_dropped() {
    // An escape without a bracket goes alone; a sequence goes up to its letter.
    assert_eq!(strip_ansi_codes("a\x1bb"), "ab");
    assert_eq!(strip_ansi_codes("a\x1b"), "a");
    assert_eq!(strip_ansi_codes("a\x1b[12;34"), "a");
    assert_eq!(strip_ansi_codes("\x1b[1;38;5;9mred\x1b[K!"), "red!");
    assert_eq!(strip_ansi_codes("\x1b[éé\u{1b}mx"), "x");
    assert_eq!(strip_ansi_codes("\x1b\x1b[0mx"), "x");
    assert_eq!(strip_ansi_codes(""), "");
    // Nothing is left to strip.
    let once = strip_ansi_codes("\x1b\x1b[[0m[0mx\x1b");
    assert!(!once.contains('\x1b'));
    assert_eq!(strip_ansi_codes(&once), once);
}

#[test]
fn summary_is_read() {
    let line = "Tests 2 failed | 1915 passed | 70 skipped (1987)";
    assert!(can_parse_test_summary(line));
    assert_eq!(parse_test_summary(line), Some((1987, 1987)));
    let colored =
        "      \x1b[2m Tests \x1b[22m \x1b[1m\x1b[32m12 passed\x1b[39m\x1b[22m\x1b[90m (40)\x1b[39m\r\n";
    assert_eq!(parse_test_summary(colored), Some((12, 40)));
    assert_eq!(parse_test_summary(&strip_ansi_codes(colored)), Some((12, 40)));
    assert_eq!(parse_test_summary("Tests +3 passed ( +9 )"), Some((3, 9)));
    // The first word `passed` counts, and the last word before it.
    assert_eq!(parse_test_summary("7 passed 9 passed (1)"), Some((7, 1)));
    assert_eq!(parse_test_summary("12passed (3)"), Some((12, 3)));
}

#[test]
fn order_of_a_summary_makes_no_difference() {
    for line in [
        "Tests 2 failed | 5 passed | 7 skipped (20)",
        "Tests 2 failed | 7 skipped | 5 passed (20)",
        "Tests 5 passed | 2 failed | 7 skipped (20)",
        "Tests 5 passed | 7 skipped | 2 failed (20)",
        "Tests 7 skipped | 2 failed | 5 passed (20)",
        "Tests 7 skipped | 5 passed | 2 failed (20)",
    ] {
        assert_eq!(parse_test_summary(line), Some((14, 20)));
    }
    assert_eq!(parse_test_summary("Tests 7 skipped | 5 passed (20)"), Some((12, 20)));
    assert_eq!(parse_test_summary("Tests 7 skipped (20)"), Some((7, 20)));
}

#[test]
fn what_is_no_summary() {
    for line in [
        "",
        "Tests 2 passed",
        "Tests 2 passed (",
        "Tests 2 passed )",
        "Tests 2 passed ()",
        "Tests 2 passed (two)",
        "Tests 2 passed (-2)",
        "Tests 2 passed (4294967296)",
        "Tests two passed (2)",
        "passed (2)",
        "Tests 0 passed (2)",
    ] {
        assert!(can_parse_test_summary(line));
        assert_eq!(parse_test_summary(line), None);
    }
    assert_eq!(parse_test_summary("1 passed (4294967295)"), Some((1, u32::MAX)));
}

#[test]
fn what_cannot_be_read() {
    assert!(!can_parse_test_summary("1 passed ) ("));
    assert!(!can_parse_test_summary("1 passed (1) ("));
    assert!(can_parse_test_summary("1 passed ()"));
    // The counts have to add up to 32 bits, where there is a total.
    assert!(!can_parse_test_summary("4294967295 failed 1 passed (1)"));
    assert!(can_parse_test_summary("4294967295 failed 1 passed"));
    assert!(can_parse_test_summary("4294967294 failed 1 passed (1)"));
    assert!(!can_parse_completed_file_tests("✓ a ) ("));
    assert!(can_parse_completed_file_tests("x a ) ("));
}

#[test]
fn finished_file_is_read() {
    for (line, expected) in [
        ("✓ a.ts (1 test) 2ms", Some(1)),
        (" ✓  jsdom  src/test.ts (8 tests) 2ms\r\n", Some(8)),
        ("✓ a.ts (2 tests | 1 skipped)", Some(2)),
        ("✓ a (x) b (3 tests)", Some(3)),
        ("✓ a.ts (8)", None),
        ("✓ a.ts (tests 8)", None),
        ("✓ a.ts ( 8\ttests)", Some(8)),
        ("✓ a.ts (4294967296 tests)", None),
        ("✓ a.ts (8 tests", None),
        ("✓ a.ts 8 tests)", None),
        ("✓ a.ts ()", None),
        ("a ✓ a.ts (8 tests)", None),
    ] {
        assert!(can_parse_completed_file_tests(line));
        assert_eq!(parse_completed_file_tests(line), expected);
    }
    // A line is never both a summary and a finished file.
    assert_eq!(parse_completed_file_tests("✓ 4 passed (6 tests)"), Some(6));
    assert_eq!(parse_test_summary("✓ 4 passed (6 tests)"), None);
    assert_eq!(parse_completed_file_tests("✓ 4 passed (6)"), None);
    assert_eq!(parse_test_summary("✓ 4 passed (6)"), Some((4, 6)));
}

#[test]
fn failures_are_told() {
    for line in [
        "FAIL src/a.test.ts",
        "  \t FAILURE",
        "✗ adds",
        "× adds",
        "● adds › one",
        "Error: no",
        "error: no",
        "eRRor no",
        "  error TS2322\n",
        "\u{a0}ERROR",
        "x AssertionError y",
        "Expected: 1",
        "   Received: 2",
        "- Expected",
        "x + Received",
        "    at Object.<anonymous> (a.ts:3:5)",
    ] {
        assert!(is_failure_line(line), "{}", line);
    }
    for line in ["", "ok", "✓ adds", "fail", "x FAIL", "at home", "attic: x", "my error: x", "Expected 1"] {
        assert!(!is_failure_line(line), "{}", line);
    }
}

#[test]
fn text_around_hides_no_failure() {
    for line in ["FAIL", "✗", "Error:", "eRRor", "a Expected: b", "at x:1", "●"] {
        for more in ["", " x", "é ß ✓", "\u{1b}[0m\n", "ŉ"] {
            let longer = format!(" \t\u{3000}{}{}", line, more);
            assert!(is_failure_line(line) && is_failure_line(&longer), "{}", longer);
        }
    }
    assert_eq!(is_failure_line("  fine"), is_failure_line("fine"));
}

#[test]
fn upper_case_goes_on() {
    for c in '\0'..=char::MAX {
        let upper = c.to_string().to_uppercase();
        assert_eq!(format!("eR{}o", c).to_uppercase(), format!("ER{}O", upper));
        if c.is_ascii() {
            assert_eq!(upper, c.to_ascii_uppercase().to_string());
        }
    }
}

#[test]
fn upper_case_decides_on_errors() {
    assert!(is_failure_text("x", "ERROR"));
    assert!(!is_failure_text("x", " ERROR"));
    assert!(!is_failure_text("ERROR", ""));
    assert!(!is_failure_text("", ""));
}
