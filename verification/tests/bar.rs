use notfail::progress::{clear_line, render_progress, render_progress_bar};

/// The same line, computed with the machine's own double-precision numbers.
fn with_floats(current: u32, total: u32, width: usize) -> String {
    let percentage = if total > 0 {
        (current as f64 / total as f64 * 100.0).min(100.0)
    } else {
        0.0
    };
    let filled = ((percentage / 100.0) * width as f64) as usize;
    let empty = width.saturating_sub(filled);
    let bar: String = "█".repeat(filled) + &"░".repeat(empty);
    format!("\r[{}] {:>3.0}% ({}/{})", bar, percentage, current, total)
}

#[test]
fn bar_of_the_readme() {
    assert_eq!(
        render_progress_bar(835, 1987, 40),
        "\r[████████████████░░░░░░░░░░░░░░░░░░░░░░░░]  42% (835/1987)"
    );
}

#[test]
fn bar_edges() {
    assert_eq!(render_progress_bar(0, 0, 4), "\r[░░░░]   0% (0/0)");
    assert_eq!(render_progress_bar(5, 0, 4), "\r[░░░░]   0% (5/0)");
    assert_eq!(render_progress_bar(3, 3, 4), "\r[████] 100% (3/3)");
    assert_eq!(render_progress_bar(9, 3, 4), "\r[████] 100% (9/3)");
    assert_eq!(render_progress_bar(1, 2, 0), "\r[]  50% (1/2)");
}

#[test]
fn bar_rounds_as_double_precision_does() {
    // Exactly 57.5 percent, of which double precision makes a little less.
    assert_eq!(
        render_progress_bar(23, 40, 40),
        "\r[███████████████████████░░░░░░░░░░░░░░░░░]  57% (23/40)"
    );
    // Ties of the percentage go to the even number.
    assert_eq!(render_progress_bar(1, 200, 2), "\r[░░]   0% (1/200)");
    assert_eq!(render_progress_bar(3, 200, 2), "\r[░░]   2% (3/200)");
    for total in 0..220u32 {
        for current in 0..(total + 3) {
            assert_eq!(
                render_progress_bar(current, total, 40),
                with_floats(current, total, 40)
            );
        }
    }
    let mut x: u64 = 0x9e3779b97f4a7c15;
    for _ in 0..20000 {
        x = x.wrapping_mul(6364136223846793005).wrapping_add(1442695040888963407);
        let current = (x >> 32) as u32 >> ((x >> 3) & 31);
        let total = (x as u32) >> ((x >> 40) & 31);
        let width = ((x >> 20) & 127) as usize;
        assert_eq!(
            render_progress_bar(current, total, width),
            with_floats(current, total, width)
        );
    }
    let extremes = [0u32, 1, 2, 3, u32::MAX / 3, u32::MAX - 1, u32::MAX];
    for current in extremes {
        for total in extremes {
            assert_eq!(
                render_progress_bar(current, total, 53),
                with_floats(current, total, 53)
            );
        }
    }
}

#[test]
fn bar_never_goes_back() {
    let mut last = 0;
    for current in 0..1990 {
        let line = render_progress_bar(current, 1987, 40);
        let filled = line.matches('█').count();
        assert_eq!(filled + line.matches('░').count(), 40);
        assert!(filled >= last);
        last = filled;
    }
    assert_eq!(last, 40);
}

#[test]
fn bar_is_full_only_at_the_end() {
    for (current, total) in [(0, 1), (1986, 1987), (u32::MAX - 1, u32::MAX), (7, u32::MAX)] {
        for width in [1usize, 2, 40, 1000, 65536] {
            assert!(render_progress_bar(current, total, width).contains('░'));
            assert!(!render_progress_bar(total, total, width).contains('░'));
        }
    }
}

#[test]
fn progress_line() {
    assert_eq!(render_progress(835, 1987), render_progress_bar(835, 1987, 40));
    assert_eq!(render_progress(12, 0), "\r12 tests passed");
    assert_eq!(render_progress(0, 0), "");
    assert_eq!(clear_line(), format!("\r{}\r", " ".repeat(60)));
}
