use notfail::chunks::find_cut;
use notfail::launch::{after_run, mode_after_restart, start_mode, Mode, Next};
use notfail::progress::{clear_line, render_progress};
use notfail::protocol::{
    attach_step, frame, is_alive, listen_step, ListenAction, ListenEvent, Message, ServerEvent,
    WatcherAction,
};
use notfail::run::Run;

fn feed(run: &mut Run, text: &str) -> Vec<String> {
    let lines = run.read(text.as_bytes());
    for line in &lines {
        assert!(run.accepts(line));
        assert!(run.process_line(line, 0).is_none());
    }
    lines
}

#[test]
fn lines_come_out_whole() {
    let mut run = Run::new(None);
    assert!(run.push_text("on").is_empty());
    assert_eq!(run.pending(), "on");
    assert_eq!(run.push_text("e\n\ntw"), vec!["one\n", "\n"]);
    assert_eq!(run.push_text(""), Vec::<String>::new());
    assert_eq!(run.push_text("o\r\n"), vec!["two\r\n"]);
    assert_eq!(run.pending(), "");
}

#[test]
fn pieces_make_no_difference() {
    let text = "a\nbb\n\nccc ✓\nrest";
    let mut whole = Run::new(None);
    let expected = whole.push_text(text);
    let cuts: Vec<usize> = (0..=text.len()).filter(|i| text.is_char_boundary(*i)).collect();
    for cut in cuts {
        let mut run = Run::new(None);
        let mut lines = run.push_text(&text[..cut]);
        lines.extend(run.push_text(&text[cut..]));
        assert_eq!(lines, expected);
        assert_eq!(run.pending(), "rest");
        assert_eq!(lines.concat() + &run.pending(), text);
    }
}

#[test]
fn cuts_inside_characters_make_no_difference() {
    let text = "✗ é\n😀 ✓ done\n● ñ";
    let bytes = text.as_bytes();
    let mut whole = Run::new(None);
    let expected = whole.push_text(text);
    for first in 0..=bytes.len() {
        for second in first..=bytes.len() {
            let mut run = Run::new(None);
            let mut lines = run.read(&bytes[..first]);
            lines.extend(run.read(&bytes[first..second]));
            lines.extend(run.read(&bytes[second..]));
            assert_eq!(lines, expected);
            assert_eq!(lines.concat() + &run.pending(), text);
        }
    }
    let mut run = Run::new(None);
    let lines: Vec<String> = bytes.iter().flat_map(|b| run.read(&[*b])).collect();
    assert_eq!(lines, expected);
}

#[test]
fn cut_marker_is_still_a_failure() {
    let mut run = Run::new(None);
    assert!(run.read(b"\xe2\x9c").is_empty());
    let lines = run.read(b"\x97 adds\n");
    assert_eq!(lines, vec!["✗ adds\n"]);
    run.process_line(&lines[0], 0);
    assert_eq!(run.finish(1).output, vec!["✗ adds\n"]);
}

#[test]
fn unfinished_characters_wait() {
    for (bytes, cut) in [
        (&b""[..], 0),
        (b"a", 1),
        (b"a\xc3", 1),
        (b"a\xe2", 1),
        (b"a\xe2\x9c", 1),
        (b"a\xe2\x9c\x93", 4),
        (b"a\xf0\x9f\x98", 1),
        (b"\xf0\x9f\x98\x80", 4),
        (b"a\x9c\x93\x93", 4),
        (b"a\xc3\x9c", 3),
        (b"a\xff", 2),
    ] {
        assert_eq!(find_cut(bytes), cut);
    }
}

#[test]
fn what_is_not_utf8_is_replaced() {
    let mut run = Run::new(None);
    assert_eq!(run.read(b"a\xffb\n\xe2\x9c"), vec!["a\u{fffd}b\n"]);
    // What never gets finished is replaced at the end.
    assert_eq!(run.pending(), "\u{fffd}");
    assert_eq!(run.read(b"x\n"), vec!["\u{fffd}x\n"]);
    assert_eq!(run.pending(), "");
}

#[test]
fn finished_files_add_up() {
    let mut run = Run::new(None);
    feed(&mut run, "✓ a (8 tests)\nnoise\n\x1b[32m✓\x1b[0m b (1 test) 3ms\r\n");
    let refresh = run.refresh(101).unwrap();
    assert_eq!((refresh.current, refresh.total), (9, 0));
    assert_eq!(refresh.text, "\r9 tests passed");
    assert_eq!(refresh.remember, Some(9));
    assert_eq!(run.get_final_total(), None);
}

#[test]
fn summary_sets_count_and_total() {
    let mut run = Run::new(None);
    feed(&mut run, "✓ a (8 tests)\n Tests  2 failed | 4 passed | 1 skipped (9)\n");
    assert_eq!(run.get_final_total(), Some(9));
    let refresh = run.refresh(101).unwrap();
    assert_eq!((refresh.current, refresh.total), (7, 9));
    assert_eq!(refresh.text, render_progress(7, 9));
    // Only a line about tests, or with a word of tests passed, is a summary.
    feed(&mut run, "1 failed (5)\n");
    assert_eq!(run.get_final_total(), Some(9));
    feed(&mut run, "3 passed (5)\n");
    assert_eq!(run.get_final_total(), Some(5));
    // A finished file gives no total, whatever its name is.
    feed(&mut run, "✓ 4 passed (6 tests)\n");
    assert_eq!(run.refresh(101).unwrap().current, 9);
    assert_eq!(run.get_final_total(), Some(5));
}

#[test]
fn last_summary_counts() {
    let mut run = Run::new(None);
    feed(&mut run, "✓ a (8 tests)\n3 passed (40)\n✓ b (2 tests)\nTests 5 passed (50)\n");
    feed(&mut run, "✓ c (6 tests)\nnoise\n✓ d (1 test)\n");
    assert_eq!(run.refresh(101).unwrap().current, 12);
    assert_eq!(run.get_final_total(), Some(50));
}

#[test]
fn reading_between_lines_changes_nothing() {
    let text = "FAIL a\n✓ b (2 tests)\nmore\n3 passed (4)\n✓ c (1 test)\nres✗";
    let mut once = Run::new(None);
    feed(&mut once, text);
    for size in 1..9 {
        let mut run = Run::new(None);
        for piece in text.as_bytes().chunks(size) {
            for line in run.read(piece) {
                assert!(run.accepts(&line));
                assert!(run.process_line(&line, 0).is_none());
            }
        }
        assert_eq!(run.finish(1).output, once.finish(1).output);
        assert_eq!(run.refresh(101).unwrap().current, 4);
        assert_eq!(run.get_final_total(), Some(4));
        assert_eq!(run.pending(), "res✗");
    }
}

#[test]
fn known_total_is_shown() {
    let mut run = Run::new(Some(20));
    assert_eq!(run.refresh(101).unwrap().text, render_progress(0, 20));
    assert_eq!(run.refresh(101).unwrap().remember, None);
    feed(&mut run, "Tests 20 passed (30)\n");
    let refresh = run.refresh(101).unwrap();
    assert_eq!((refresh.current, refresh.total, refresh.remember), (20, 20, None));
    feed(&mut run, "✓ a (1 test)\n");
    let refresh = run.refresh(101).unwrap();
    assert_eq!((refresh.current, refresh.total, refresh.remember), (21, 20, Some(21)));
    assert_eq!(run.get_final_total(), Some(30));
}

#[test]
fn progress_is_shown_after_a_while() {
    let mut run = Run::new(Some(2));
    assert!(run.process_line("x\n", 0).is_none());
    assert!(run.process_line("x\n", 100).is_none());
    // The line itself counts already.
    let refresh = run.process_line("✓ a (1 test)\n", 101).unwrap();
    assert_eq!(refresh.text, render_progress(1, 2));
    assert_eq!(refresh.message(), Message::Progress { current: 1, total: 2 });
    assert!(Run::new(None).refresh(101).unwrap().text.is_empty());
}

#[test]
fn counts_that_cannot_be_added() {
    let mut run = Run::new(None);
    feed(&mut run, "✓ a (4294967295 tests)\n");
    assert!(run.accepts("✓ a (0 tests)\n"));
    assert!(!run.accepts("✓ a (1 test)\n"));
    assert!(!run.accepts("✓ a ) ( test\n"));
    assert!(!run.accepts("Tests ) (\n"));
    assert!(run.accepts("x ) (\n"));
    // A summary takes the place of the count.
    assert!(run.accepts("4294967295 passed (1)\n"));
    assert!(!run.accepts("4294967295 failed 1 passed (1)\n"));
}

#[test]
fn failure_takes_the_lines_after_it() {
    let mut run = Run::new(None);
    feed(&mut run, "before\nFAIL a\n");
    for i in 0..60 {
        feed(&mut run, &format!("line {}\n", i));
    }
    let output = run.finish(1).output;
    assert_eq!(output.len(), 51);
    assert_eq!(output[0], "FAIL a\n");
    assert_eq!(output[50], "line 49\n");
    // A failure among the lines starts anew.
    feed(&mut run, "● b\n1\n× c\n");
    for i in 0..60 {
        feed(&mut run, &format!("more {}\n", i));
    }
    let output = run.finish(1).output;
    assert_eq!(output.len(), 51 + 3 + 50);
    assert_eq!(output[103], "more 49\n");
}

#[test]
fn oldest_lines_are_given_up() {
    let mut run = Run::new(None);
    for i in 0..1000 {
        run.capture(&format!("{}\n", i), true);
    }
    assert_eq!(run.finish(1).output.len(), 1000);
    run.capture("1000\n", false);
    let output = run.finish(1).output;
    assert_eq!(output.len(), 901);
    assert_eq!(output[0], "100\n");
    assert_eq!(output[900], "1000\n");
}

#[test]
fn counting_alone_captures_nothing() {
    let mut run = Run::new(None);
    run.count("FAIL ✓ 3 passed (4)\n");
    assert_eq!(run.get_final_total(), Some(4));
    assert!(run.finish(1).output.is_empty());
}

#[test]
fn end_of_a_run() {
    let mut run = Run::new(None);
    feed(&mut run, "✓ fine\n");
    let good = run.finish(0);
    assert_eq!((good.clear.as_str(), good.exit_code), (clear_line().as_str(), 0));
    assert_eq!(good.output, vec!["All tests passed!\n"]);
    assert_eq!(
        good.messages(),
        vec![Message::Output("All tests passed!\n".to_string()), Message::Exit(0)]
    );
    let bad = run.finish(2);
    assert_eq!(bad.exit_code, 2);
    assert_eq!(bad.messages(), vec![Message::Exit(2)]);
    for status in [0u32, 1, 0x7fff_ffff, 0x8000_0000, u32::MAX] {
        assert_eq!(run.finish(status).exit_code, status as i32);
    }
    // Failures are shown whatever the exit code is.
    feed(&mut run, "Error: x\n");
    assert_eq!(run.finish(0).output, vec!["Error: x\n"]);
}

#[test]
fn watchers_see_the_same() {
    let mut run = Run::new(Some(4));
    feed(&mut run, "FAIL a\n✓ b (2 tests)\n");
    let refresh = run.refresh(500).unwrap();
    match attach_step(ServerEvent::Message(refresh.message())) {
        WatcherAction::Print(text) => assert_eq!(text, refresh.text),
        _ => unreachable!(),
    }
    let outcome = run.finish(7);
    let mut seen = Vec::new();
    for message in outcome.messages() {
        match attach_step(ServerEvent::Message(message)) {
            WatcherAction::Print(text) => seen.push(text),
            WatcherAction::Leave { text, exit_code } => {
                assert_eq!(text, clear_line());
                assert_eq!(exit_code, 7);
            }
            _ => unreachable!(),
        }
    }
    assert_eq!(seen, outcome.output);
}

#[test]
fn watchers_read_on() {
    assert!(matches!(attach_step(ServerEvent::Line(String::new())), WatcherAction::ReadOn));
    match attach_step(ServerEvent::Line("\"Ping\"".to_string())) {
        WatcherAction::Parse(line) => assert_eq!(line, "\"Ping\""),
        _ => unreachable!(),
    }
    for message in [Message::Restart, Message::Ping, Message::Pong] {
        assert!(matches!(attach_step(ServerEvent::Message(message)), WatcherAction::ReadOn));
    }
    match attach_step(ServerEvent::Closed) {
        WatcherAction::Leave { text, exit_code } => assert_eq!((text.as_str(), exit_code), ("", 0)),
        _ => unreachable!(),
    }
}

#[test]
fn socket_reactions() {
    match listen_step(ListenEvent::Connected(Some(Message::Ping))) {
        ListenAction::Answer(answer) => {
            assert_eq!(answer, Message::Pong);
            assert!(is_alive(&Some(answer)));
        }
        _ => unreachable!(),
    }
    assert!(matches!(
        listen_step(ListenEvent::Connected(Some(Message::Restart))),
        ListenAction::Restart
    ));
    for message in [None, Some(Message::Exit(1)), Some(Message::Pong)] {
        assert!(matches!(listen_step(ListenEvent::Connected(message)), ListenAction::Watch));
    }
    assert!(matches!(listen_step(ListenEvent::Idle), ListenAction::Sleep));
    assert!(matches!(listen_step(ListenEvent::Failed), ListenAction::Stop));
    assert!(!is_alive(&None));
    assert!(!is_alive(&Some(Message::Ping)));
}

#[test]
fn messages_stay_apart() {
    let sent = frame("\"Ping\"") + &frame("{\"Exit\":1}");
    assert_eq!(sent, "\"Ping\"\n{\"Exit\":1}\n");
    assert_eq!(Run::new(None).push_text(&sent), vec!["\"Ping\"\n", "{\"Exit\":1}\n"]);
}

#[test]
fn ways_to_start() {
    for restart in [false, true] {
        for running in [false, true] {
            assert_eq!(start_mode(true, restart, running), Mode::Alone);
        }
        assert_eq!(start_mode(false, restart, false), Mode::Serve);
    }
    assert_eq!(start_mode(false, false, true), Mode::Attach);
    assert_eq!(start_mode(false, true, true), Mode::AskRestart);
    assert_eq!(mode_after_restart(true), Mode::Attach);
    assert_eq!(mode_after_restart(false), Mode::Serve);
    assert_eq!(after_run(true, 3), Next::Again);
    assert_eq!(after_run(false, 3), Next::Exit(3));
}
