use slacker_gui::output::{
    clean, clean_text, overflow, strip_ansi, write_for, Chunk, FeedState, Write,
};

/// The rule the output log applies, over a list of lines instead of a
/// text buffer.
fn simulate(steps: &[(&str, Chunk)]) -> String {
    let mut lines: Vec<String> = Vec::new();
    let mut redrawing = false;
    for (text, kind) in steps {
        match write_for(redrawing, *kind) {
            Write::OverLast => {
                lines.pop();
                lines.extend(text.split('\n').map(str::to_string));
            }
            Write::New => lines.extend(text.split('\n').map(str::to_string)),
        }
        redrawing = *kind == Chunk::Progress;
    }
    lines.join("\n")
}

#[test]
fn a_redrawn_line_is_replaced_never_repeated() {
    let out = simulate(&[
        ("Upgrade (1):", Chunk::Line),
        ("  glibc: 20 MB", Chunk::Progress),
        ("  glibc: 60 MB", Chunk::Progress),
        ("  glibc: 100 MB", Chunk::Progress),
        ("  glibc: 100 MB", Chunk::Line),
        ("Done.", Chunk::Line),
    ]);
    assert_eq!(out, "Upgrade (1):\n  glibc: 100 MB\nDone.");
}

#[test]
fn the_chunk_that_finishes_a_redraw_may_carry_more_lines() {
    let out = simulate(&[
        ("  glibc: 20 MB", Chunk::Progress),
        ("  glibc: 100 MB\nUpgrading glibc...\nDone.", Chunk::Line),
    ]);
    assert_eq!(out, "  glibc: 100 MB\nUpgrading glibc...\nDone.");
}

#[test]
fn plain_output_is_never_overwritten() {
    let out = simulate(&[("one", Chunk::Line), ("two", Chunk::Line)]);
    assert_eq!(out, "one\ntwo");
}

#[test]
fn the_log_drops_only_what_is_over_the_cap() {
    assert_eq!(overflow(10, 4_000), 0);
    assert_eq!(overflow(4_000, 4_000), 0);
    assert_eq!(overflow(4_007, 4_000), 7);
}

#[test]
fn strips_colour_codes() {
    assert_eq!(clean(b"\x1b[1;31mFROZEN\x1b[0m vim\n"), "FROZEN vim");
}

#[test]
fn keeps_last_progress_state() {
    assert_eq!(clean(b"get  10%\rget  50%\rget 100%\n"), "get 100%");
    assert_eq!(clean(b"line one\r\nline two\r\n"), "line one\nline two");
}

#[test]
fn strips_osc_sequences() {
    assert_eq!(clean(b"\x1b]0;title\x07ok\n"), "ok");
}

#[test]
fn survives_invalid_utf8() {
    assert_eq!(clean(b"a\xffb\n"), "a\u{fffd}b");
}

#[test]
fn where_each_chunk_goes() {
    assert_eq!(write_for(false, Chunk::Line), Write::New);
    assert_eq!(write_for(false, Chunk::Progress), Write::New);
    assert_eq!(write_for(true, Chunk::Line), Write::OverLast);
    assert_eq!(write_for(true, Chunk::Progress), Write::OverLast);
}

#[test]
fn every_kind_of_escape_is_removed() {
    let s: Vec<char> = "a\u{1b}]8;;http://x\u{1b}\\link\u{1b}]8;;\u{1b}\\b\u{1b}(Bc\u{1b}".chars().collect();
    assert_eq!(strip_ansi(&s).into_iter().collect::<String>(), "alinkbBc");
    let unfinished: Vec<char> = "x\u{1b}[12".chars().collect();
    assert_eq!(strip_ansi(&unfinished).into_iter().collect::<String>(), "x");
}

#[test]
fn cleaned_text_holds_no_escape_and_no_carriage_return() {
    for raw in ["\u{1b}[1m\r\u{1b}x\r\r", "a\rb\r\nc", "\u{1b}", "\r\n\r\n", "plain"] {
        let t = clean_text(raw);
        assert!(!t.contains('\u{1b}') && !t.contains('\r') && !t.ends_with('\n'), "{raw:?} -> {t:?}");
    }
    assert_eq!(clean_text("one\n\ntwo\n\n"), "one\n\ntwo");
    assert_eq!(clean_text(""), "");
    assert_eq!(clean_text("\n"), "");
}

#[test]
fn decoding_is_lossy_only_where_the_bytes_are_invalid() {
    assert_eq!(clean("δοκιμή ✓\n".as_bytes()), "δοκιμή ✓");
    assert_eq!(clean(b"\xe2\x9c"), "\u{fffd}");
}

#[test]
fn cleaned_text_never_ends_in_a_newline() {
    assert_eq!(clean(b"a\n\n"), "a");
    assert_eq!(clean(b"a\n\r\n"), "a");
    assert_eq!(clean(b"x\n\x1b[0m\n\n"), "x");
    assert_eq!(clean_text("\n\n\n"), "");
    let plain = "first\n\nthird\n\n\n";
    assert_eq!(clean_text(plain), plain.trim_end_matches('\n'));
}

/// A feed's text after the pushes, written as the window writes it: over the
/// last line, or as a new line after what is there.
fn feed(steps: &[(&str, Chunk)]) -> String {
    let mut state = FeedState::new();
    let mut doc = String::new();
    for (text, kind) in steps {
        match state.push(*kind) {
            Write::OverLast => {
                let start = doc.rfind('\n').map_or(0, |k| k + 1);
                doc.truncate(start);
                doc.push_str(text);
            }
            Write::New => {
                if !doc.is_empty() {
                    doc.push('\n');
                }
                doc.push_str(text);
            }
        }
    }
    doc
}

#[test]
fn a_feed_keeps_one_copy_of_each_redraw() {
    let out = feed(&[
        ("Upgrade (2):\n  glibc", Chunk::Line),
        ("  10%", Chunk::Progress),
        ("  90%", Chunk::Progress),
        ("  done", Chunk::Line),
        ("  50%", Chunk::Progress),
    ]);
    assert_eq!(out, "Upgrade (2):\n  glibc\n  done\n  50%");
    let mut s = FeedState::new();
    assert_eq!(s.push(Chunk::Progress), Write::New);
    s.line();
    assert_eq!(s.push(Chunk::Line), Write::New);
}
