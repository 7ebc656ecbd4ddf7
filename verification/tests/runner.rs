use slacker_gui::commands::{install, search, Privilege};
use slacker_gui::confirm::{
    can_continue, capitalise, confirmation, continue_label, keep_context, may_have_changed,
    offer_way_out, outcome, Confirmation, Outcome, CONTEXT_LINES,
};
use slacker_gui::output::Chunk;
use slacker_gui::runner::{argv, capture_chunk, describe, take_complete, worth_showing, Status, PKEXEC};

#[test]
fn a_refused_or_failed_start_changed_nothing() {
    assert!(!may_have_changed(&Status::Exited(126)));
    assert!(!may_have_changed(&Status::Exited(127)));
    assert!(!may_have_changed(&Status::SpawnFailed("x".into())));
    assert!(may_have_changed(&Status::Exited(0)));
    assert!(may_have_changed(&Status::Exited(1)));
}

#[test]
fn option_labels_read_as_buttons() {
    assert_eq!(capitalise("skip-all"), "Skip-all");
    assert_eq!(capitalise(""), "");
}

#[test]
fn capitals_follow_unicode() {
    assert_eq!(capitalise("ßtraße"), "SStraße");
    assert_eq!(capitalise("éa"), "Éa");
    assert_eq!(capitalise("1st"), "1st");
    assert_eq!(may_have_changed(&Status::Signaled), true);
}

#[test]
fn every_ending_is_described() {
    let u = Privilege::User;
    let r = Privilege::Root;
    assert_eq!(describe(&Status::Exited(0), u), "Finished");
    assert_eq!(describe(&Status::Exited(20), r), "Nothing found");
    assert_eq!(describe(&Status::Exited(50), u), "slacker upgraded itself; run the same action again");
    assert_eq!(describe(&Status::Exited(100), u), "Updates are pending");
    assert_eq!(describe(&Status::Exited(126), r), "Authentication was dismissed; nothing was run");
    assert_eq!(describe(&Status::Exited(127), r), "Not authorized, or pkexec could not start slacker");
    assert_eq!(describe(&Status::Exited(126), u), "slacker exited with status 126");
    assert_eq!(describe(&Status::Exited(-3), u), "slacker exited with status -3");
    assert_eq!(describe(&Status::Signaled, u), "Stopped by a signal");
    assert_eq!(describe(&Status::SpawnFailed("no such file".into()), r), "Could not start: no such file");
}

#[test]
fn answered_means_a_known_exit_code() {
    for c in [0, 20, 50, 100] {
        assert!(Status::Exited(c).answered());
        assert_eq!(Status::Exited(c).code(), Some(c));
    }
    for c in [1, 2, 126, 127, -1] {
        assert!(!Status::Exited(c).answered());
    }
    assert!(!Status::Signaled.answered());
    assert_eq!(Status::Signaled.code(), None);
    assert_eq!(Status::SpawnFailed("x".into()).code(), None);
}

#[test]
fn root_commands_go_through_pkexec() {
    let n = vec!["vim".to_string()];
    assert_eq!(argv("/usr/sbin/slacker", &install(&n)), vec![PKEXEC, "/usr/sbin/slacker", "install", "vim"]);
    assert_eq!(argv("/usr/bin/slacker", &search("vim")), vec!["/usr/bin/slacker", "search", "vim"]);
}

#[test]
fn output_is_cut_at_the_last_newline() {
    let mut pending = b"half".to_vec();
    assert_eq!(take_complete(&mut pending, b" a line\nsecond\nthi"), Some(b"half a line\nsecond\n".to_vec()));
    assert_eq!(pending, b"thi");
    assert_eq!(take_complete(&mut pending, b"rd"), None);
    assert_eq!(pending, b"third");
    assert_eq!(take_complete(&mut pending, b"\n"), Some(b"third\n".to_vec()));
    assert!(pending.is_empty());
    assert_eq!(take_complete(&mut pending, b""), None);
}

#[test]
fn blank_redraws_are_not_shown() {
    assert!(!worth_showing("   ", Chunk::Progress));
    assert!(worth_showing("   ", Chunk::Line));
    assert!(worth_showing(" 5% ", Chunk::Progress));
}

#[test]
fn captured_output_leaves_out_redraws() {
    let mut text = String::new();
    capture_chunk(&mut text, "one", Chunk::Line);
    capture_chunk(&mut text, "50%", Chunk::Progress);
    capture_chunk(&mut text, "two\nthree", Chunk::Line);
    assert_eq!(text, "one\ntwo\nthree\n");
}

#[test]
fn the_context_keeps_the_latest_lines() {
    let mut lines: Vec<String> = Vec::new();
    keep_context(&mut lines, "a\nb");
    assert_eq!(lines, vec!["a", "b"]);
    let many: Vec<String> = (0..450).map(|i| i.to_string()).collect();
    keep_context(&mut lines, &many.join("\n"));
    assert_eq!(lines.len(), CONTEXT_LINES);
    assert_eq!(lines[0], "50");
    assert_eq!(lines[CONTEXT_LINES - 1], "449");
    keep_context(&mut lines, "x");
    assert_eq!(lines.len(), CONTEXT_LINES);
    assert_eq!(lines[0], "51");
    assert_eq!(lines[CONTEXT_LINES - 1], "x");
}

#[test]
fn endings_are_marked() {
    assert_eq!(outcome(Some(0)), Outcome::Done);
    assert_eq!(outcome(Some(20)), Outcome::Notice);
    assert_eq!(outcome(Some(50)), Outcome::Notice);
    assert_eq!(outcome(Some(100)), Outcome::Notice);
    assert_eq!(outcome(Some(126)), Outcome::Dismissed);
    assert_eq!(outcome(Some(127)), Outcome::Failed);
    assert_eq!(outcome(None), Outcome::Failed);
}

#[test]
fn the_pick_button_counts() {
    assert_eq!(continue_label(3, 3), "Continue with All");
    assert_eq!(continue_label(1, 3), "Continue with 1 of 3");
    assert_eq!(continue_label(0, 12), "Continue with 0 of 12");
}

#[test]
fn commands_wait_their_turn() {
    let mut q = slacker_gui::runner::Queue::new();
    assert!(!q.is_busy());
    assert!(q.push("first"));
    assert_eq!(q.next(), Some("first"));
    assert!(q.is_busy());
    assert!(!q.push("second"));
    assert!(!q.push("third"));
    assert_eq!(q.next(), Some("second"));
    assert_eq!(q.next(), Some("third"));
    assert_eq!(q.next(), None);
    assert!(!q.is_busy());
}

#[test]
fn a_pick_needs_at_least_one_item() {
    assert!(!can_continue(0));
    assert!(can_continue(1));
    assert!(can_continue(7));
}

#[test]
fn only_actions_slacker_does_not_confirm_are_asked_first() {
    assert_eq!(confirmation(true, true), Confirmation::SlackerAsks);
    assert_eq!(confirmation(true, false), Confirmation::SlackerAsks);
    assert_eq!(confirmation(false, true), Confirmation::AskFirst { cancel_by_default: true });
    assert_eq!(confirmation(false, false), Confirmation::AskFirst { cancel_by_default: false });
}

#[test]
fn a_way_out_is_offered_only_after_silence() {
    assert!(offer_way_out(4, 4, true, false));
    assert!(!offer_way_out(4, 5, true, false));
    assert!(!offer_way_out(4, 4, false, false));
    assert!(!offer_way_out(4, 4, true, true));
}

#[test]
fn a_whole_capture_keeps_each_finished_line_in_order() {
    let mut text = String::new();
    for (t, k) in [("a", Chunk::Line), ("10%", Chunk::Progress), ("b\nc", Chunk::Line), ("99%", Chunk::Progress)] {
        capture_chunk(&mut text, t, k);
    }
    assert_eq!(text, "a\nb\nc\n");
}

#[test]
fn reads_are_handed_out_whole_and_in_order() {
    let reads: [&[u8]; 4] = [b"one\ntw", b"o", b"\nthree\nfo", b"ur"];
    let mut pending = Vec::new();
    let mut handed = Vec::new();
    for r in reads {
        if let Some(c) = take_complete(&mut pending, r) {
            assert!(c.ends_with(b"\n"));
            handed.extend_from_slice(&c);
        }
    }
    assert_eq!(handed, b"one\ntwo\nthree\n".to_vec());
    assert_eq!(pending, b"four".to_vec());
}
