use slacker_gui::parse::prompt::{detect, Item, Question};
use slacker_gui::parse::rules::{parse_frozen, parse_pins, Frozen, Pins};
use slacker_gui::parse::status::{match_label, Mark};
use slacker_gui::parse::{history, mirrors, repos, search, split_columns, status, updates};

fn lines(s: &str) -> Vec<&str> {
    s.lines().collect()
}

#[test]
fn columns() {
    assert_eq!(split_columns("  a b   c  d "), vec!["a b", "c", "d"]);
    assert!(split_columns("   ").is_empty());
}

#[test]
fn columns_keep_single_spaces_and_tabs() {
    assert_eq!(split_columns("a\tb  c"), vec!["a\tb", "c"]);
    assert_eq!(split_columns("one"), vec!["one"]);
    assert_eq!(split_columns("x   "), vec!["x"]);
    for c in split_columns("  p  q r   s \t t  ") {
        assert!(!c.is_empty() && !c.contains("  ") && !c.starts_with(char::is_whitespace));
    }
}

/// Nasty inputs every parser must survive without panicking.
fn inputs() -> Vec<String> {
    let mut v: Vec<String> = vec![
        String::new(),
        "\n\n\n".into(),
        "   ".into(),
        "\u{fffd}".into(),
        "Ο πακέτο δεν βρέθηκε".into(),
        "ΑΒΓΔ-01-01 10:00  + installed    x  1-1  [r]".into(),
        "  1. ΑΒ   205ms in sync       https://x/".into(),
        "[ΑΒ] installed   πακέτο-1.0  περιγραφή".into(),
        "  ✓ Ελληνικά  detail".into(),
        "   200 | ΑΒΓ | 0 | all | file:///x  (immutable)".into(),
    ];
    for line in [
        "[slackware] installed   emacs-31.1  emacs (GNU Emacs)  (also: extras emacs-31.1)",
        "2026-09-14 22:10  \u{2191} upgraded     glibc    2.44-4 \u{2192} 2.44-5  [slackware]",
        "   1. bg    205ms 1d 23h behind https://mirrors.netix.net/slackware/",
        "   200 | patches    |    0 | all    | file:////x/TREE/patches  (immutable)  (subtree)",
        "  \u{2713} Repo release all match this system (-current)",
        "  slackware  updates pending",
        "  vlc -> alienbob",
    ] {
        for i in 0..=line.len() {
            if line.is_char_boundary(i) {
                v.push(line[..i].to_string());
            }
        }
    }
    v.push("x".repeat(100_000));
    v
}

#[test]
fn no_parser_panics_on_junk() {
    for s in inputs() {
        let _ = search::parse(&s);
        let _ = status::parse(&s);
        let _ = repos::parse(&s);
        let _ = updates::parse(&s);
        let _ = history::parse(&s);
        let _ = parse_frozen(&s);
        let _ = parse_pins(&s);
        let f = mirrors::parse(&s);
        let _ = mirrors::suggestions(&f, 3);
        let _ = split_columns(&s);
    }
}

#[test]
fn confirm_is_yes_no_with_no_as_default() {
    let q = detect(&[], "Proceed with installation? [y/N] ").unwrap();
    assert_eq!(q, Question::YesNo { text: "Proceed with installation?".into(), default_yes: false });
}

#[test]
fn conflicts_choice_reads_every_option() {
    let before = lines(
        "  ATTENTION: 1 package conflict with what is already installed:\n    \
         foo conflicts with the installed bar-2.0-x86_64-1\n    \
         [c]ontinue   install anyway, leave the conflicting package(s)\n    \
         [r]emove     removepkg bar first, then continue\n    \
         [a]bort      cancel, change nothing (default)",
    );
    let Some(Question::Choice { heading, options }) = detect(&before, "  Choice [c/r/a]: ") else {
        panic!("not a choice")
    };
    assert_eq!(heading.as_deref(), Some("foo conflicts with the installed bar-2.0-x86_64-1"));
    let keys: Vec<&str> = options.iter().map(|o| o.key.as_str()).collect();
    assert_eq!(keys, ["c", "r", "a"]);
    assert_eq!(options[0].label, "continue");
    assert_eq!(options[1].detail, "removepkg bar first, then continue");
    assert!(options[2].default && !options[0].default);
    assert_eq!(options[2].detail, "cancel, change nothing");
}

#[test]
fn keys_inside_a_word_are_found() {
    let before = lines(
        "    [s]kip      keep the installed version (default)\n    \
         [r]eplace   install the conraid's version instead\n    \
         skip-[a]ll  keep installed for this and all later conflicts\n    \
         a[b]ort     cancel the whole operation, change nothing more",
    );
    let Some(Question::Choice { options, .. }) = detect(&before, "  Choice [s/r/a/b]: ") else {
        panic!("not a choice")
    };
    let labels: Vec<&str> = options.iter().map(|o| o.label.as_str()).collect();
    assert_eq!(labels, ["skip", "replace", "skip-all", "abort"]);
    assert!(options[0].default);
}

#[test]
fn protected_dep_choice_has_its_heading() {
    let before = lines(
        "\n  'libfoo' (needed by 'bar'):\n    \
         [k]eep      keep the installed SBo (default)\n    \
         [r]eplace   install conraid instead\n    \
         keep-[a]ll  keep this and every remaining one\n    \
         [q]uit      cancel the whole operation, change nothing",
    );
    let Some(Question::Choice { heading, options }) = detect(&before, "  Choice [k/r/a/q]: ") else {
        panic!("not a choice")
    };
    assert_eq!(heading.as_deref(), Some("'libfoo' (needed by 'bar'):"));
    assert_eq!(options.len(), 4);
    assert_eq!(options[3].label, "quit");
}

#[test]
fn package_picker_lists_the_numbered_lines() {
    let before = lines(
        "'upgrade' matched 3 packages:\n    \
         1) [slackware] glibc-2.44-x86_64-5\n    \
         2) [slackware] vim-9.1.2-x86_64-1\n    \
         3) [conraid] foo-1.0-x86_64-1cf -> foo-1.1-x86_64-1cf",
    );
    let q = detect(
        &before,
        "Enter numbers to upgrade (e.g. 1 3 5 or 2-4), [Enter] for all, [n] to cancel: ",
    )
    .unwrap();
    let Question::Pick { heading, items, .. } = &q else { panic!("not a pick") };
    assert_eq!(heading, "'upgrade' matched 3 packages:");
    assert_eq!(items.len(), 3);
    assert_eq!(items[0], Item { number: 1, text: "[slackware] glibc-2.44-x86_64-5".into() });
    assert_eq!(q.pick_answer(&[1, 2, 3]).as_deref(), Some(""));
    assert_eq!(q.pick_answer(&[]).as_deref(), Some("n"));
    assert_eq!(q.pick_answer(&[1, 3]).as_deref(), Some("1 3"));
}

#[test]
fn update_offers_only_the_repos_that_need_it() {
    let before = lines(
        "   #  Repo        Pri  Status\n  \
         -------------------------------------\n  \
         -  patches     200  up-to-date\n   \
         1  slackware   100  updates available\n   \
         2  conraid      80  unreachable (will retry)\n",
    );
    let q = detect(&before, "2 repo(s) to update. Update [a]ll / numbers (e.g. 1 2) / [n]one? [a]: ").unwrap();
    let Question::Pick { heading, items, all, none } = &q else { panic!("not a pick") };
    assert_eq!(heading, "2 repo(s) to update");
    assert_eq!(items.len(), 2);
    assert_eq!(items[1].text, "conraid \u{2014} unreachable (will retry)");
    assert_eq!((*all, *none), ("a", "n"));
    assert_eq!(q.pick_answer(&[2]).as_deref(), Some("2"));
}

#[test]
fn a_progress_line_is_not_a_question() {
    assert_eq!(detect(&[], "    glibc-2.44-x86_64-5.txz: 80.0 / 100.0 MB (80%)    "), None);
    assert_eq!(detect(&[], "Upgrading glibc..."), None);
    assert_eq!(detect(&[], ""), None);
}

#[test]
fn a_choice_without_option_lines_still_answers_with_the_keys() {
    let Some(Question::Choice { options, .. }) = detect(&[], "Choice [y/n]:") else { panic!() };
    assert_eq!(options.iter().map(|o| o.label.as_str()).collect::<Vec<_>>(), ["y", "n"]);
}

#[test]
fn a_picked_answer_reads_back_as_the_numbers() {
    let before = lines("'upgrade' matched 4 packages:\n    1) a\n    2) b\n    3) c\n    4) d");
    let q = detect(&before, "Enter numbers to upgrade (e.g. 1 3 5 or 2-4), [Enter] for all, [n] to cancel: ").unwrap();
    let chosen = [4, 1, 3];
    let answer = q.pick_answer(&chosen).unwrap();
    assert_eq!(answer, "4 1 3");
    let back: Vec<u32> = answer.split(' ').map(|w| w.parse().unwrap()).collect();
    assert_eq!(back, chosen);
    let yn = detect(&[], "Proceed? [Y/n]").unwrap();
    assert_eq!(yn, Question::YesNo { text: "Proceed?".into(), default_yes: true });
    assert_eq!(yn.pick_answer(&[1]), None);
}

#[test]
fn frozen_empty_from_capture() {
    let text = "No frozen rules set.\n  to add a rule: `frozen <rule>`, e.g. `frozen vlc`, `frozen kde/`, `frozen \"@alienbob vlc\"`\n";
    assert_eq!(parse_frozen(text), Frozen::default());
}

#[test]
fn frozen_rules() {
    let text = "Current frozen rules:\n  sbopkg\n  fcitx5*\n  @testing xf86-.*-202.*\n  @alienbob 100% vlc\n  kde/\n  to add a rule: `frozen <rule>`, e.g. `frozen vlc`\n";
    let f = parse_frozen(text);
    assert!(f.unrecognized.is_empty());
    assert_eq!(f.rules, vec!["sbopkg", "fcitx5*", "@testing xf86-.*-202.*", "@alienbob 100% vlc", "kde/"]);
}

#[test]
fn pins_empty_from_capture() {
    let text = "No pins set.\n  to add a pin: `pin repo:package`, e.g. `pin alienbob:vlc`\n";
    assert_eq!(parse_pins(text), Pins::default());
}

#[test]
fn pins_listed() {
    let text = "Current pins (package -> repo):\n  vlc -> alienbob\n  python3.11 -> conraid\n  gtk+ -> slackware\n  to add a pin: `pin repo:package`, e.g. `pin alienbob:vlc`\n";
    let p = parse_pins(text);
    assert!(p.unrecognized.is_empty());
    assert_eq!(
        p.pins,
        vec![
            ("vlc".to_string(), "alienbob".to_string()),
            ("python3.11".to_string(), "conraid".to_string()),
            ("gtk+".to_string(), "slackware".to_string()),
        ]
    );
}

#[test]
fn refused_authorization_is_not_a_list() {
    let p = parse_pins("Error executing command as another user: Not authorized\n");
    assert!(p.pins.is_empty());
    assert_eq!(p.unrecognized.len(), 1);
}

#[test]
fn prefix_labels_do_not_collide() {
    assert_eq!(match_label("Config dir /etc/slacker does not exist"), Some(("Config dir", "/etc/slacker does not exist")));
    assert_eq!(match_label("Configs    3 pending"), Some(("Configs", "3 pending")));
    assert_eq!(match_label("Config     repos and mirrors parse"), Some(("Config", "repos and mirrors parse")));
    assert_eq!(match_label("Repos      8 configured"), Some(("Repos", "8 configured")));
    assert_eq!(match_label("Nonsense   x"), None);
}

#[test]
fn early_exit_is_kept_as_messages() {
    let s = status::parse("Environment\n  \u{2717} Config dir /etc/slacker does not exist\n\n! create it with a `repos` file\nslacker: error: configuration directory is missing\n");
    assert!(s.unrecognized.is_empty());
    assert_eq!(s.sections[0].rows[0].mark, Mark::Bad);
    let v = s.verdict.unwrap();
    assert!(!v.all_good);
    assert_eq!(s.messages, vec!["slacker: error: configuration directory is missing"]);
}

#[test]
fn empty_history_is_a_message() {
    let h = history::parse("No matching package history.\n");
    assert!(h.events.is_empty());
    assert_eq!(h.messages, vec!["No matching package history."]);
}

#[test]
fn errors_are_kept() {
    let f = mirrors::parse("Finding the fastest up-to-date Slackware mirror\nslacker: error: no https mirrors found in the mirror list\n");
    assert!(f.ranked.is_empty());
    assert_eq!(f.unrecognized.len(), 1);
}

#[test]
fn history_reads_every_kind_of_change() {
    let text = "2026-09-14 22:10  \u{2191} upgraded     glibc    2.44-4 \u{2192} 2.44-5  [slackware]\n\
                2026-09-13 08:01  + installed    foo      1.0-1  [SBo]\n\
                2026-09-12 07:00  \u{2212} removed      oldpkg   0.9-1  [conraid]\n\
                2026-09-11 06:00  \u{21BB} reinstalled  vim      9.1-1  [slackware]\n";
    let h = history::parse(text);
    assert!(h.messages.is_empty(), "{:?}", h.messages);
    assert_eq!(h.events.len(), 4);
    assert_eq!(h.events[0].kind, history::Kind::Upgraded);
    assert_eq!(h.events[0].detail, "2.44-4 \u{2192} 2.44-5");
    assert_eq!(h.events[1].source, "SBo");
    assert_eq!(h.events[1].when, "2026-09-13 08:01");
    assert_eq!(h.events[2].name, "oldpkg");
    assert_eq!(h.events[3].kind, history::Kind::Reinstalled);
}

#[test]
fn stale_mirrors_are_not_offered() {
    let mut f = mirrors::FindMirror::default();
    f.validated = Some("today".to_string());
    for (rank, url, fresh) in [
        (1u32, "https://a.example/slackware/", mirrors::Freshness::Behind("2d".to_string())),
        (2, "https://b.example/slackware", mirrors::Freshness::InSync),
        (3, "https://c.example/slackware/", mirrors::Freshness::InSync),
    ] {
        f.ranked.push(mirrors::Mirror {
            rank,
            country: "nl".to_string(),
            latency_ms: 10 * rank,
            freshness: fresh,
            url: url.to_string(),
            yours: false,
        });
    }
    f.suggested = vec!["https://a.example/slackware/slackware64-current/".to_string()];
    assert_eq!(
        mirrors::suggestions(&f, 3),
        mirrors::Suggestions::InSync(vec![
            "https://b.example/slackware/slackware64-current/".to_string(),
            "https://c.example/slackware/slackware64-current/".to_string(),
        ])
    );
    assert_eq!(
        mirrors::suggestions(&f, 1),
        mirrors::Suggestions::InSync(vec!["https://b.example/slackware/slackware64-current/".to_string()])
    );
    assert_eq!(mirrors::suggestions(&f, 0), mirrors::Suggestions::NoneInSync);
    for m in f.ranked.iter_mut() {
        m.freshness = mirrors::Freshness::Behind("1d".to_string());
    }
    assert_eq!(mirrors::suggestions(&f, 3), mirrors::Suggestions::NoneInSync);
    f.validated = None;
    assert_eq!(
        mirrors::suggestions(&f, 3),
        mirrors::Suggestions::Unchecked(vec!["https://a.example/slackware/slackware64-current/".to_string()])
    );
}

#[test]
fn unrecognised_lines_are_kept_as_printed() {
    let text = "Current frozen rules:\n  vim\n\tstray line  \nmore\n";
    let f = parse_frozen(text);
    assert_eq!(f.rules, vec!["vim"]);
    assert_eq!(f.unrecognized, vec!["\tstray line  ", "more"]);
    let r = repos::parse("what is this\n   200 | x\n");
    for u in &r.unrecognized {
        assert!(text.lines().chain("what is this\n   200 | x\n".lines()).any(|l| l == u));
    }
}

#[test]
fn the_longest_label_is_found() {
    assert_eq!(match_label("Repo release all match"), Some(("Repo release", "all match")));
    assert_eq!(match_label("Repos 3"), Some(("Repos", "3")));
    assert_eq!(match_label("Repo trust  ok"), Some(("Repo trust", "ok")));
    assert_eq!(match_label("           continued"), Some(("", "continued")));
    assert_eq!(match_label("Reposx 3"), None);
}

#[test]
fn mirror_lists_use_three_schemes() {
    assert!(mirrors::is_url("https://a/"));
    assert!(mirrors::is_url("http://a/"));
    assert!(mirrors::is_url("file:///srv/mirror/"));
    assert!(!mirrors::is_url("ftp://a/"));
    assert!(!mirrors::is_url(" https://a/"));
}

#[test]
fn option_keys_are_letters_or_digits() {
    let Some(Question::Choice { heading, options }) = detect(&["  [é]tendre  tout afficher"], "Choice [é]:") else {
        panic!("not a choice")
    };
    assert_eq!(heading, None);
    assert_eq!((options[0].label.as_str(), options[0].detail.as_str()), ("étendre", "tout afficher"));
    let Some(Question::Choice { heading, options }) = detect(&["  [-]moins  rien"], "Choice [-]:") else {
        panic!("not a choice")
    };
    assert_eq!(heading.as_deref(), Some("[-]moins  rien"));
    assert_eq!((options[0].label.as_str(), options[0].detail.as_str()), ("-", ""));
}

#[test]
fn columns_put_back_together_give_the_trimmed_line() {
    let line = "  vim   9.1.0   installed \t ";
    let cols = split_columns(line);
    assert_eq!(cols, vec!["vim", "9.1.0", "installed"]);
    assert!(cols.iter().all(|c| !c.ends_with(' ')));
    assert!(split_columns(" \t ").is_empty());
    assert_eq!(split_columns("one two"), vec!["one two"]);
}

#[test]
fn a_bare_choice_offers_each_key_under_its_own_name() {
    match detect(&[], "Choice [y/n/q]:") {
        Some(Question::Choice { heading, options }) => {
            assert_eq!(heading, None);
            let keys: Vec<&str> = options.iter().map(|o| o.key.as_str()).collect();
            assert_eq!(keys, vec!["y", "n", "q"]);
            assert!(options.iter().all(|o| o.label == o.key && o.detail.is_empty() && !o.default));
        }
        other => panic!("{other:?}"),
    }
}

#[test]
fn status_reads_only_known_titles_and_labels() {
    let s = status::parse("Setup\n  ✓ Mirror     ok\nNotASection\n  ✓ Nonsense   x\n");
    assert_eq!(s.sections.len(), 1);
    assert_eq!(s.sections[0].title, "Setup");
    assert!(s.sections[0].rows.iter().all(|r| r.label == "Mirror"));
    assert!(s.verdict.is_some());
    assert_eq!(s.unrecognized, vec!["  ✓ Nonsense   x".to_string()]);
}
