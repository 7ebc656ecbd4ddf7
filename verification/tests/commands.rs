use slacker_gui::commands::{
    check_updates, find_mirror, freeze, frozen_list, history_installed, history_recent, info,
    install, install_new, list_repos, pin, pin_list, pri_repo, reinstall, remove, rule_text,
    search, show_changelog, single_name, status, unfreeze, unpin, update, upgrade_all, version,
    Privilege, Spec,
};

fn every_spec() -> Vec<Spec> {
    let n = vec!["vim".to_string()];
    vec![
        version(),
        status(),
        search("vim"),
        info("vim"),
        list_repos(),
        find_mirror(),
        show_changelog(None),
        show_changelog(Some("conraid")),
        check_updates(),
        history_recent(10),
        history_installed(),
        frozen_list(),
        pin_list(),
        freeze("kde/"),
        pin("alienbob", "vlc"),
        pri_repo(61, "alienbob"),
        update(),
        install_new(),
        upgrade_all(),
        install(&n),
        reinstall(&n),
        remove(&n),
        unfreeze("kde/"),
        unpin("vlc"),
    ]
}

#[test]
fn no_command_answers_for_the_user() {
    for s in every_spec() {
        assert!(
            !s.args.iter().any(|a| a == "--yes" || a == "-y" || a == "--dry-run"),
            "{:?}",
            s.args
        );
    }
}

#[test]
fn changes_run_as_root_and_reads_as_the_user() {
    let n = vec!["vim".to_string()];
    for s in [freeze("x"), pin("a", "b"), pri_repo(1, "a"), update(), install_new(), upgrade_all(),
              install(&n), reinstall(&n), remove(&n), unfreeze("x"), unpin("b"), frozen_list(), pin_list()] {
        assert_eq!(s.privilege, Privilege::Root, "{:?}", s.args);
    }
    for s in [version(), status(), search("vim"), info("vim"), list_repos(), find_mirror(),
              show_changelog(None), check_updates(), history_recent(10), history_installed()] {
        assert_eq!(s.privilege, Privilege::User, "{:?}", s.args);
    }
}

#[test]
fn only_unfreeze_and_unpin_change_without_asking() {
    let n = vec!["vim".to_string()];
    for s in [freeze("x"), pin("a", "b"), pri_repo(1, "a"), update(), install_new(), upgrade_all(),
              install(&n), reinstall(&n), remove(&n)] {
        assert!(s.confirms, "{:?}", s.args);
    }
    assert!(!unfreeze("x").confirms && !unpin("b").confirms);
}

#[test]
fn arguments_are_exactly_what_slacker_expects() {
    assert_eq!(search("vim").args, vec!["search", "vim"]);
    assert_eq!(info("vim").args, vec!["info", "vim"]);
    assert_eq!(history_recent(300).args, vec!["history", "--last", "300"]);
    assert_eq!(show_changelog(Some("conraid")).args, vec!["show-changelog", "conraid"]);
    assert_eq!(frozen_list().args, vec!["frozen"]);
    assert_eq!(pin_list().args, vec!["pin"]);
    assert_eq!(freeze("@testing kernel-generic").args, vec!["frozen", "@testing kernel-generic"]);
    assert_eq!(pin("alienbob", "vlc").args, vec!["pin", "alienbob:vlc"]);
    assert_eq!(pri_repo(61, "alienbob").args, vec!["pri-repo", "61", "alienbob"]);
    assert_eq!(unfreeze("fcitx5*").args, vec!["unfrozen", "fcitx5*"]);
    assert_eq!(unpin("vlc").args, vec!["unpin", "vlc"]);
    assert_eq!(upgrade_all().args, vec!["upgrade-all"]);
}

#[test]
fn typed_rules_are_checked() {
    assert_eq!(rule_text(" @alienbob vlc ").unwrap(), "@alienbob vlc");
    assert!(rule_text("").is_err());
    assert!(rule_text("--yes").is_err());
}

#[test]
fn typed_names_are_checked() {
    assert_eq!(single_name("  vim ").unwrap(), "vim");
    assert!(single_name("  ").is_err());
    assert!(single_name("vim emacs").is_err());
    assert!(single_name("--yes").is_err());
    assert!(single_name("a\u{7}b").is_err());
}

#[test]
fn every_refusal_says_why() {
    assert_eq!(rule_text("   ").unwrap_err(), "Type a rule.");
    assert_eq!(rule_text(" -y").unwrap_err(), "A rule cannot start with \u{201c}-\u{201d}.");
    assert_eq!(rule_text("a\u{1b}b").unwrap_err(), "The rule contains control characters.");
    assert_eq!(single_name("").unwrap_err(), "Type a package name.");
    assert_eq!(single_name("a b").unwrap_err(), "Search takes one exact package name.");
    assert_eq!(
        single_name(" --yes ").unwrap_err(),
        "\u{201c}--yes\u{201d} starts with \u{201c}-\u{201d} and would be read as an option."
    );
    assert_eq!(single_name("a\u{85}b").unwrap_err(), "Search takes one exact package name.");
    assert_eq!(single_name("a\u{9f}b").unwrap_err(), "The name contains control characters.");
}

#[test]
fn typed_text_keeps_inner_spaces_of_a_rule() {
    assert_eq!(rule_text("\t@alienbob  vlc\n").unwrap(), "@alienbob  vlc");
    assert_eq!(single_name("\u{3000}vim\u{3000}").unwrap(), "vim");
}

#[test]
fn checked_names_never_make_slacker_answer() {
    for typed in ["vim", " fcitx5* ", "@testing kernel", "kde/"] {
        if let Ok(rule) = rule_text(typed) {
            let s = freeze(&rule);
            assert!(!s.args.iter().any(|a| a == "--yes" || a == "-y" || a == "--dry-run"));
        }
    }
    for typed in ["--yes", "-y", "--dry-run"] {
        assert!(rule_text(typed).is_err());
        assert!(single_name(typed).is_err());
    }
}

#[test]
fn history_and_priorities_are_written_in_decimal() {
    assert_eq!(history_recent(0).args, vec!["history", "--last", "0"]);
    assert_eq!(pri_repo(4294967295, "x").args, vec!["pri-repo", "4294967295", "x"]);
    assert_eq!(show_changelog(None).args, vec!["show-changelog"]);
    assert_eq!(history_installed().args, vec!["history", "--installed"]);
    assert_eq!(version().args, vec!["--version"]);
}
