use slacker_gui::commands::Privilege;
use slacker_gui::edit::{chosen_priority, feedback, in_use, initial_priority, priority_changed};
use slacker_gui::pages::{changelog, explain, history, mirrors, other_lines, overview, packages,
    pinned_repo, repositories, rules, search, updates, Look, Tone};
use slacker_gui::parse::history::{Event, Kind};
use slacker_gui::parse::mirrors::{FindMirror, Freshness};
use slacker_gui::parse::repos::{Repo, RepoState, Repos};
use slacker_gui::parse::search::Hit;
use slacker_gui::parse::status::{ItemKind, Mark, Row};
use slacker_gui::parse::updates::{State, Updates};
use slacker_gui::runner::Status;
use slacker_gui::window::Navigation;

fn updates_with(states: &[State]) -> Updates {
    let mut u = Updates::default();
    for (i, s) in states.iter().enumerate() {
        u.repos.push((format!("r{i}"), *s));
    }
    u
}

#[test]
fn the_updates_headline_puts_news_first() {
    let ok = Status::Exited(0);
    let s = updates::summary(&Status::Exited(1), &updates_with(&[State::Pending]));
    assert_eq!((s.look, s.title.as_str(), s.detail.as_str()), (Look::Bad, "Could not check for updates", "slacker exited with status 1"));
    let s = updates::summary(&ok, &updates_with(&[State::Pending, State::Unreachable]));
    assert_eq!((s.look, s.title.as_str()), (Look::Attention, "1 repository has published new data"));
    assert_eq!(s.detail, "Update the package lists (step 1), then steps 2 and 3.");
    let s = updates::summary(&Status::Exited(100), &updates_with(&[State::Pending, State::Pending]));
    assert_eq!(s.title, "2 repositories have published new data");
    let s = updates::summary(&ok, &updates_with(&[State::UpToDate, State::Unknown, State::Unreachable]));
    assert_eq!((s.look, s.title.as_str(), s.detail.as_str()), (Look::Attention, "Some repositories could not be checked", "2 of 3 need attention."));
    let s = updates::summary(&ok, &updates_with(&[State::UpToDate, State::UpToDate]));
    assert_eq!(s.look, Look::Good);
    assert_eq!(s.title, "The package lists are current");
    assert!(s.detail.starts_with("2 repositories checked. "));
    assert_eq!(updates::state_pill(State::Unreachable), ("unreachable, check its URL", Tone::Error));
    assert!(updates::is_warning("WARNING: verification is OFF"));
    assert!(!updates::is_warning("Everything up-to-date."));
}

fn row(mark: Mark, label: &str, extra: &[&str]) -> Row {
    Row { mark, label: label.to_string(), detail: "d".to_string(), extra: extra.iter().map(|s| s.to_string()).collect() }
}

#[test]
fn the_doctor_counts_what_needs_attention() {
    assert_eq!(overview::attention(&vec![row(Mark::Pass, "a", &[])]), "");
    assert_eq!(overview::attention(&vec![row(Mark::Warn, "a", &[]), row(Mark::Info, "b", &[])]), "1 item needs attention");
    assert_eq!(overview::attention(&vec![row(Mark::Warn, "a", &[]), row(Mark::Bad, "b", &[])]), "2 items need attention");
    assert_eq!(overview::row_text(&row(Mark::Pass, "", &["x", "y"])), ("\u{2003}".to_string(), "d\nx\ny".to_string()));
    assert_eq!(overview::row_text(&row(Mark::Pass, "Repos", &[])), ("Repos".to_string(), "d".to_string()));
    assert_eq!(overview::version_line("slacker 1.2.3 \nmore\n"), "slacker 1.2.3");
    assert_eq!(overview::version_line(""), "");
}

#[test]
fn the_doctor_headline_follows_the_verdict() {
    let report = slacker_gui::parse::status::parse(
        "Environment\n  \u{2717} Config dir /etc/slacker does not exist\n\n! create it with a `repos` file\nslacker: error: configuration directory is missing\n",
    );
    let h = overview::hero(&report);
    assert_eq!(h.look, Look::Bad);
    assert_eq!(overview::other_output(&report).as_deref(), Some("slacker: error: configuration directory is missing"));
    let empty = slacker_gui::parse::status::parse("");
    let h = overview::hero(&empty);
    assert_eq!((h.look, h.headline.as_str()), (Look::Attention, "slacker did not finish its report"));
    assert!(h.steps.is_empty() && h.others.is_empty());
    assert_eq!(overview::other_output(&empty), None);
}

#[test]
fn doctor_steps_are_numbered() {
    let mut report = slacker_gui::parse::status::Status::default();
    report.verdict = Some(slacker_gui::parse::status::Verdict {
        headline: "2 things to do".to_string(),
        all_good: false,
        items: vec![
            (ItemKind::Step, "slacker update".to_string()),
            (ItemKind::Note, "a note".to_string()),
            (ItemKind::Step, "slacker upgrade-all".to_string()),
        ],
    });
    let h = overview::hero(&report);
    assert_eq!(h.steps, vec!["1  slacker update", "2  slacker upgrade-all"]);
    assert_eq!(h.others, vec![(ItemKind::Note, "a note".to_string())]);
    assert_eq!(h.look, Look::Attention);
}

fn event(name: &str, source: &str) -> Event {
    Event { when: "2026-09-14 22:10".to_string(), kind: Kind::Installed, name: name.to_string(), detail: "1".to_string(), source: source.to_string() }
}

#[test]
fn installed_packages_are_listed_by_name() {
    let events = vec![event("vim", "s"), event("Emacs", "s"), event("bash", "s"), event("emacs", "s"), event("Ämacs", "s")];
    let order = packages::name_order(&events);
    let names: Vec<&str> = order.iter().map(|&k| events[k].name.as_str()).collect();
    assert_eq!(names, ["bash", "Emacs", "emacs", "vim", "Ämacs"]);
    assert_eq!(packages::name_order(&Vec::new()), Vec::<usize>::new());
}

#[test]
fn the_filter_ignores_case() {
    let events = vec![event("VIM", "s"), event("neovim", "s"), event("bash", "s")];
    assert_eq!(packages::matching(&events, "Vi"), vec![0, 1]);
    assert_eq!(packages::matching(&events, ""), vec![0, 1, 2]);
    assert_eq!(packages::matching(&events, "zsh"), Vec::<usize>::new());
    assert_eq!(packages::count_line(3, 3, ""), "3 packages installed");
    assert_eq!(packages::count_line(3, 2, "vi"), "2 of 3 packages match");
    assert_eq!(packages::shown(250), (200, true));
    assert_eq!(packages::shown(12), (12, false));
}

fn repo(name: &str, priority: i32, state: RepoState, flags: &[&str], verify: &str, installed: Option<u32>) -> Repo {
    Repo {
        priority,
        name: name.to_string(),
        installed,
        verify: verify.to_string(),
        url: "https://x".to_string(),
        flags: flags.iter().map(|s| s.to_string()).collect(),
        state,
    }
}

#[test]
fn only_configured_repositories_can_reinstall() {
    let mut r = Repos::default();
    assert_eq!(packages::known_repos(&Status::Exited(0), &r), None);
    r.repos.push(repo("slackware", 100, RepoState::Normal, &[], "all", Some(3)));
    assert_eq!(packages::known_repos(&Status::Exited(1), &r), None);
    let known = packages::known_repos(&Status::Exited(0), &r);
    assert_eq!(known, Some(vec!["slackware".to_string()]));
    assert!(packages::can_reinstall(&known, "slackware"));
    assert!(!packages::can_reinstall(&known, "SBo"));
    assert!(packages::can_reinstall(&None, "SBo"));
}

#[test]
fn repositories_are_badged() {
    let a = repo("a", 10, RepoState::Frozen, &["official", "insecure", "x"], "none", None);
    assert_eq!(
        repositories::badges(&a),
        vec![
            ("frozen".to_string(), Tone::Error),
            ("official".to_string(), Tone::Accent),
            ("insecure".to_string(), Tone::Warning),
            ("x".to_string(), Tone::Neutral),
            ("not verified".to_string(), Tone::Error),
        ]
    );
    let b = repo("b", 200, RepoState::Normal, &[], "gpg", Some(7));
    assert_eq!(repositories::badges(&b), vec![("verify gpg".to_string(), Tone::Warning)]);
    assert_eq!(repositories::installed_text(Some(7)), "7 installed");
    assert_eq!(repositories::installed_text(None), "no metadata");
    let mut r = Repos::default();
    assert_eq!(repositories::top_priority(&r), None);
    r.repos = vec![a, b, repo("c", 50, RepoState::Unreachable, &[], "all", None)];
    assert_eq!(repositories::top_priority(&r), Some(200));
    assert_eq!(repositories::flagged_count(&r), 2);
    r.other_tags = Some("3 [_rtz=2, cf=1]".to_string());
    r.notes = vec!["a note".to_string()];
    assert_eq!(
        repositories::notes(&r),
        vec![
            ("Installed under other build tags".to_string(), "3 [_rtz=2, cf=1]".to_string()),
            ("a note".to_string(), String::new()),
        ]
    );
}

#[test]
fn search_rows_offer_what_fits() {
    let mut hit = Hit {
        source: "slackware".to_string(),
        installed: false,
        name: "emacs".to_string(),
        version: "31.1".to_string(),
        summary: "emacs (GNU Emacs)".to_string(),
        blacklisted: false,
        also: vec![],
    };
    assert_eq!(search::hit_subtitle(&hit), "GNU Emacs");
    assert_eq!(search::hit_action(&hit), Some(search::HitAction::Install));
    hit.also = vec!["extras emacs-31.1".to_string(), "conraid emacs-30".to_string()];
    assert_eq!(search::hit_subtitle(&hit), "GNU Emacs\nAlso in: extras emacs-31.1, conraid emacs-30");
    hit.summary = "emacs".to_string();
    hit.blacklisted = true;
    assert_eq!(search::hit_subtitle(&hit), "emacs\nAlso in: extras emacs-31.1, conraid emacs-30");
    assert_eq!(search::hit_action(&hit), None);
    hit.installed = true;
    assert_eq!(search::hit_action(&hit), Some(search::HitAction::Remove));
}

#[test]
fn mirror_rows_are_described() {
    assert_eq!(mirrors::host("https://mirrors.netix.net/slackware/"), "mirrors.netix.net");
    assert_eq!(mirrors::host("ftp://a"), "a");
    assert_eq!(mirrors::host("no-scheme/x"), "no-scheme/x");
    assert_eq!(mirrors::freshness_pill(&Freshness::Behind("1d 23h".to_string())), ("1d 23h behind".to_string(), Tone::Warning));
    assert_eq!(mirrors::freshness_pill(&Freshness::InSync), ("in sync".to_string(), Tone::Success));
    let mut f = FindMirror::default();
    assert_eq!(mirrors::ranking_note(&f), "");
    f.upstream_unreachable = true;
    assert_eq!(mirrors::ranking_note(&f), "Upstream was unreachable: ranked by speed only, freshness unknown");
    f.validated = Some("Mon Sep 14".to_string());
    assert_eq!(mirrors::ranking_note(&f), "Freshness checked against upstream (Mon Sep 14)");
    assert_eq!(mirrors::in_sync_count(&f), 0);
}

#[test]
fn rules_show_their_scope() {
    assert_eq!(rules::rule_parts("@alienbob  vlc "), ("vlc".to_string(), Some("alienbob".to_string())));
    assert_eq!(rules::rule_parts("@testing"), ("@testing".to_string(), None));
    assert_eq!(rules::rule_parts("kde/"), ("kde/".to_string(), None));
    assert!(rules::is_series("kde/"));
    assert!(!rules::is_series("vlc"));
    assert_eq!(rules::locked_text(Some("Stopped by a signal")), "Stopped by a signal.");
    assert_eq!(rules::pin_error(&Status::Exited(0)), None);
    assert_eq!(rules::pin_error(&Status::Exited(126)).as_deref(), Some("Authentication was dismissed; nothing was run"));
}

#[test]
fn a_later_pin_replaces_an_earlier_one() {
    let pins = vec![("vlc".to_string(), "alienbob".to_string()), ("vim".to_string(), "x".to_string()), ("vlc".to_string(), "conraid".to_string())];
    assert_eq!(pinned_repo(&pins, "vlc").as_deref(), Some("conraid"));
    assert_eq!(pinned_repo(&pins, "vim").as_deref(), Some("x"));
    assert_eq!(pinned_repo(&pins, "emacs"), None);
}

#[test]
fn empty_lists_explain_themselves() {
    assert_eq!(explain(&vec![], &Status::Exited(20)), "Nothing found");
    assert_eq!(explain(&vec!["a".to_string(), "b".to_string()], &Status::Exited(0)), "a\nb");
    assert_eq!(other_lines(&vec![], &vec![]), None);
    assert_eq!(other_lines(&vec!["x".to_string()], &vec!["y".to_string()]).as_deref(), Some("x\ny"));
    let _ = Privilege::User;
}

#[test]
fn history_is_grouped_by_day() {
    assert_eq!(history::split_stamp("2026-09-14 22:10"), Some(("2026-09-14".to_string(), "22:10".to_string())));
    assert_eq!(history::split_stamp("short"), None);
    let days: Vec<String> = ["d1", "d1", "d2", "d1"].iter().map(|s| s.to_string()).collect();
    assert_eq!(history::day_groups(&days), vec![(0, 2), (2, 3), (3, 4)]);
    assert_eq!(history::day_groups(&Vec::new()), vec![]);
    assert_eq!(history::verb(Kind::Upgraded), "Upgraded");
}

#[test]
fn the_changelog_stops_at_its_cap() {
    assert_eq!(changelog::take_chunk(0, "a\nb\n"), Some(("a\nb".to_string(), 2)));
    let (text, n) = changelog::take_chunk(changelog::MAX_LINES - 1, "x\ny\nz").unwrap();
    assert_eq!((text.as_str(), n), ("x", changelog::MAX_LINES));
    assert_eq!(changelog::take_chunk(changelog::MAX_LINES, "more"), None);
}

#[test]
fn dialogs_explain_refused_text_once_something_is_typed() {
    let bad: Result<String, String> = Err("Type a rule.".to_string());
    assert_eq!(feedback(&bad, "  ", true), (false, None));
    assert_eq!(feedback(&bad, " -x", true), (false, Some("Type a rule.".to_string())));
    let good: Result<String, String> = Ok("vim".to_string());
    assert_eq!(feedback(&good, "vim", true), (true, None));
    assert_eq!(feedback(&good, "vim", false), (false, None));
}

#[test]
fn the_priority_dialog_lists_the_others() {
    let taken = vec![(100, "slackware".to_string()), (-5, "x".to_string()), (80, "conraid".to_string())];
    assert_eq!(in_use(&taken, "conraid").as_deref(), Some("In use: 100 slackware, -5 x"));
    assert_eq!(in_use(&vec![(1, "a".to_string())], "a"), None);
    assert_eq!(initial_priority(-3), 0);
    assert_eq!(initial_priority(61), 61);
    assert_eq!(chosen_priority(-1), None);
    assert_eq!(chosen_priority(7), Some(7));
}

#[test]
fn pages_load_once_and_again_after_a_change() {
    let mut nav = Navigation::new(3);
    assert!(nav.show(0, false));
    assert!(nav.show(1, false));
    assert!(!nav.show(0, false));
    assert!(nav.show(2, true));
    assert!(nav.show(2, true));
    // page 0 on screen; pages 0 and 1 show system state
    assert!(!nav.show(0, false));
    assert!(nav.system_changed(&[true, true, false]));
    assert!(nav.show(1, false));
    assert!(!nav.show(2, false));
    assert_eq!(nav.current, 2);
    assert!(!nav.system_changed(&[false, true, false]));
}

#[test]
fn the_priority_is_checked_only_once_changed() {
    assert!(!priority_changed(3, 3));
    assert!(priority_changed(4, 3));
    assert!(priority_changed(0, -1));
}

#[test]
fn country_and_version_are_shown_in_capitals() {
    assert_eq!(mirrors::country_pill("de"), Some("DE".to_string()));
    assert_eq!(mirrors::country_pill(""), None);
    assert_eq!(overview::version_caption("slacker 1.2.3"), "SLACKER 1.2.3");
}
