use slacker_gui::resolve::{from_candidates, from_override, CANDIDATES, ENV_OVERRIDE};

#[test]
fn the_first_present_candidate_wins() {
    let r = from_candidates(&[false, true, false, false]);
    assert_eq!(r.path, "/usr/sbin/slacker");
    assert!(r.found);
    assert!(r.notes.is_empty());
}

#[test]
fn several_candidates_are_named() {
    let r = from_candidates(&[true, false, true, true]);
    assert_eq!(r.path, "/usr/bin/slacker");
    assert!(r.found);
    assert_eq!(
        r.notes,
        vec!["Also found /usr/local/bin/slacker, /usr/local/sbin/slacker. Check that /usr/bin/slacker is the build you expect, or set SLACKER_BIN."]
    );
}

#[test]
fn no_candidate_is_reported() {
    let r = from_candidates(&[false; 4]);
    assert_eq!(r.path, CANDIDATES[0]);
    assert!(!r.found);
    assert_eq!(
        r.notes,
        vec!["slacker was not found in /usr/bin/slacker, /usr/sbin/slacker, /usr/local/bin/slacker, /usr/local/sbin/slacker. Set SLACKER_BIN to its full path."]
    );
}

#[test]
fn the_override_must_be_absolute_and_executable() {
    assert_eq!(ENV_OVERRIDE, "SLACKER_BIN");
    let r = from_override("bin/slacker".to_string(), true);
    assert!(!r.found);
    assert_eq!(r.notes, vec!["Using SLACKER_BIN.", "SLACKER_BIN must be an absolute path."]);
    let r = from_override("/opt/slacker".to_string(), false);
    assert!(!r.found);
    assert_eq!(r.notes, vec!["Using SLACKER_BIN.", "/opt/slacker is not an executable file."]);
    let r = from_override("/opt/slacker".to_string(), true);
    assert!(r.found);
    assert_eq!(r.path, "/opt/slacker");
    assert_eq!(r.notes, vec!["Using SLACKER_BIN."]);
    let r = from_override(String::new(), true);
    assert!(!r.found);
}
