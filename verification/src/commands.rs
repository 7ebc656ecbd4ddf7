//! The only place that decides which slacker command lines are run and
//! whether each one runs as the desktop user or as root.
//!
//! The split follows slacker's own rule: search, info, list-repos, status,
//! check-updates and history are free for anyone; everything that writes
//! needs root.
//!
//! No command carries `--yes`. A command that changes the system asks its
//! own questions — the plan and "Proceed? [y/N]", a package picker, a
//! conflict choice — and they are put to the user as they come. Where nobody
//! answers, slacker reads end of input and takes its own default, which for
//! every change is No.
use vstd::prelude::*;

use crate::text::{
    chars_of, dec, is_control, is_ctrl, is_whitespace, is_ws, owned, push_dec, push_string,
    string_from, string_of, strs, trim, trim_span, u32_text,
};

verus! {

#[derive(Clone, Copy, Debug, PartialEq, Eq, Structural)]
pub enum Privilege {
    /// Runs as the desktop user; never changes the system.
    User,
    /// Runs as root through pkexec.
    Root,
}

#[derive(Clone, Debug)]
pub struct Spec {
    pub args: Vec<String>,
    pub privilege: Privilege,
    /// slacker itself shows what it is about to do and asks before it
    /// writes anything. When false the change happens as soon as the
    /// command runs, so the user is asked first.
    pub confirms: bool,
}

pub struct SpecV {
    pub args: Seq<Seq<char>>,
    pub privilege: Privilege,
    pub confirms: bool,
}

impl View for Spec {
    type V = SpecV;

    open spec fn view(&self) -> SpecV {
        SpecV { args: strs(self.args@), privilege: self.privilege, confirms: self.confirms }
    }
}

/// A command run as the desktop user.
pub open spec fn user_spec(args: Seq<Seq<char>>) -> SpecV {
    SpecV { args, privilege: Privilege::User, confirms: false }
}

/// A command run as root.
pub open spec fn root_spec(args: Seq<Seq<char>>, confirms: bool) -> SpecV {
    SpecV { args, privilege: Privilege::Root, confirms }
}

fn strings(args: &[&str]) -> (r: Vec<String>)
    ensures
        strs(r@) == args@.map_values(|a: &str| a@),
{
    let mut out: Vec<String> = Vec::new();
    let mut k: usize = 0;
    while k < args.len()
        invariant
            k <= args@.len(),
            strs(out@) == args@.map_values(|a: &str| a@).take(k as int),
        decreases args.len() - k,
    {
        push_string(&mut out, owned(args[k]));
        assert(args@.map_values(|a: &str| a@).take(k + 1) =~= args@.map_values(|a: &str| a@).take(
            k as int,
        ).push(args@[k as int]@));
        k = k + 1;
    }
    assert(args@.map_values(|a: &str| a@).take(k as int) =~= args@.map_values(|a: &str| a@));
    out
}

fn user(args: &[&str]) -> (r: Spec)
    ensures
        r@ == user_spec(args@.map_values(|a: &str| a@)),
{
    Spec { args: strings(args), privilege: Privilege::User, confirms: false }
}

fn root(args: &[&str], rest: &[String], confirms: bool) -> (r: Spec)
    ensures
        r@ == root_spec(args@.map_values(|a: &str| a@) + strs(rest@), confirms),
{
    let mut v = strings(args);
    let ghost v0 = strs(v@);
    let mut k: usize = 0;
    while k < rest.len()
        invariant
            k <= rest@.len(),
            strs(v@) == v0 + strs(rest@).take(k as int),
        decreases rest.len() - k,
    {
        push_string(&mut v, rest[k].clone());
        assert(strs(rest@).take(k + 1) =~= strs(rest@).take(k as int).push(rest@[k as int]@));
        assert(strs(v@) =~= v0 + strs(rest@).take(k + 1));
        k = k + 1;
    }
    assert(strs(rest@).take(k as int) =~= strs(rest@));
    Spec { args: v, privilege: Privilege::Root, confirms }
}

// ---- nobody answers for the user ------------------------------------------

/// An argument that would make slacker answer its own questions (`--yes`,
/// `-y`) or only pretend (`--dry-run`).
pub open spec fn answers_for_user(a: Seq<char>) -> bool {
    a == seq!['-', '-', 'y', 'e', 's'] || a == seq!['-', 'y'] || a == seq![
        '-',
        '-',
        'd',
        'r',
        'y',
        '-',
        'r',
        'u',
        'n',
    ]
}

/// No argument of the command line takes a question away from the user.
pub open spec fn lets_slacker_ask(args: Seq<Seq<char>>) -> bool {
    forall|i: int| 0 <= i < args.len() ==> !answers_for_user(#[trigger] args[i])
}

/// Text that slacker cannot read as an option: it does not start with `-`.
pub open spec fn not_an_option(t: Seq<char>) -> bool {
    t.len() == 0 || t[0] != '-'
}

pub open spec fn all_options_free(ts: Seq<Seq<char>>) -> bool {
    forall|i: int| 0 <= i < ts.len() ==> not_an_option(#[trigger] ts[i])
}

/// The decimal digits of a number never start with `-`.
pub proof fn lemma_dec_not_an_option(n: nat)
    ensures
        dec(n).len() > 0,
        not_an_option(dec(n)),
    decreases n,
{
    if n >= 10 {
        lemma_dec_not_an_option(n / 10);
        assert(dec(n)[0] == dec(n / 10)[0]);
    }
}

proof fn lemma_pin_arg(repo: Seq<char>, package: Seq<char>)
    requires
        not_an_option(repo),
    ensures
        not_an_option(repo + seq![':'] + package),
{
    if repo.len() > 0 {
        assert((repo + seq![':'] + package)[0] == repo[0]);
    } else {
        assert((repo + seq![':'] + package)[0] == ':');
    }
}

proof fn lemma_names_ask(head: Seq<Seq<char>>, names: Seq<Seq<char>>)
    requires
        lets_slacker_ask(head),
        all_options_free(names),
    ensures
        lets_slacker_ask(head + names),
{
    assert forall|i: int| 0 <= i < (head + names).len() implies !answers_for_user(
        #[trigger] (head + names)[i],
    ) by {
        if i >= head.len() {
            assert((head + names)[i] == names[i - head.len()]);
            assert(not_an_option(names[i - head.len()]));
        }
    }
}

/// Typed text that passes its check can never be read as an option, so a
/// command line built from it still lets slacker ask its own questions.
pub proof fn checked_text_is_never_an_option(input: Seq<char>)
    ensures
        rule_text_spec(input) matches Ok(t) ==> t.len() > 0 && not_an_option(t) && !answers_for_user(t),
        single_name_spec(input) matches Ok(t) ==> t.len() > 0 && not_an_option(t) && !answers_for_user(t),
{
}

// ---- read-only, desktop user --------------------------------------------

pub fn version() -> (r: Spec)
    ensures
        r@ == user_spec(seq!["--version"@]),
        lets_slacker_ask(r@.args),
{
    let r = user(&["--version"]);
    assert(r@.args =~= seq!["--version"@]);
    proof {
        reveal_strlit("--version");
    }
    r
}

pub fn status() -> (r: Spec)
    ensures
        r@ == user_spec(seq!["status"@]),
        lets_slacker_ask(r@.args),
{
    let r = user(&["status"]);
    assert(r@.args =~= seq!["status"@]);
    proof {
        reveal_strlit("status");
    }
    r
}

/// slacker's search takes exactly one exact name (case-insensitive).
pub fn search(name: &str) -> (r: Spec)
    ensures
        r@ == user_spec(seq!["search"@, name@]),
        not_an_option(name@) ==> lets_slacker_ask(r@.args),
{
    let r = user(&["search", name]);
    assert(r@.args =~= seq!["search"@, name@]);
    proof {
        reveal_strlit("search");
    }
    r
}

/// info takes exactly one name.
pub fn info(name: &str) -> (r: Spec)
    ensures
        r@ == user_spec(seq!["info"@, name@]),
        not_an_option(name@) ==> lets_slacker_ask(r@.args),
{
    let r = user(&["info", name]);
    assert(r@.args =~= seq!["info"@, name@]);
    proof {
        reveal_strlit("info");
    }
    r
}

pub fn list_repos() -> (r: Spec)
    ensures
        r@ == user_spec(seq!["list-repos"@]),
        lets_slacker_ask(r@.args),
{
    let r = user(&["list-repos"]);
    assert(r@.args =~= seq!["list-repos"@]);
    proof {
        reveal_strlit("list-repos");
    }
    r
}

/// Probes the official mirrors; prints suggestions, never edits `mirrors`.
pub fn find_mirror() -> (r: Spec)
    ensures
        r@ == user_spec(seq!["find-mirror"@]),
        lets_slacker_ask(r@.args),
{
    let r = user(&["find-mirror"]);
    assert(r@.args =~= seq!["find-mirror"@]);
    proof {
        reveal_strlit("find-mirror");
    }
    r
}

/// `show-changelog [REPO]`: the official (tracked) repo when no name is
/// given. Always fetched fresh, so it needs the network.
pub fn show_changelog(repo: Option<&str>) -> (r: Spec)
    ensures
        r@ == user_spec(
            match repo {
                Some(n) => seq!["show-changelog"@, n@],
                None => seq!["show-changelog"@],
            },
        ),
        (repo matches Some(n) ==> not_an_option(n@)) ==> lets_slacker_ask(r@.args),
{
    proof {
        reveal_strlit("show-changelog");
    }
    match repo {
        Some(n) => {
            let r = user(&["show-changelog", n]);
            assert(r@.args =~= seq!["show-changelog"@, n@]);
            r
        },
        None => {
            let r = user(&["show-changelog"]);
            assert(r@.args =~= seq!["show-changelog"@]);
            r
        },
    }
}

pub fn check_updates() -> (r: Spec)
    ensures
        r@ == user_spec(seq!["check-updates"@]),
        lets_slacker_ask(r@.args),
{
    let r = user(&["check-updates"]);
    assert(r@.args =~= seq!["check-updates"@]);
    proof {
        reveal_strlit("check-updates");
    }
    r
}

/// The last `last` entries of the history.
pub fn history_recent(last: usize) -> (r: Spec)
    ensures
        r@ == user_spec(seq!["history"@, "--last"@, dec(last as nat)]),
        lets_slacker_ask(r@.args),
{
    let mut d: Vec<char> = Vec::new();
    push_dec(&mut d, last as u64);
    assert(d@ =~= dec(last as nat));
    let n = string_from(&d);
    let mut r = user(&["history", "--last"]);
    let ghost a0 = strs(r.args@);
    push_string(&mut r.args, n);
    assert(r@.args =~= seq!["history"@, "--last"@, dec(last as nat)]);
    proof {
        reveal_strlit("history");
        reveal_strlit("--last");
        lemma_dec_not_an_option(last as nat);
    }
    r
}

pub fn history_installed() -> (r: Spec)
    ensures
        r@ == user_spec(seq!["history"@, "--installed"@]),
        lets_slacker_ask(r@.args),
{
    let r = user(&["history", "--installed"]);
    assert(r@.args =~= seq!["history"@, "--installed"@]);
    proof {
        reveal_strlit("history");
        reveal_strlit("--installed");
    }
    r
}

// ---- listing that slacker allows only as root -----------------------------
// (not in its read-only list; with no argument they only print)

pub fn frozen_list() -> (r: Spec)
    ensures
        r@ == root_spec(seq!["frozen"@], false),
        lets_slacker_ask(r@.args),
{
    let r = root(&["frozen"], &[], false);
    assert(r@.args =~= seq!["frozen"@]);
    proof {
        reveal_strlit("frozen");
    }
    r
}

pub fn pin_list() -> (r: Spec)
    ensures
        r@ == root_spec(seq!["pin"@], false),
        lets_slacker_ask(r@.args),
{
    let r = root(&["pin"], &[], false);
    assert(r@.args =~= seq!["pin"@]);
    proof {
        reveal_strlit("pin");
    }
    r
}

// ---- changes that slacker confirms itself ---------------------------------

/// Prints the rule it will add, then "Add these to the blacklist? [y/N]"
/// (first "declare them anyway? [y/N]" when the rule looks like a mistake).
pub fn freeze(rule: &str) -> (r: Spec)
    ensures
        r@ == root_spec(seq!["frozen"@, rule@], true),
        not_an_option(rule@) ==> lets_slacker_ask(r@.args),
{
    let rest = vec![owned(rule)];
    let r = root(&["frozen"], rest.as_slice(), true);
    assert(strs(rest@) =~= seq![rule@]);
    assert(r@.args =~= seq!["frozen"@, rule@]);
    proof {
        reveal_strlit("frozen");
    }
    r
}

/// "write it to the blacklist? [y/N]"
pub fn pin(repo: &str, package: &str) -> (r: Spec)
    ensures
        r@ == root_spec(seq!["pin"@, repo@ + seq![':'] + package@], true),
        not_an_option(repo@) ==> lets_slacker_ask(r@.args),
{
    let mut s = owned(repo);
    s.append(":");
    s.append(package);
    proof {
        reveal_strlit(":");
        assert(":"@ =~= seq![':']);
    }
    let ghost sv = s@;
    let rest = vec![s];
    let r = root(&["pin"], rest.as_slice(), true);
    assert(strs(rest@) =~= seq![sv]);
    assert(r@.args =~= seq!["pin"@, repo@ + seq![':'] + package@]);
    proof {
        reveal_strlit("pin");
        if not_an_option(repo@) {
            lemma_pin_arg(repo@, package@);
        }
    }
    r
}

/// "Write it to the repos file? [y/N]". Priorities are whole numbers; only
/// non-negative ones are offered, so the value never reads as an option.
pub fn pri_repo(priority: u32, name: &str) -> (r: Spec)
    ensures
        r@ == root_spec(seq!["pri-repo"@, dec(priority as nat), name@], true),
        not_an_option(name@) ==> lets_slacker_ask(r@.args),
{
    let rest = vec![u32_text(priority), owned(name)];
    let r = root(&["pri-repo"], rest.as_slice(), true);
    assert(strs(rest@) =~= seq![dec(priority as nat), name@]);
    assert(r@.args =~= seq!["pri-repo"@, dec(priority as nat), name@]);
    proof {
        reveal_strlit("pri-repo");
        lemma_dec_not_an_option(priority as nat);
    }
    r
}

/// Lists the repositories with news and asks which to fetch; fetching
/// changes no package.
pub fn update() -> (r: Spec)
    ensures
        r@ == root_spec(seq!["update"@], true),
        lets_slacker_ask(r@.args),
{
    let r = root(&["update"], &[], true);
    assert(r@.args =~= seq!["update"@]);
    proof {
        reveal_strlit("update");
    }
    r
}

/// A picker when several packages match, the plan, then "Install new
/// packages? [y/N]" (a conflict choice instead when the plan conflicts).
pub fn install_new() -> (r: Spec)
    ensures
        r@ == root_spec(seq!["install-new"@], true),
        lets_slacker_ask(r@.args),
{
    let r = root(&["install-new"], &[], true);
    assert(r@.args =~= seq!["install-new"@]);
    proof {
        reveal_strlit("install-new");
    }
    r
}

/// Picker, plan, "Proceed with upgrade-all? [y/N]".
pub fn upgrade_all() -> (r: Spec)
    ensures
        r@ == root_spec(seq!["upgrade-all"@], true),
        lets_slacker_ask(r@.args),
{
    let r = root(&["upgrade-all"], &[], true);
    assert(r@.args =~= seq!["upgrade-all"@]);
    proof {
        reveal_strlit("upgrade-all");
    }
    r
}

pub fn install(names: &[String]) -> (r: Spec)
    ensures
        r@ == root_spec(seq!["install"@] + strs(names@), true),
        all_options_free(strs(names@)) ==> lets_slacker_ask(r@.args),
{
    let r = root(&["install"], names, true);
    assert(r@.args =~= seq!["install"@] + strs(names@));
    proof {
        reveal_strlit("install");
        if all_options_free(strs(names@)) {
            lemma_names_ask(seq!["install"@], strs(names@));
        }
    }
    r
}

pub fn reinstall(names: &[String]) -> (r: Spec)
    ensures
        r@ == root_spec(seq!["reinstall"@] + strs(names@), true),
        all_options_free(strs(names@)) ==> lets_slacker_ask(r@.args),
{
    let r = root(&["reinstall"], names, true);
    assert(r@.args =~= seq!["reinstall"@] + strs(names@));
    proof {
        reveal_strlit("reinstall");
        if all_options_free(strs(names@)) {
            lemma_names_ask(seq!["reinstall"@], strs(names@));
        }
    }
    r
}

pub fn remove(names: &[String]) -> (r: Spec)
    ensures
        r@ == root_spec(seq!["remove"@] + strs(names@), true),
        all_options_free(strs(names@)) ==> lets_slacker_ask(r@.args),
{
    let r = root(&["remove"], names, true);
    assert(r@.args =~= seq!["remove"@] + strs(names@));
    proof {
        reveal_strlit("remove");
        if all_options_free(strs(names@)) {
            lemma_names_ask(seq!["remove"@], strs(names@));
        }
    }
    r
}

// ---- changes that slacker makes at once -----------------------------------

/// Removes the rule whose text matches exactly; asks nothing.
pub fn unfreeze(rule: &str) -> (r: Spec)
    ensures
        r@ == root_spec(seq!["unfrozen"@, rule@], false),
        not_an_option(rule@) ==> lets_slacker_ask(r@.args),
{
    let rest = vec![owned(rule)];
    let r = root(&["unfrozen"], rest.as_slice(), false);
    assert(strs(rest@) =~= seq![rule@]);
    assert(r@.args =~= seq!["unfrozen"@, rule@]);
    proof {
        reveal_strlit("unfrozen");
    }
    r
}

/// Removes the package's pin; asks nothing.
pub fn unpin(package: &str) -> (r: Spec)
    ensures
        r@ == root_spec(seq!["unpin"@, package@], false),
        not_an_option(package@) ==> lets_slacker_ask(r@.args),
{
    let rest = vec![owned(package)];
    let r = root(&["unpin"], rest.as_slice(), false);
    assert(strs(rest@) =~= seq![package@]);
    assert(r@.args =~= seq!["unpin"@, package@]);
    proof {
        reveal_strlit("unpin");
    }
    r
}

// ---- typed input ------------------------------------------------------------

pub open spec fn has_ctrl(s: Seq<char>) -> bool {
    exists|i: int| 0 <= i < s.len() && is_ctrl(#[trigger] s[i])
}

pub open spec fn has_ws(s: Seq<char>) -> bool {
    exists|i: int| 0 <= i < s.len() && is_ws(#[trigger] s[i])
}

/// What checking a typed freeze rule gives: the trimmed rule, or why it is
/// refused.
pub open spec fn rule_text_spec(input: Seq<char>) -> Result<Seq<char>, Seq<char>> {
    let t = trim(input);
    if t.len() == 0 {
        Err("Type a rule."@)
    } else if t[0] == '-' {
        Err("A rule cannot start with \u{201c}-\u{201d}."@)
    } else if has_ctrl(t) {
        Err("The rule contains control characters."@)
    } else {
        Ok(t)
    }
}

/// What checking a typed package name gives: the trimmed name, or why it is
/// refused.
pub open spec fn single_name_spec(input: Seq<char>) -> Result<Seq<char>, Seq<char>> {
    let t = trim(input);
    if t.len() == 0 {
        Err("Type a package name."@)
    } else if has_ws(t) {
        Err("Search takes one exact package name."@)
    } else if t[0] == '-' {
        Err(
            "\u{201c}"@ + t
                + "\u{201d} starts with \u{201c}-\u{201d} and would be read as an option."@,
        )
    } else if has_ctrl(t) {
        Err("The name contains control characters."@)
    } else {
        Ok(t)
    }
}

pub open spec fn result_text(r: Result<String, String>) -> Result<Seq<char>, Seq<char>> {
    match r {
        Ok(s) => Ok(s@),
        Err(e) => Err(e@),
    }
}

fn span_has_ctrl(v: &[char], a: usize, b: usize) -> (r: bool)
    requires
        a <= b <= v@.len(),
    ensures
        r == has_ctrl(v@.subrange(a as int, b as int)),
{
    let mut i = a;
    while i < b
        invariant
            a <= i <= b <= v@.len(),
            forall|k: int| a <= k < i ==> !is_ctrl(v@[k]),
        decreases b - i,
    {
        if is_control(v[i]) {
            assert(v@.subrange(a as int, b as int)[i - a] == v@[i as int]);
            return true;
        }
        i = i + 1;
    }
    assert forall|k: int| 0 <= k < b - a implies !is_ctrl(
        #[trigger] v@.subrange(a as int, b as int)[k],
    ) by {
        assert(v@.subrange(a as int, b as int)[k] == v@[a + k]);
    }
    false
}

fn span_has_ws(v: &[char], a: usize, b: usize) -> (r: bool)
    requires
        a <= b <= v@.len(),
    ensures
        r == has_ws(v@.subrange(a as int, b as int)),
{
    let mut i = a;
    while i < b
        invariant
            a <= i <= b <= v@.len(),
            forall|k: int| a <= k < i ==> !is_ws(v@[k]),
        decreases b - i,
    {
        if is_whitespace(v[i]) {
            assert(v@.subrange(a as int, b as int)[i - a] == v@[i as int]);
            return true;
        }
        i = i + 1;
    }
    assert forall|k: int| 0 <= k < b - a implies !is_ws(
        #[trigger] v@.subrange(a as int, b as int)[k],
    ) by {
        assert(v@.subrange(a as int, b as int)[k] == v@[a + k]);
    }
    false
}

/// Checks a typed freeze rule. Spaces are allowed (`@repo PATTERN`); a
/// leading `-` is not, so the text can never become an option.
pub fn rule_text(input: &str) -> (r: Result<String, String>)
    ensures
        result_text(r) == rule_text_spec(input@),
{
    let v = chars_of(input);
    assert(v@.subrange(0, v@.len() as int) =~= input@);
    let (a, b) = trim_span(v.as_slice(), 0, v.len());
    if a == b {
        return Err(owned("Type a rule."));
    }
    assert(v@.subrange(a as int, b as int)[0] == v@[a as int]);
    if v[a] == '-' {
        return Err(owned("A rule cannot start with \u{201c}-\u{201d}."));
    }
    if span_has_ctrl(v.as_slice(), a, b) {
        return Err(owned("The rule contains control characters."));
    }
    Ok(string_of(v.as_slice(), a, b))
}

/// Checks one typed package name. Anything starting with `-` is refused so
/// typed text can never turn into a slacker option.
pub fn single_name(input: &str) -> (r: Result<String, String>)
    ensures
        result_text(r) == single_name_spec(input@),
{
    let v = chars_of(input);
    assert(v@.subrange(0, v@.len() as int) =~= input@);
    let (a, b) = trim_span(v.as_slice(), 0, v.len());
    if a == b {
        return Err(owned("Type a package name."));
    }
    if span_has_ws(v.as_slice(), a, b) {
        return Err(owned("Search takes one exact package name."));
    }
    assert(v@.subrange(a as int, b as int)[0] == v@[a as int]);
    if v[a] == '-' {
        let mut m = owned("\u{201c}");
        let t = string_of(v.as_slice(), a, b);
        m.append(t.as_str());
        m.append("\u{201d} starts with \u{201c}-\u{201d} and would be read as an option.");
        return Err(m);
    }
    if span_has_ctrl(v.as_slice(), a, b) {
        return Err(owned("The name contains control characters."));
    }
    Ok(string_of(v.as_slice(), a, b))
}

} // verus!
