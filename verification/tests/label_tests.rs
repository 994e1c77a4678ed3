use herdr_tab_naming::label::{clip, extract_ticket, render, strip_unknown_tokens, truncate, Ctx};

fn ctx() -> Ctx {
    Ctx {
        repo: Some("llama-rs".into()),
        dir: "llama-rs".into(),
        branch: Some("feature/BACK-565-thing".into()),
        ticket: Some("BACK-565".into()),
        worktree: Some("BACK-565".into()),
        agent: Some("opencode".into()),
        status: Some("working".into()),
    }
}

#[test]
fn default_template_renders_repo_and_ticket() {
    assert_eq!(render("{repo} {ticket}", &ctx()), "llama-rs BACK-565");
}

#[test]
fn empty_ticket_collapses_whitespace() {
    let mut c = ctx();
    c.ticket = None;
    assert_eq!(render("{repo} {ticket}", &c), "llama-rs");
}

#[test]
fn unknown_tokens_are_dropped() {
    assert_eq!(render("{repo} {nope}", &ctx()), "llama-rs");
}

#[test]
fn all_tokens_expand() {
    let c = ctx();
    assert_eq!(
        render(
            "{repo}|{dir}|{branch}|{ticket}|{worktree}|{agent}|{status}",
            &c
        ),
        "llama-rs|llama-rs|feature/BACK-565-thing|BACK-565|BACK-565|opencode|working"
    );
}

#[test]
fn missing_fields_render_empty() {
    let c = Ctx {
        dir: "scratch".into(),
        ..Ctx::default()
    };
    assert_eq!(render("{repo} {ticket} {dir}", &c), "scratch");
}

#[test]
fn truncation_uses_ellipsis() {
    assert_eq!(truncate("llama-rs BACK-565", 0), "llama-rs BACK-565");
    assert_eq!(truncate("llama-rs BACK-565", 8), "llama-r…");
    assert_eq!(truncate("short", 8), "short");
}

#[test]
fn ticket_from_various_branches() {
    let none: &[String] = &[];
    assert_eq!(
        extract_ticket("feature/BACK-565-thing", none).as_deref(),
        Some("BACK-565")
    );
    assert_eq!(extract_ticket("develop", none), None);
    assert_eq!(extract_ticket("main", none), None);
    // Jira keys are uppercase by convention; lowercase is not a ticket.
    assert_eq!(extract_ticket("fix/lit-42", none), None);
    assert_eq!(extract_ticket("release-2026", none), None);
}

#[test]
fn ticket_prefix_allowlist() {
    let only_back = vec!["BACK".to_string()];
    assert_eq!(
        extract_ticket("feature/BACK-565-x", &only_back).as_deref(),
        Some("BACK-565")
    );
    // UTF-8 shaped tokens are rejected when the allowlist excludes them.
    assert_eq!(extract_ticket("fix/UTF-8", &only_back), None);
}

// -- more cases -------------------------------------------------------------

#[test]
fn empty_template_renders_empty() {
    assert_eq!(render("", &ctx()), "");
    assert_eq!(render("  {nope}  ", &ctx()), "");
}

#[test]
fn whitespace_runs_collapse_and_trim() {
    assert_eq!(render("  {repo} \t\n {agent}  ", &ctx()), "llama-rs opencode");
    // Unicode whitespace counts too.
    assert_eq!(render("{repo}\u{3000}{status}", &ctx()), "llama-rs working");
}

#[test]
fn values_are_stripped_of_braces() {
    let mut c = ctx();
    c.branch = Some("a{b}c".into());
    assert_eq!(render("{branch}", &c), "ac");
}

#[test]
fn later_tokens_expand_inside_earlier_values() {
    let mut c = ctx();
    c.repo = Some("{dir}".into());
    c.dir = "x".into();
    assert_eq!(render("{repo}", &c), "x");
}

#[test]
fn unbalanced_braces() {
    assert_eq!(strip_unknown_tokens("a}b"), "a}b");
    assert_eq!(strip_unknown_tokens("a{b"), "a");
    assert_eq!(strip_unknown_tokens("a{{b}c}d"), "ad");
    assert_eq!(strip_unknown_tokens("x{y}}z"), "x}z");
}

#[test]
fn truncate_edges() {
    assert_eq!(truncate("abc", 3), "abc");
    assert_eq!(truncate("abcd", 3), "ab…");
    assert_eq!(truncate("abcd", 1), "…");
    assert_eq!(truncate("", 1), "");
    assert_eq!(truncate("ééé", 2), "é…");
}

#[test]
fn clip_edges() {
    assert_eq!(clip("abc", 3), "abc");
    assert_eq!(clip("abcd", 3), "ab…");
    assert_eq!(clip("abc", 0), "…");
    assert_eq!(clip("", 0), "");
}

#[test]
fn ticket_edges() {
    let none: &[String] = &[];
    // A one-letter prefix is too short.
    assert_eq!(extract_ticket("A-1", none), None);
    assert_eq!(extract_ticket("AB-1", none).as_deref(), Some("AB-1"));
    // Digits may be part of the prefix.
    assert_eq!(extract_ticket("A1B-22", none).as_deref(), Some("A1B-22"));
    // A run that starts with a digit: the scan starts at the first letter.
    assert_eq!(extract_ticket("1AB-2", none).as_deref(), Some("AB-2"));
    // The number must be followed by a non-alphanumeric character or the end.
    assert_eq!(extract_ticket("AB-12c", none), None);
    assert_eq!(extract_ticket("AB-12_c", none).as_deref(), Some("AB-12"));
    // No digits after the dash.
    assert_eq!(extract_ticket("AB-x", none), None);
    // The first ticket wins.
    assert_eq!(extract_ticket("AB-1/CD-2", none).as_deref(), Some("AB-1"));
    // A failed candidate does not hide a later one.
    assert_eq!(extract_ticket("XY-1a-CD-3", none).as_deref(), Some("CD-3"));
    // Non-ASCII characters are boundaries.
    assert_eq!(extract_ticket("é/BACK-7é", none).as_deref(), Some("BACK-7"));
}

#[test]
fn ticket_allowlist_ignores_case() {
    let prefixes = vec!["back".to_string(), "LIT".to_string()];
    assert_eq!(extract_ticket("BACK-1", &prefixes).as_deref(), Some("BACK-1"));
    assert_eq!(extract_ticket("LIT-2", &prefixes).as_deref(), Some("LIT-2"));
    assert_eq!(extract_ticket("OPS-3 LIT-4", &prefixes).as_deref(), Some("LIT-4"));
    assert_eq!(extract_ticket("OPS-3", &prefixes), None);
}

#[test]
fn rendering_a_rendered_label_keeps_it() {
    let c = ctx();
    for t in ["{repo} {ticket}", "  {repo}   {nope} x}y  ", "{branch}|{status}", ""] {
        let once = render(t, &c);
        assert_eq!(render(&once, &c), once);
        assert_eq!(render(&once, &Ctx::default()), once);
    }
}
