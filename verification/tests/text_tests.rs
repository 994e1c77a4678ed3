use herdr_tab_naming::reply::{read_ack, read_reply};
use herdr_tab_naming::git::{base_name, parse_gitdir_file, parse_head, split_worktree};
use herdr_tab_naming::path::PathParts;
use herdr_tab_naming::report::{
    change_line, decimal, owner, pad_right, status_header, status_row, summary, sync_done,
    watch_log,
};
use herdr_tab_naming::state::Decision;
use herdr_tab_naming::sync::{Change, Outcome};
use herdr_tab_naming::watcher::{on_lock_busy, on_wake, rival_watcher, LockBusy, Next, Wake};

#[test]
fn paths_parse_like_std() {
    let cases = [
        "/", "", ".", "./a", "a/./b", "a//b/", "/a/b/..", "../x", "/./a", ".//a", "a/.",
    ];
    for c in cases {
        let p = PathParts::parse(c);
        let std_text: String = {
            let comps: Vec<String> = std::path::Path::new(c)
                .components()
                .map(|x| x.as_os_str().to_string_lossy().into_owned())
                .collect();
            let mut t = String::new();
            for (i, x) in comps.iter().enumerate() {
                if x == "/" {
                    t.push('/');
                    continue;
                }
                if i > 0 && !(i == 1 && comps[0] == "/") {
                    t.push('/');
                }
                t.push_str(x);
            }
            t
        };
        assert_eq!(p.display(), std_text, "path {c:?}");
    }
}

#[test]
fn parent_join_and_file_name() {
    let p = PathParts::parse("/a/b");
    assert_eq!(p.parent().unwrap().display(), "/a");
    assert_eq!(PathParts::parse("/").parent().map(|x| x.display()), None);
    assert_eq!(PathParts::parse("./a").parent().unwrap().display(), ".");
    let base = PathParts::parse("/r/wt");
    assert_eq!(base.join(&PathParts::parse("./x")).display(), "/r/wt/x");
    assert_eq!(base.join(&PathParts::parse("/abs")).display(), "/abs");
    assert_eq!(PathParts::parse("").join(&PathParts::parse("./x")).display(), "./x");
    assert_eq!(PathParts::parse("/a/..").file_name(), None);
    assert_eq!(PathParts::parse("/a/b/").file_name().as_deref(), Some("b"));
    assert_eq!(base_name(&PathParts::parse("/")), "/");
    assert_eq!(base_name(&PathParts::parse("/x/y")), "y");
}

#[test]
fn head_and_gitdir_files() {
    assert_eq!(parse_head("ref: refs/heads/main\n").as_deref(), Some("main"));
    assert_eq!(parse_head("  ref: refs/heads/  a/b \r\n").as_deref(), Some("a/b"));
    assert_eq!(parse_head("ref: refs/heads/ \n"), None);
    assert_eq!(parse_head("ref: refs/tags/v1\n"), None);
    assert_eq!(parse_head(""), None);
    let base = PathParts::parse("/r/wt");
    assert_eq!(
        parse_gitdir_file("gitdir: ../.git/worktrees/w1\nmore\n", &base)
            .unwrap()
            .display(),
        "/r/wt/../.git/worktrees/w1"
    );
    assert_eq!(
        parse_gitdir_file(" gitdir:/abs/g \r\n", &base).unwrap().display(),
        "/abs/g"
    );
    assert!(parse_gitdir_file("gitdir:   \n", &base).is_none());
    assert!(parse_gitdir_file("", &base).is_none());
    assert!(parse_gitdir_file("\ngitdir: x", &base).is_none());
}

#[test]
fn worktree_split() {
    let (main, name) = split_worktree(&PathParts::parse("/r/.git/worktrees/w1")).unwrap();
    assert_eq!(main.display(), "/r/.git");
    assert_eq!(name, "w1");
    let (main, name) =
        split_worktree(&PathParts::parse("/worktrees/a/worktrees/b/c")).unwrap();
    assert_eq!(main.display(), "/worktrees/a");
    assert_eq!(name, "b");
    assert!(split_worktree(&PathParts::parse("/r/.git/worktrees")).is_none());
    assert!(split_worktree(&PathParts::parse("worktrees/x")).is_none());
    let (main, _) = split_worktree(&PathParts::parse("/worktrees/x")).unwrap();
    assert_eq!(main.display(), "/");
    assert!(split_worktree(&PathParts::parse("/r/.git/modules/m")).is_none());
}

#[test]
fn report_lines() {
    assert_eq!(decimal(0), "0");
    assert_eq!(decimal(7), "7");
    assert_eq!(decimal(1204), "1204");
    assert_eq!(pad_right("ab", 4), "ab  ");
    assert_eq!(pad_right("abcde", 4), "abcde");
    let c = Change {
        tab_id: "w1:t1".to_string(),
        from: "1".to_string(),
        to: "llama-rs".to_string(),
    };
    assert_eq!(change_line(&c), "w1:t1 '1' -> 'llama-rs'");
    let o = Outcome {
        tabs: 3,
        renamed: vec![c],
        claimed: 1,
        manual: 1,
        errors: vec!["w1:t3: boom".to_string()],
        changed: true,
    };
    assert_eq!(
        summary(&o),
        "3 tabs: 1 renamed, 1 already correct, 1 manual, 1 errors"
    );
    assert_eq!(
        watch_log(&Ok(o)),
        vec![
            "watch: w1:t1 '1' -> 'llama-rs'".to_string(),
            "watch: error: w1:t3: boom".to_string()
        ]
    );
    assert_eq!(
        watch_log(&Err("x".to_string())),
        vec!["watch: reconcile failed: x".to_string()]
    );
}

#[test]
fn status_table() {
    assert_eq!(owner(Decision::Manual, "a", "b"), "manual");
    assert_eq!(owner(Decision::Ours, "a", "a"), "ours");
    assert_eq!(owner(Decision::Ours, "a", "b"), "ours*");
    assert_eq!(
        status_header(),
        format!("{:<10} {:<30} {:<30} OWNER", "TAB", "CURRENT", "DESIRED")
    );
    let long = "x".repeat(40);
    assert_eq!(
        status_row("w1:t1", &long, "llama-rs", "ours*"),
        format!("{:<10} {:<30} {:<30} {}", "w1:t1", format!("{}…", "x".repeat(28)), "llama-rs", "ours*")
    );
}

#[test]
fn watcher_decisions() {
    assert_eq!(on_wake(Wake::Event), Next::Reconcile { debounce: true });
    assert_eq!(on_wake(Wake::Timeout), Next::Reconcile { debounce: false });
    assert_eq!(on_wake(Wake::Disconnected), Next::Reconnect);
    assert_eq!(rival_watcher(10, Some(10)), None);
    assert_eq!(rival_watcher(10, Some(11)), Some(11));
    assert_eq!(rival_watcher(10, None), None);
    assert_eq!(on_lock_busy(Some(5), true), LockBusy::GiveUp);
    assert_eq!(on_lock_busy(Some(5), false), LockBusy::ClearStale);
    assert_eq!(on_lock_busy(None, false), LockBusy::GiveUp);
    assert_eq!(on_lock_busy(None, true), LockBusy::GiveUp);
}

#[test]
fn replies_are_read_as_results() {
    assert_eq!(read_reply("tab.list", ""), Err("tab.list: connection closed".to_string()));
    assert_eq!(
        read_reply("tab.list", "{\"id\":\"req\",\"result\":{\"tabs\":[]}}\n"),
        Ok(Some("{\"tabs\":[]}".to_string()))
    );
    assert_eq!(read_reply("tab.list", "  {\"id\":\"req\"}\n"), Ok(None));
    assert_eq!(
        read_reply("tab.rename", "{\"error\":{\"message\":\"no such tab\"}}\n"),
        Err("tab.rename: no such tab".to_string())
    );
    assert_eq!(
        read_reply("tab.rename", "{\"error\":{\"code\":3}}"),
        Err("tab.rename: unknown error".to_string())
    );
    let bad = read_reply("pane.list", "not json\n").unwrap_err();
    assert!(bad.starts_with("pane.list: malformed response: "));
    assert_eq!(read_ack("{\"id\":\"sub\",\"result\":null}\n"), Ok(()));
    assert_eq!(
        read_ack("{\"error\":{\"message\":\"bad subscription\"}}"),
        Err("subscribe: bad subscription".to_string())
    );
    assert!(read_ack("").unwrap_err().starts_with("subscribe: malformed ack: "));
}

#[test]
fn sync_save_and_exit() {
    let mut o = Outcome::default();
    assert_eq!(sync_done(&Ok(Outcome::default())), (false, true));
    o.changed = true;
    o.errors.push("w1:t1: boom".to_string());
    assert_eq!(sync_done(&Ok(o)), (true, false));
    assert_eq!(sync_done(&Err("tab.list: connection closed".to_string())), (false, false));
}
