//! Reconcile-level tests driven through a fake Herdr whose filesystem is a
//! table in memory; the repository walk runs the library's own steps.
use herdr_tab_naming::config::Config;
use herdr_tab_naming::report::{sync_done, watch_log};
use herdr_tab_naming::git::{dot_git, finish, head_file, resolve, DotGit, RepoInfo, Step};
use herdr_tab_naming::herdr::{Pane, Tab};
use herdr_tab_naming::path::PathParts;
use herdr_tab_naming::state::State;
use herdr_tab_naming::sync::{
    claim, compute_label, directory_name, pane_for_tab, plan_tab, reconcile, reconcile_listed,
    record_rename, DirInfo, Herdr, Outcome, Pass, Plan,
};
use std::cell::RefCell;

/// A filesystem of directories and files, addressed by their text.
#[derive(Default, Clone)]
struct FakeFs {
    dirs: Vec<String>,
    files: Vec<(String, String)>,
    home: Option<String>,
}

impl FakeFs {
    fn dir(&mut self, p: &str) {
        self.dirs.push(p.to_string());
    }
    fn file(&mut self, p: &str, text: &str) {
        self.files.push((p.to_string(), text.to_string()));
    }
    fn read(&self, p: &str) -> Option<String> {
        let p = self.canonical(&PathParts::parse(p)).display();
        self.files.iter().find(|(k, _)| *k == p).map(|(_, v)| v.clone())
    }
    /// Resolve `..` lexically, as canonicalization would here.
    fn canonical(&self, p: &PathParts) -> PathParts {
        let text = p.display();
        let mut out: Vec<&str> = Vec::new();
        for part in text.split('/') {
            match part {
                "" | "." => {}
                ".." => {
                    out.pop();
                }
                x => out.push(x),
            }
        }
        PathParts::parse(&format!("/{}", out.join("/")))
    }
    /// A `.git` directory at `repo` with `HEAD` on `branch`.
    fn repo(&mut self, repo: &str, branch: &str) {
        self.dir(repo);
        self.dir(&format!("{repo}/.git"));
        self.file(&format!("{repo}/.git/HEAD"), &format!("ref: refs/heads/{branch}\n"));
    }
    fn resolve(&self, start: &str) -> Option<RepoInfo> {
        let mut dir = self.canonical(&PathParts::parse(start));
        loop {
            let dotgit = dot_git(&dir).display();
            let kind = if self.dirs.contains(&dotgit) {
                DotGit::Dir
            } else if let Some(text) = self.read(&dotgit) {
                DotGit::File(Some(text))
            } else {
                DotGit::Missing
            };
            match resolve(&dir, kind) {
                Step::Found(checkout) => {
                    let head = self.read(&head_file(&checkout.gitdir).display());
                    let root = if checkout.worktree.is_some() {
                        self.canonical(&checkout.root)
                    } else {
                        checkout.root.clone()
                    };
                    return Some(finish(checkout, root, head.as_deref()));
                }
                Step::Up(parent) => dir = parent,
                Step::NotFound => return None,
            }
        }
    }
}

fn pane(pane_id: &str, tab_id: &str, cwd: &str) -> Pane {
    let workspace_id = tab_id.split(':').next().unwrap_or("w").to_string();
    Pane {
        pane_id: pane_id.to_string(),
        tab_id: tab_id.to_string(),
        workspace_id,
        cwd: Some(cwd.to_string()),
        foreground_cwd: Some(cwd.to_string()),
        agent: Some("opencode".to_string()),
        agent_status: Some("working".to_string()),
        terminal_title: None,
        focused: true,
    }
}

fn tab(tab_id: &str, label: &str) -> Tab {
    let workspace_id = tab_id.split(':').next().unwrap_or("w").to_string();
    Tab {
        tab_id: tab_id.to_string(),
        workspace_id,
        number: 1,
        label: label.to_string(),
        focused: true,
        pane_count: 1,
    }
}

/// In-memory Herdr that records renames and reflects them back into its tabs.
struct FakeHerdr {
    fs: FakeFs,
    panes: Vec<Pane>,
    tabs: RefCell<Vec<Tab>>,
    renames: RefCell<Vec<(String, String)>>,
    fail: bool,
}

impl FakeHerdr {
    fn new(fs: FakeFs, panes: Vec<Pane>, tabs: Vec<Tab>) -> Self {
        Self {
            fs,
            panes,
            tabs: RefCell::new(tabs),
            renames: RefCell::new(Vec::new()),
            fail: false,
        }
    }

    fn rename_count(&self) -> usize {
        self.renames.borrow().len()
    }
}

impl Herdr for FakeHerdr {
    fn pane_list(&self) -> Result<Vec<Pane>, String> {
        Ok(self.panes.clone())
    }

    fn tab_list(&self) -> Result<Vec<Tab>, String> {
        Ok(self.tabs.borrow().clone())
    }

    fn tab_rename(&self, tab_id: &str, label: &str) -> Result<(), String> {
        if self.fail {
            return Err("boom".to_string());
        }
        self.renames
            .borrow_mut()
            .push((tab_id.to_string(), label.to_string()));
        if let Some(tab) = self
            .tabs
            .borrow_mut()
            .iter_mut()
            .find(|t| t.tab_id == tab_id)
        {
            tab.label = label.to_string();
        }
        Ok(())
    }

    fn describe_dir(&self, dir: &str) -> DirInfo {
        let path = PathParts::parse(dir);
        let home = self.fs.home.as_deref().map(PathParts::parse);
        let canonical = self.fs.canonical(&path);
        DirInfo {
            name: directory_name(&path, dir, home.as_ref(), Some(&canonical)),
            repo: self.fs.resolve(dir),
        }
    }
}

const TMP: &str = "/tmp/t";

/// `TMP/<name>` as a repository on `branch`.
fn repo(fs: &mut FakeFs, name: &str, branch: &str) -> String {
    let root = format!("{TMP}/{name}");
    fs.repo(&root, branch);
    root
}

/// Asks Herdr for each rename the pass asks for, in order, and finishes it.
fn drive<H: Herdr>(api: &H, mut pass: Pass, state: &mut State) -> Outcome {
    while let Some((tab_id, label)) = pass.next_rename() {
        let result = api.tab_rename(&tab_id, &label);
        pass = pass.answer(result);
    }
    pass.finish(state)
}

fn pass_with<H: Herdr>(
    api: &H,
    cfg: &Config,
    state: &mut State,
    first_run: bool,
    overwrite: bool,
) -> Result<Outcome, String> {
    let pass = reconcile(api, cfg, state, first_run, overwrite)?;
    Ok(drive(api, pass, state))
}

fn run(api: &FakeHerdr, state: &mut State, first_run: bool, overwrite: bool) -> Outcome {
    pass_with(api, &Config::default(), state, first_run, overwrite).unwrap()
}

// -- repository discovery ------------------------------------------------------

#[test]
fn finds_plain_repo_from_subdir() {
    let mut fs = FakeFs::default();
    let repo = format!("{TMP}/llama-rs");
    fs.repo(&repo, "develop");
    fs.dir(&format!("{repo}/src/backend/cuda"));
    let info = fs.resolve(&format!("{repo}/src/backend/cuda")).unwrap();
    assert_eq!(info.name, "llama-rs");
    assert_eq!(info.root.display(), repo);
    assert_eq!(info.branch.as_deref(), Some("develop"));
    assert_eq!(info.worktree, None);
}

#[test]
fn linked_worktree_resolves_to_main_repo() {
    let mut fs = FakeFs::default();
    let repo = format!("{TMP}/llama-rs");
    fs.repo(&repo, "develop");
    let wt_admin = format!("{repo}/.git/worktrees/BACK-565");
    fs.dir(&wt_admin);
    fs.file(
        &format!("{wt_admin}/HEAD"),
        "ref: refs/heads/feature/BACK-565-thing\n",
    );
    let wt = format!("{repo}/.worktrees/BACK-565");
    fs.dir(&wt);
    fs.file(&format!("{wt}/.git"), &format!("gitdir: {wt_admin}\n"));

    let info = fs.resolve(&wt).unwrap();
    assert_eq!(info.name, "llama-rs");
    assert_eq!(info.root.display(), repo);
    assert_eq!(info.branch.as_deref(), Some("feature/BACK-565-thing"));
    assert_eq!(info.worktree.as_deref(), Some("BACK-565"));
}

#[test]
fn relative_gitdir_pointer_is_resolved() {
    let mut fs = FakeFs::default();
    let repo = format!("{TMP}/thing");
    fs.repo(&repo, "main");
    let wt_admin = format!("{repo}/.git/worktrees/w1");
    fs.dir(&wt_admin);
    fs.file(&format!("{wt_admin}/HEAD"), "ref: refs/heads/topic\n");
    let wt = format!("{repo}/wt");
    fs.dir(&wt);
    fs.file(&format!("{wt}/.git"), "gitdir: ../.git/worktrees/w1\n");

    let info = fs.resolve(&wt).unwrap();
    assert_eq!(info.name, "thing");
    assert_eq!(info.branch.as_deref(), Some("topic"));
}

#[test]
fn detached_head_has_no_branch() {
    let mut fs = FakeFs::default();
    let repo = format!("{TMP}/detached");
    fs.dir(&repo);
    fs.dir(&format!("{repo}/.git"));
    fs.file(&format!("{repo}/.git/HEAD"), "0123456789abcdef\n");
    let info = fs.resolve(&repo).unwrap();
    assert_eq!(info.branch, None);
}

#[test]
fn no_repo_returns_none() {
    let mut fs = FakeFs::default();
    fs.dir(&format!("{TMP}/a/b/c"));
    assert!(fs.resolve(&format!("{TMP}/a/b/c")).is_none());
}

#[test]
fn submodule_git_file_is_its_own_root() {
    let mut fs = FakeFs::default();
    let outer = format!("{TMP}/outer");
    fs.repo(&outer, "main");
    fs.dir(&format!("{outer}/.git/modules/sub"));
    fs.file(&format!("{outer}/.git/modules/sub/HEAD"), "ref: refs/heads/pinned\n");
    let sub = format!("{outer}/sub");
    fs.dir(&sub);
    fs.file(&format!("{sub}/.git"), "gitdir: ../.git/modules/sub\n");
    let info = fs.resolve(&sub).unwrap();
    assert_eq!(info.name, "sub");
    assert_eq!(info.root.display(), sub);
    assert_eq!(info.worktree, None);
    assert_eq!(info.branch.as_deref(), Some("pinned"));
}

#[test]
fn malformed_git_file_means_no_repo() {
    let mut fs = FakeFs::default();
    let outer = format!("{TMP}/outer");
    fs.repo(&outer, "main");
    let sub = format!("{outer}/sub");
    fs.dir(&sub);
    fs.file(&format!("{sub}/.git"), "not a pointer\n");
    assert!(fs.resolve(&sub).is_none());
    // An unreadable one too.
    assert!(matches!(
        resolve(&PathParts::parse(&sub), DotGit::File(None)),
        Step::NotFound
    ));
}

#[test]
fn walk_ends_at_the_root() {
    let root = PathParts::parse("/");
    assert!(matches!(resolve(&root, DotGit::Missing), Step::NotFound));
    let rel = PathParts::parse("a");
    match resolve(&rel, DotGit::Missing) {
        Step::Up(p) => assert_eq!(p.display(), ""),
        _ => panic!("expected a step up"),
    }
}

// -- labels -----------------------------------------------------------------------

#[test]
fn home_directory_is_a_tilde() {
    let mut fs = FakeFs::default();
    fs.home = Some("/home/u".to_string());
    let api = FakeHerdr::new(fs, vec![], vec![]);
    assert_eq!(api.describe_dir("/home/u").name, "~");
    assert_eq!(api.describe_dir("/home/u/").name, "~");
    assert_eq!(api.describe_dir("/home/u/x/..").name, "~");
    assert_eq!(api.describe_dir("/home/u/proj").name, "proj");
    assert_eq!(api.describe_dir("/").name, "/");
}

#[test]
fn label_falls_back_to_directory_and_truncates() {
    let info = DirInfo {
        name: "scratch".to_string(),
        repo: None,
    };
    let p = pane("w1:p1", "w1:t1", "/tmp/scratch");
    let mut cfg = Config::default();
    assert_eq!(compute_label(&cfg, &info, &p), "scratch");
    cfg.template = "{agent}:{status}".to_string();
    cfg.max_length = 6;
    assert_eq!(compute_label(&cfg, &info, &p), "openc…");
}

#[test]
fn ticket_prefixes_filter_the_label() {
    let mut fs = FakeFs::default();
    let root = repo(&mut fs, "llama-rs", "feature/OPS-1-x");
    let info = DirInfo {
        name: "llama-rs".to_string(),
        repo: fs.resolve(&root),
    };
    let p = pane("w1:p1", "w1:t1", &root);
    let mut cfg = Config::default();
    assert_eq!(compute_label(&cfg, &info, &p), "llama-rs OPS-1");
    cfg.ticket_prefixes = vec!["BACK".to_string()];
    assert_eq!(compute_label(&cfg, &info, &p), "llama-rs");
}

// -- reconcile --------------------------------------------------------------------

#[test]
fn numeric_default_is_replaced_with_repo_name() {
    let mut fs = FakeFs::default();
    let root = repo(&mut fs, "llama-rs", "develop");
    let api = FakeHerdr::new(fs, vec![pane("w1:p1", "w1:t1", &root)], vec![tab("w1:t1", "1")]);
    let mut state = State::default();

    let outcome = run(&api, &mut state, false, false);

    assert_eq!(
        api.renames.borrow().as_slice(),
        [("w1:t1".into(), "llama-rs".into())]
    );
    assert_eq!(outcome.renamed.len(), 1);
    assert!(outcome.changed);
    assert_eq!(
        state.labels.get("w1:t1").map(String::as_str),
        Some("llama-rs")
    );
}

#[test]
fn ticket_is_appended_on_feature_branch() {
    let mut fs = FakeFs::default();
    let root = repo(&mut fs, "llama-rs", "feature/BACK-565-thing");
    let api = FakeHerdr::new(fs, vec![pane("w1:p1", "w1:t1", &root)], vec![tab("w1:t1", "1")]);
    let mut state = State::default();

    run(&api, &mut state, false, false);

    assert_eq!(api.renames.borrow()[0].1, "llama-rs BACK-565");
}

#[test]
fn manual_label_is_left_alone() {
    let mut fs = FakeFs::default();
    let root = repo(&mut fs, "llama-rs", "develop");
    let api = FakeHerdr::new(
        fs,
        vec![pane("w1:p1", "w1:t1", &root)],
        vec![tab("w1:t1", "my-hand-name")],
    );
    let mut state = State::default();

    let outcome = run(&api, &mut state, false, false);

    assert_eq!(api.rename_count(), 0);
    assert_eq!(outcome.manual, 1);
    assert!(!outcome.changed);
}

#[test]
fn first_run_adopts_manual_labels() {
    let mut fs = FakeFs::default();
    let root = repo(&mut fs, "llama-rs", "develop");
    let api = FakeHerdr::new(
        fs,
        vec![pane("w1:p1", "w1:t1", &root)],
        vec![tab("w1:t1", "my-hand-name")],
    );
    let mut state = State::default();

    let outcome = run(&api, &mut state, true, false);

    assert_eq!(api.rename_count(), 1);
    assert_eq!(outcome.renamed.len(), 1);
}

#[test]
fn force_overwrites_manual_labels() {
    let mut fs = FakeFs::default();
    let root = repo(&mut fs, "llama-rs", "develop");
    let api = FakeHerdr::new(
        fs,
        vec![pane("w1:p1", "w1:t1", &root)],
        vec![tab("w1:t1", "my-hand-name")],
    );
    let mut state = State::default();

    run(&api, &mut state, false, true);

    assert_eq!(api.rename_count(), 1);
}

#[test]
fn stable_label_is_claimed_without_renaming() {
    let mut fs = FakeFs::default();
    let root = repo(&mut fs, "llama-rs", "develop");
    let api = FakeHerdr::new(
        fs,
        vec![pane("w1:p1", "w1:t1", &root)],
        vec![tab("w1:t1", "llama-rs")],
    );
    let mut state = State::default();

    let outcome = run(&api, &mut state, false, false);

    assert_eq!(api.rename_count(), 0);
    assert_eq!(outcome.claimed, 1);
    assert!(outcome.changed, "ownership should be recorded");
    assert_eq!(
        state.labels.get("w1:t1").map(String::as_str),
        Some("llama-rs")
    );
}

#[test]
fn focused_pane_wins_within_a_tab() {
    let mut fs = FakeFs::default();
    let repo_a = repo(&mut fs, "alpha", "develop");
    let repo_b = repo(&mut fs, "beta", "develop");

    let mut pane_a = pane("w1:p1", "w1:t1", &repo_a);
    pane_a.focused = false;
    let mut pane_b = pane("w1:p2", "w1:t1", &repo_b);
    pane_b.focused = true;

    let api = FakeHerdr::new(fs, vec![pane_a, pane_b], vec![tab("w1:t1", "1")]);
    let mut state = State::default();

    run(&api, &mut state, false, false);

    assert_eq!(api.renames.borrow()[0].1, "beta");
}

#[test]
fn non_repo_falls_back_to_directory_name() {
    let mut fs = FakeFs::default();
    let scratch = format!("{TMP}/scratch");
    fs.dir(&scratch);
    let api = FakeHerdr::new(fs, vec![pane("w1:p1", "w1:t1", &scratch)], vec![tab("w1:t1", "1")]);
    let mut state = State::default();

    run(&api, &mut state, false, false);

    assert_eq!(api.renames.borrow()[0].1, "scratch");
}

#[test]
fn worktree_labels_from_main_repo_plus_ticket() {
    let mut fs = FakeFs::default();
    let root = repo(&mut fs, "llama-rs", "develop");
    let wt_admin = format!("{root}/.git/worktrees/BACK-565");
    fs.dir(&wt_admin);
    fs.file(
        &format!("{wt_admin}/HEAD"),
        "ref: refs/heads/feature/BACK-565-thing\n",
    );
    let wt = format!("{root}/.worktrees/BACK-565");
    fs.dir(&wt);
    fs.file(&format!("{wt}/.git"), &format!("gitdir: {wt_admin}\n"));

    let api = FakeHerdr::new(fs, vec![pane("w1:p1", "w1:t1", &wt)], vec![tab("w1:t1", "1")]);
    let mut state = State::default();

    run(&api, &mut state, false, false);

    assert_eq!(api.renames.borrow()[0].1, "llama-rs BACK-565");
}

#[test]
fn rename_failure_is_reported_and_not_recorded() {
    let mut fs = FakeFs::default();
    let root = repo(&mut fs, "llama-rs", "develop");
    let mut api = FakeHerdr::new(fs, vec![pane("w1:p1", "w1:t1", &root)], vec![tab("w1:t1", "1")]);
    api.fail = true;
    let mut state = State::default();

    let outcome = run(&api, &mut state, false, false);

    assert_eq!(outcome.errors.len(), 1);
    assert_eq!(outcome.errors[0], "w1:t1: boom");
    assert!(state.labels.is_empty());
}

// -- more cases -----------------------------------------------------------------

#[test]
fn second_pass_renames_nothing() {
    let mut fs = FakeFs::default();
    let root = repo(&mut fs, "llama-rs", "develop");
    let api = FakeHerdr::new(fs, vec![pane("w1:p1", "w1:t1", &root)], vec![tab("w1:t1", "1")]);
    let mut state = State::default();
    run(&api, &mut state, false, false);
    let again = run(&api, &mut state, false, false);
    assert_eq!(api.rename_count(), 1);
    assert_eq!(again.claimed, 1);
    assert!(!again.changed);
}

#[test]
fn tab_without_usable_pane_is_skipped() {
    let mut p = pane("w1:p1", "w1:t1", "");
    p.foreground_cwd = None;
    let api = FakeHerdr::new(FakeFs::default(), vec![p], vec![tab("w1:t1", "1"), tab("w1:t2", "2")]);
    let mut state = State::default();
    let outcome = run(&api, &mut state, false, false);
    assert_eq!(outcome.tabs, 2);
    assert_eq!(outcome.renamed.len() + outcome.claimed + outcome.manual, 0);
    assert!(!outcome.changed);
}

#[test]
fn recorded_label_stays_ours_after_cd() {
    let mut fs = FakeFs::default();
    let root = repo(&mut fs, "beta", "develop");
    let api = FakeHerdr::new(fs, vec![pane("w1:p1", "w1:t1", &root)], vec![tab("w1:t1", "alpha")]);
    let mut state = State::default();
    state.labels.insert("w1:t1".to_string(), "alpha".to_string());
    let outcome = run(&api, &mut state, false, false);
    assert_eq!(outcome.renamed.len(), 1);
    assert_eq!(outcome.renamed[0].from, "alpha");
    assert_eq!(outcome.renamed[0].to, "beta");
    assert_eq!(state.labels.get("w1:t1").map(String::as_str), Some("beta"));
}

#[test]
fn listing_failure_leaves_state_alone() {
    struct Down;
    impl Herdr for Down {
        fn pane_list(&self) -> Result<Vec<Pane>, String> {
            Err("pane.list: connection closed".to_string())
        }
        fn tab_list(&self) -> Result<Vec<Tab>, String> {
            Ok(vec![])
        }
        fn tab_rename(&self, _: &str, _: &str) -> Result<(), String> {
            Ok(())
        }
        fn describe_dir(&self, dir: &str) -> DirInfo {
            DirInfo { name: dir.to_string(), repo: None }
        }
    }
    let mut state = State::default();
    let res = pass_with(&Down, &Config::default(), &mut state, true, true);
    assert_eq!(res, Err("pane.list: connection closed".to_string()));
    assert!(state.labels.is_empty());
}

#[test]
fn pane_choice_prefers_focus_then_lowest_id() {
    let mut a = pane("w1:p2", "w1:t1", "/x");
    a.focused = false;
    let mut b = pane("w1:p1", "w1:t1", "/y");
    b.focused = false;
    let mut c = pane("w1:p3", "w1:t1", "");
    c.foreground_cwd = None;
    let t = tab("w1:t1", "1");
    let panes = vec![a.clone(), b.clone(), c.clone()];
    assert_eq!(pane_for_tab(&panes, &t).unwrap().pane_id, "w1:p1");
    // A focused pane without a directory does not stand for the tab.
    c.focused = true;
    let panes = vec![a, b, c];
    assert_eq!(pane_for_tab(&panes, &t).unwrap().pane_id, "w1:p1");
    assert!(pane_for_tab(&panes, &tab("w1:t9", "9")).is_none());
}

#[test]
fn plan_claim_and_record() {
    let mut state = State::default();
    let t = tab("w1:t1", "llama-rs");
    assert_eq!(plan_tab(&t, "", &state.labels, false, false), Plan::Skip);
    assert_eq!(plan_tab(&t, "llama-rs", &state.labels, false, false), Plan::Claim);
    assert_eq!(plan_tab(&t, "beta", &state.labels, false, false), Plan::Manual);
    assert_eq!(plan_tab(&t, "beta", &state.labels, true, false), Plan::Rename);
    let mut outcome = Outcome::default();
    claim(&mut state, &mut outcome, &t, "llama-rs".to_string());
    assert!(outcome.changed);
    assert_eq!(outcome.claimed, 1);
    assert_eq!(plan_tab(&t, "beta", &state.labels, false, false), Plan::Rename);
    let mut again = Outcome::default();
    claim(&mut state, &mut again, &t, "llama-rs".to_string());
    assert!(!again.changed);
    record_rename(&mut state, &mut again, &t, "beta".to_string(), Err("nope".to_string()));
    assert_eq!(again.errors, vec!["w1:t1: nope".to_string()]);
    record_rename(&mut state, &mut again, &t, "beta".to_string(), Ok(()));
    assert_eq!(again.renamed.len(), 1);
    assert_eq!(state.labels.get("w1:t1").map(String::as_str), Some("beta"));
}

#[test]
fn tabs_are_tallied_in_order() {
    let mut fs = FakeFs::default();
    let alpha = repo(&mut fs, "alpha", "develop");
    let beta = repo(&mut fs, "beta", "develop");
    let gamma = repo(&mut fs, "gamma", "develop");
    let panes = vec![
        pane("w1:p1", "w1:t1", &alpha),
        pane("w1:p2", "w1:t2", &beta),
        pane("w1:p3", "w1:t3", &gamma),
    ];
    let tabs = vec![
        tab("w1:t1", "1"),
        tab("w1:t2", "beta"),
        tab("w1:t3", "hand"),
        tab("w1:t4", "4"),
    ];
    let api = FakeHerdr::new(fs, panes.clone(), tabs.clone());
    let mut state = State::default();
    let cfg = Config::default();
    let pass = reconcile_listed(&api, &cfg, &state, Ok(panes), Ok(tabs), false, false).unwrap();
    // The hand-named tab and the claimed one get no request.
    assert_eq!(pass.next_rename(), Some(("w1:t1".to_string(), "alpha".to_string())));
    let outcome = drive(&api, pass, &mut state);
    assert_eq!(api.renames.borrow().as_slice(), [("w1:t1".to_string(), "alpha".to_string())]);
    assert_eq!(outcome.tabs, 4);
    assert_eq!(outcome.renamed.len(), 1);
    assert_eq!(outcome.renamed[0].tab_id, "w1:t1");
    assert_eq!(outcome.renamed[0].from, "1");
    assert_eq!(outcome.renamed[0].to, "alpha");
    assert_eq!(outcome.claimed, 1);
    assert_eq!(outcome.manual, 1);
    assert!(outcome.errors.is_empty());
    assert!(outcome.changed);
    assert_eq!(state.labels.len(), 2);
    assert_eq!(state.labels.get("w1:t1").map(String::as_str), Some("alpha"));
    assert_eq!(state.labels.get("w1:t2").map(String::as_str), Some("beta"));
    assert_eq!(state.labels.get("w1:t3"), None);
}

#[test]
fn listing_results_decide_the_pass() {
    let mut fs = FakeFs::default();
    let root = repo(&mut fs, "llama-rs", "develop");
    let panes = vec![pane("w1:p1", "w1:t1", &root)];
    let tabs = vec![tab("w1:t1", "1")];
    let api = FakeHerdr::new(fs, panes.clone(), tabs.clone());
    let cfg = Config::default();
    let mut state = State::default();
    let res = reconcile_listed(&api, &cfg, &state, Err("panes down".to_string()), Err("tabs down".to_string()), false, false);
    assert_eq!(res.err(), Some("panes down".to_string()));
    let res = reconcile_listed(&api, &cfg, &state, Ok(panes.clone()), Err("tabs down".to_string()), false, false);
    assert_eq!(res.err(), Some("tabs down".to_string()));
    assert!(state.labels.is_empty());
    assert_eq!(api.rename_count(), 0);
    let pass = reconcile_listed(&api, &cfg, &state, Ok(panes), Ok(tabs), false, false).unwrap();
    let o = drive(&api, pass, &mut state);
    assert_eq!(o.renamed.len(), 1);
    assert_eq!(o.renamed[0].to, "llama-rs");
    assert_eq!(state.labels.get("w1:t1").map(String::as_str), Some("llama-rs"));
}

#[test]
fn watcher_readopts_hand_named_tabs_when_configured() {
    let mut fs = FakeFs::default();
    let root = repo(&mut fs, "llama-rs", "develop");
    let api = FakeHerdr::new(fs, vec![pane("w1:p1", "w1:t1", &root)], vec![tab("w1:t1", "my-tab")]);
    let mut cfg = Config::default();
    let mut state = State::default();
    let res = pass_with(&api, &cfg, &mut state, false, cfg.overwrite_manual);
    assert_eq!(api.rename_count(), 0);
    assert!(!sync_done(&res).0);
    cfg.overwrite_manual = true;
    let res = pass_with(&api, &cfg, &mut state, false, cfg.overwrite_manual);
    assert!(sync_done(&res).0);
    assert_eq!(api.renames.borrow().as_slice(), [("w1:t1".to_string(), "llama-rs".to_string())]);
    assert_eq!(watch_log(&res), vec!["watch: w1:t1 'my-tab' -> 'llama-rs'".to_string()]);
    assert_eq!(state.labels.get("w1:t1").map(String::as_str), Some("llama-rs"));
}

#[test]
fn focused_pane_without_directory_does_not_name_the_tab() {
    let mut fs = FakeFs::default();
    let root = repo(&mut fs, "beta", "develop");
    let mut p1 = pane("w1:p1", "w1:t1", "");
    p1.foreground_cwd = None;
    p1.cwd = None;
    let mut p2 = pane("w1:p2", "w1:t1", &root);
    p2.focused = false;
    let panes = vec![p1, p2];
    let t = tab("w1:t1", "1");
    assert_eq!(pane_for_tab(&panes, &t).unwrap().pane_id, "w1:p2");
    let api = FakeHerdr::new(fs, panes, vec![t]);
    let mut state = State::default();
    run(&api, &mut state, false, false);
    assert_eq!(api.renames.borrow()[0].1, "beta");
}

#[test]
fn tab_at_its_label_gets_no_request() {
    let api = FakeHerdr::new(FakeFs::default(), vec![pane("w1:p1", "w1:t1", "/x")], vec![tab("w1:t1", "opencode")]);
    let cfg = Config { template: "{agent}".to_string(), ..Config::default() };
    let mut state = State::default();
    let pass = reconcile(&api, &cfg, &state, false, false).unwrap();
    assert_eq!(pass.next_rename(), None);
    let o = pass.finish(&mut state);
    assert_eq!(api.rename_count(), 0);
    assert_eq!(o.claimed, 1);
    assert!(o.changed);
    assert_eq!(state.labels.get("w1:t1").map(String::as_str), Some("opencode"));
}
