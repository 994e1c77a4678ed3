//! Git repository discovery from what the filesystem says.
//!
//! No `git` subprocess is spawned: the walk reads `.git` (a directory for a
//! normal checkout, a file for linked worktrees and submodules) and `HEAD`.
//! Linked worktrees resolve back to the *main* repository so `{repo}` stays
//! stable when you work inside `.worktrees/<branch>`.
//!
//! The reading itself is the caller's: `resolve` takes one directory and
//! what its `.git` entry turned out to be, and says where to look next;
//! `finish` takes the `HEAD` text and builds the result.
use vstd::prelude::*;
use crate::path::{components, file_name_of, join_of, parent_of, text_of, PathModel, PathParts};
use crate::text::{
    chars_of, first_line, first_line_end, starts_with_at, string_of_range, strip_prefix, trim,
    trim_bounds,
};

verus! {

#[derive(Debug)]
pub struct RepoInfo {
    /// Working-tree root of the main repository.
    pub root: PathParts,
    /// Main repository directory name, e.g. `llama-rs`.
    pub name: String,
    /// Git admin directory backing this working tree.
    pub gitdir: PathParts,
    /// Current branch, or `None` when HEAD is detached.
    pub branch: Option<String>,
    /// Linked worktree name when this is a worktree checkout.
    pub worktree: Option<String>,
}

impl Clone for RepoInfo {
    fn clone(&self) -> (r: RepoInfo)
        ensures
            r.root@ == self.root@,
            r.name@ == self.name@,
            r.gitdir@ == self.gitdir@,
            r.branch == self.branch,
            r.worktree == self.worktree,
    {
        RepoInfo {
            root: self.root.clone_path(),
            name: self.name.clone(),
            gitdir: self.gitdir.clone_path(),
            branch: self.branch.clone(),
            worktree: self.worktree.clone(),
        }
    }
}

/// What the `.git` entry of a directory is.
#[derive(Debug)]
pub enum DotGit {
    /// A directory: a normal checkout.
    Dir,
    /// A file (a linked worktree or a submodule), with its text when it
    /// could be read.
    File(Option<String>),
    /// Neither.
    Missing,
}

/// A working tree found by the walk, before its `HEAD` is read.
#[derive(Debug)]
pub struct Checkout {
    /// The checkout's root; for a linked worktree the main repository's
    /// root as the gitdir pointer gives it, which the caller canonicalizes
    /// before `finish` when it can.
    pub root: PathParts,
    /// The git admin directory backing the checkout.
    pub gitdir: PathParts,
    /// The linked worktree's name, for a linked worktree.
    pub worktree: Option<String>,
}

/// One step of the walk up from the starting directory.
#[derive(Debug)]
pub enum Step {
    Found(Checkout),
    /// Look in this directory next.
    Up(PathParts),
    /// No repository.
    NotFound,
}

pub open spec fn name_git() -> Seq<char> {
    seq!['.', 'g', 'i', 't']
}

pub open spec fn name_head() -> Seq<char> {
    seq!['H', 'E', 'A', 'D']
}

pub open spec fn name_worktrees() -> Seq<char> {
    seq!['w', 'o', 'r', 'k', 't', 'r', 'e', 'e', 's']
}

pub open spec fn gitdir_key() -> Seq<char> {
    seq!['g', 'i', 't', 'd', 'i', 'r', ':']
}

pub open spec fn head_ref_prefix() -> Seq<char> {
    seq!['r', 'e', 'f', ':', ' ', 'r', 'e', 'f', 's', '/', 'h', 'e', 'a', 'd', 's', '/']
}

/// The `.git` entry of a directory.
pub fn dot_git(dir: &PathParts) -> (p: PathParts)
    ensures
        p@ == (dir@.0, dir@.1.push(name_git())),
{
    let name = ".git";
    proof {
        reveal_strlit(".git");
        assert(name@ =~= name_git());
    }
    dir.child(name)
}

/// The `HEAD` file of a git admin directory.
pub fn head_file(gitdir: &PathParts) -> (p: PathParts)
    ensures
        p@ == (gitdir@.0, gitdir@.1.push(name_head())),
{
    let name = "HEAD";
    proof {
        reveal_strlit("HEAD");
        assert(name@ =~= name_head());
    }
    gitdir.child(name)
}

// -- base names -----------------------------------------------------------------

/// The name of a directory: its last component, or the whole path when it
/// has no normal last component (`/`, `..`).
pub open spec fn base_name_of(m: PathModel) -> Seq<char> {
    match file_name_of(m) {
        Some(n) => if n.len() > 0 {
            n
        } else {
            text_of(m)
        },
        None => text_of(m),
    }
}

pub fn base_name(path: &PathParts) -> (s: String)
    ensures
        s@ == base_name_of(path@),
{
    match path.file_name() {
        Some(n) => if n.as_str().is_empty() {
            path.display()
        } else {
            n
        },
        None => path.display(),
    }
}

// -- HEAD ---------------------------------------------------------------------

/// The branch a `HEAD` text names: `ref: refs/heads/<branch>` around
/// whitespace, the branch non-empty; `None` for a detached HEAD.
pub open spec fn branch_of(text: Seq<char>) -> Option<Seq<char>> {
    match strip_prefix(trim(text), head_ref_prefix()) {
        Some(rest) => if trim(rest).len() > 0 {
            Some(trim(rest))
        } else {
            None
        },
        None => None,
    }
}

/// The branch named by the text of a `HEAD` file.
pub fn parse_head(text: &str) -> (r: Option<String>)
    ensures
        r matches Some(b) ==> branch_of(text@) == Some(b@),
        r is None ==> branch_of(text@) is None,
{
    let v = chars_of(text);
    let (a, b) = trim_bounds(&v, 0, v.len());
    assert(v@.subrange(0, v@.len() as int) =~= v@);
    let p = vec!['r', 'e', 'f', ':', ' ', 'r', 'e', 'f', 's', '/', 'h', 'e', 'a', 'd', 's', '/'];
    if !starts_with_at(&v, a, b, &p) {
        return None;
    }
    assert(v@.subrange(a as int, b as int).skip(p@.len() as int) =~= v@.subrange(
        (a + p.len()) as int,
        b as int,
    ));
    let (c, d) = trim_bounds(&v, a + p.len(), b);
    if c < d {
        Some(string_of_range(&v, c, d))
    } else {
        None
    }
}

// -- .git files -------------------------------------------------------------------

/// The gitdir a `.git` file points to: its first line, trimmed, must start
/// with `gitdir:`; the rest, trimmed and non-empty, is a path, taken
/// relative to `base` unless absolute.
pub open spec fn gitdir_of(text: Seq<char>, base: PathModel) -> Option<PathModel> {
    match first_line(text) {
        Some(line) => match strip_prefix(trim(line), gitdir_key()) {
            Some(rest) => if trim(rest).len() > 0 {
                Some(join_of(base, components(trim(rest))))
            } else {
                None
            },
            None => None,
        },
        None => None,
    }
}

pub fn parse_gitdir_file(text: &str, base: &PathParts) -> (r: Option<PathParts>)
    ensures
        r matches Some(p) ==> gitdir_of(text@, base@) == Some(p@),
        r is None ==> gitdir_of(text@, base@) is None,
{
    let v = chars_of(text);
    let e = match first_line_end(&v) {
        Some(e) => e,
        None => return None,
    };
    assert(v@.subrange(0, e as int) =~= v@.take(e as int));
    let (a, b) = trim_bounds(&v, 0, e);
    let key = vec!['g', 'i', 't', 'd', 'i', 'r', ':'];
    if !starts_with_at(&v, a, b, &key) {
        return None;
    }
    assert(v@.subrange(a as int, b as int).skip(key@.len() as int) =~= v@.subrange(
        (a + key.len()) as int,
        b as int,
    ));
    let (c, d) = trim_bounds(&v, a + key.len(), b);
    if c >= d {
        return None;
    }
    let raw = string_of_range(&v, c, d);
    let path = PathParts::parse(raw.as_str());
    Some(base.join(&path))
}

// -- linked worktrees ----------------------------------------------------------------

/// The last position of `worktrees` among the components.
pub open spec fn last_worktrees(parts: Seq<Seq<char>>) -> Option<int> {
    if exists|i: int| 0 <= i < parts.len() && parts[i] == name_worktrees() {
        Some(
            choose|i: int|
                0 <= i < parts.len() && parts[i] == name_worktrees() && forall|k: int|
                    i < k < parts.len() ==> parts[k] != name_worktrees(),
        )
    } else {
        None
    }
}

/// `<main>/.git/worktrees/<name>` split into `(<main>/.git, <name>)`: the
/// last `worktrees` component must have a component after it, and some
/// component (the root counts) before it.
pub open spec fn worktree_of(m: PathModel) -> Option<(PathModel, Seq<char>)> {
    match last_worktrees(m.1) {
        Some(i) => if i + 1 >= m.1.len() || (!m.0 && i == 0) {
            None
        } else {
            Some(((m.0, m.1.take(i)), m.1[i + 1]))
        },
        None => None,
    }
}

fn is_worktrees(s: &String) -> (b: bool)
    ensures
        b == (s@ == name_worktrees()),
{
    let v = chars_of(s.as_str());
    let w = vec!['w', 'o', 'r', 'k', 't', 'r', 'e', 'e', 's'];
    assert(w@ =~= name_worktrees());
    if v.len() != w.len() {
        assert(v@.len() != w@.len());
        return false;
    }
    let mut i: usize = 0;
    while i < v.len()
        invariant
            v@.len() == w@.len(),
            v@ == s@,
            w@ == name_worktrees(),
            i <= v@.len(),
            forall|k: int| 0 <= k < i ==> v@[k] == w@[k],
        decreases v@.len() - i,
    {
        if v[i] != w[i] {
            assert(v@[i as int] != w@[i as int]);
            return false;
        }
        i = i + 1;
    }
    assert(v@ =~= w@);
    true
}

/// Turn `<main>/.git/worktrees/<name>` into `(<main>/.git, <name>)`.
pub fn split_worktree(gitdir: &PathParts) -> (r: Option<(PathParts, String)>)
    ensures
        r matches Some(x) ==> worktree_of(gitdir@) == Some((x.0@, x.1@)),
        r is None ==> worktree_of(gitdir@) is None,
{
    let n = gitdir.len();
    let mut i: usize = n;
    let mut found = false;
    while i > 0 && !found
        invariant
            i <= n,
            n == gitdir@.1.len(),
            forall|k: int| i <= k < n ==> gitdir@.1[k] != name_worktrees(),
            found ==> i > 0 && gitdir@.1[i - 1] == name_worktrees(),
        decreases i + (if found { 0int } else { 1int }),
    {
        if is_worktrees(gitdir.part(i - 1)) {
            found = true;
        } else {
            i = i - 1;
        }
    }
    if i == 0 {
        assert(last_worktrees(gitdir@.1) is None);
        return None;
    }
    let idx = i - 1;
    proof {
        assert(gitdir@.1[idx as int] == name_worktrees());
        let c = last_worktrees(gitdir@.1)->0;
        assert(c == idx as int);
    }
    if idx + 1 >= n || (!gitdir.is_absolute() && idx == 0) {
        return None;
    }
    let main = gitdir.prefix(idx);
    let name = gitdir.part(idx + 1).clone();
    Some((main, name))
}

// -- the walk ------------------------------------------------------------------------

/// The result of looking at the `.git` entry of `dir`.
pub open spec fn step_of(dir: PathModel, dotgit: DotGit) -> Option<
    Result<(PathModel, PathModel, Option<Seq<char>>), PathModel>,
> {
    match dotgit {
        DotGit::Dir => Some(Ok((dir, (dir.0, dir.1.push(name_git())), None))),
        DotGit::File(text) => {
            let g = match text {
                Some(t) => gitdir_of(t@, dir),
                None => None,
            };
            match g {
                Some(gitdir) => match worktree_of(gitdir) {
                    Some((main_gitdir, name)) => {
                        let root = match parent_of(main_gitdir) {
                            Some(p) => p,
                            None => main_gitdir,
                        };
                        Some(Ok((root, gitdir, Some(name))))
                    },
                    None => Some(Ok((dir, gitdir, None))),
                },
                None => None,
            }
        },
        DotGit::Missing => match parent_of(dir) {
            Some(p) => if p != dir {
                Some(Err(p))
            } else {
                None
            },
            None => None,
        },
    }
}

/// One step of the walk up from a directory, given what its `.git` entry
/// is: a `.git` directory is a checkout rooted here; a `.git` file points to
/// the git admin directory (a linked worktree resolves to the main
/// repository, anything else is its own root), and an unreadable or
/// malformed one ends the walk with no repository; with no `.git` the walk
/// goes on in the parent, and ends at the top.
pub fn resolve(dir: &PathParts, dotgit: DotGit) -> (s: Step)
    ensures
        match s {
            Step::Found(c) => step_of(dir@, dotgit) == Some(
                Ok::<_, PathModel>((c.root@, c.gitdir@, opt_view(c.worktree))),
            ),
            Step::Up(p) => step_of(dir@, dotgit) == Some(
                Err::<(PathModel, PathModel, Option<Seq<char>>), _>(p@),
            ),
            Step::NotFound => step_of(dir@, dotgit) is None,
        },
        s matches Step::Up(p) ==> p@.1.len() < dir@.1.len(),
{
    let ghost spec_step = step_of(dir@, dotgit);
    match dotgit {
        DotGit::Dir => Step::Found(
            Checkout { root: dir.clone_path(), gitdir: dot_git(dir), worktree: None },
        ),
        DotGit::File(text) => {
            let g = match &text {
                Some(t) => parse_gitdir_file(t.as_str(), dir),
                None => None,
            };
            match g {
                Some(gitdir) => match split_worktree(&gitdir) {
                    Some((main_gitdir, name)) => {
                        let root = match main_gitdir.parent() {
                            Some(p) => p,
                            None => main_gitdir,
                        };
                        Step::Found(Checkout { root, gitdir, worktree: Some(name) })
                    },
                    None => Step::Found(Checkout { root: dir.clone_path(), gitdir, worktree: None }),
                },
                None => Step::NotFound,
            }
        },
        DotGit::Missing => match dir.parent() {
            Some(p) => {
                if p.same_as(dir) {
                    Step::NotFound
                } else {
                    Step::Up(p)
                }
            },
            None => Step::NotFound,
        },
    }
}

pub open spec fn opt_view(o: Option<String>) -> Option<Seq<char>> {
    match o {
        Some(s) => Some(s@),
        None => None,
    }
}

/// The repository of a checkout, given the root to name it by (the
/// checkout's root, canonicalized by the caller for a linked worktree) and
/// the text of its `HEAD` file when it could be read.
pub fn finish(checkout: Checkout, root: PathParts, head: Option<&str>) -> (info: RepoInfo)
    ensures
        info.root@ == root@,
        info.name@ == base_name_of(root@),
        info.gitdir@ == checkout.gitdir@,
        opt_view(info.branch) == match head {
            Some(t) => branch_of(t@),
            None => None,
        },
        info.worktree == checkout.worktree,
{
    let name = base_name(&root);
    let branch = match head {
        Some(t) => parse_head(t),
        None => None,
    };
    RepoInfo { root, name, gitdir: checkout.gitdir, branch, worktree: checkout.worktree }
}

/// Where the walk up from `dir` ends, when each directory's `.git` entry
/// is what `fs` says: the checkout found (root, git admin directory, linked
/// worktree name), or nothing.
pub open spec fn walk(dir: PathModel, fs: spec_fn(PathModel) -> DotGit) -> Option<
    (PathModel, PathModel, Option<Seq<char>>),
>
    decreases dir.1.len(),
{
    match step_of(dir, fs(dir)) {
        Some(Ok(found)) => Some(found),
        Some(Err(parent)) => if parent.1.len() < dir.1.len() {
            walk(parent, fs)
        } else {
            None
        },
        None => None,
    }
}

/// `{repo}` is the same from any subdirectory: from every directory below
/// a plain checkout, through directories with no `.git` entry, the walk
/// finds that checkout.
pub proof fn law_same_repo_from_any_subdirectory(
    root: PathModel,
    rest: Seq<Seq<char>>,
    fs: spec_fn(PathModel) -> DotGit,
)
    requires
        fs(root) == DotGit::Dir,
        forall|k: int| 0 < k <= rest.len() ==> fs((root.0, root.1 + rest.take(k))) == DotGit::Missing,
    ensures
        walk((root.0, root.1 + rest), fs) == Some(
            (root, (root.0, root.1.push(name_git())), None::<Seq<char>>),
        ),
    decreases rest.len(),
{
    let dir = (root.0, root.1 + rest);
    if rest.len() == 0 {
        assert(root.1 + rest =~= root.1);
    } else {
        assert(rest.take(rest.len() as int) =~= rest);
        assert(fs(dir) == DotGit::Missing);
        let shorter = rest.drop_last();
        assert((root.1 + rest).drop_last() =~= root.1 + shorter);
        assert forall|k: int| 0 < k <= shorter.len() implies fs((root.0, root.1 + shorter.take(k)))
            == DotGit::Missing by {
            assert(shorter.take(k) =~= rest.take(k));
        }
        law_same_repo_from_any_subdirectory(root, shorter, fs);
    }
}

/// A linked worktree keeps the main repository's name: a `.git` file that
/// points to `<main>/.git/worktrees/<name>` is a checkout rooted at
/// `<main>`, named as the worktree `<name>`.
pub proof fn law_worktree_resolves_to_main_repo(
    dir: PathModel,
    text: String,
    main: PathModel,
    name: Seq<char>,
)
    requires
        gitdir_of(text@, dir) == Some(
            (main.0, main.1.push(name_git()).push(name_worktrees()).push(name)),
        ),
        name != name_worktrees(),
    ensures
        step_of(dir, DotGit::File(Some(text))) == Some(
            Ok::<_, PathModel>(
                (
                    main,
                    (main.0, main.1.push(name_git()).push(name_worktrees()).push(name)),
                    Some(name),
                ),
            ),
        ),
{
    let g = (main.0, main.1.push(name_git()).push(name_worktrees()).push(name));
    let i = g.1.len() - 2;
    assert(g.1[i] == name_worktrees());
    let c = last_worktrees(g.1)->0;
    assert(c == i);
    assert(g.1.take(i) =~= main.1.push(name_git()));
    assert(main.1.push(name_git()).drop_last() =~= main.1);
}

} // verus!
