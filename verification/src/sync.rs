//! Reconciliation: compute the desired label for every tab and apply it when
//! the tab is ours to name.
use vstd::prelude::*;
use crate::config::Config;
use crate::git::RepoInfo;
use crate::herdr::{Pane, Tab};
use crate::label::{first_ticket, render, truncate, truncated, value_of, Ctx};
use crate::path::{file_name_of, PathModel, PathParts};
use crate::state::{decide, decision_for, Decision, Labels, State};
use crate::text::{clone_opt, lex_lt, lemma_lex_total, lemma_lex_transitive, owned, text_less};

verus! {

/// What the filesystem says about a pane's working directory.
#[derive(Debug)]
pub struct DirInfo {
    /// The directory's display name: `~` for the home directory, else its
    /// last component, else the text it was given as.
    pub name: String,
    /// The repository it belongs to, if any.
    pub repo: Option<RepoInfo>,
}

/// The Herdr operations reconciliation needs, so tests can drive a fake,
/// and the look at a working directory that the label is computed from.
///
/// The listings and descriptions are tied to their arguments by relations
/// of the implementation's: `gives_panes`, `gives_tabs` and `describes` say
/// which results it may give. Unless an implementation defines them, they
/// admit every result, so they claim nothing of it; what they let a pass
/// state is that the listings and descriptions it works with are the ones
/// these calls gave, for the arguments it gave them. Renames are sent by
/// whoever drives a `Pass`, which says which to send.
pub trait Herdr {
    /// `r` is a listing of panes that this Herdr may give.
    open spec fn gives_panes(&self, r: Result<Vec<Pane>, String>) -> bool {
        true
    }

    /// `r` is a listing of tabs that this Herdr may give.
    open spec fn gives_tabs(&self, r: Result<Vec<Tab>, String>) -> bool {
        true
    }

    /// `info` is a description this Herdr may give of the directory `dir`.
    open spec fn describes(&self, dir: Seq<char>, info: DirInfo) -> bool {
        true
    }

    fn pane_list(&self) -> (r: Result<Vec<Pane>, String>)
        ensures
            self.gives_panes(r),
    ;

    fn tab_list(&self) -> (r: Result<Vec<Tab>, String>)
        ensures
            self.gives_tabs(r),
    ;

    fn tab_rename(&self, tab_id: &str, label: &str) -> Result<(), String>;

    /// The name and repository of the directory `dir`.
    fn describe_dir(&self, dir: &str) -> (r: DirInfo)
        ensures
            self.describes(dir@, r),
    ;
}

#[derive(Debug, Default, PartialEq, Eq)]
pub struct Outcome {
    pub tabs: usize,
    pub renamed: Vec<Change>,
    pub claimed: usize,
    pub manual: usize,
    pub errors: Vec<String>,
    /// True when the ownership map changed and should be persisted.
    pub changed: bool,
}

#[derive(Debug, Clone, PartialEq, Eq)]
pub struct Change {
    pub tab_id: String,
    pub from: String,
    pub to: String,
}

impl View for Change {
    /// The tab id, the label it showed, and the label it was given.
    type V = (Seq<char>, Seq<char>, Seq<char>);

    open spec fn view(&self) -> (Seq<char>, Seq<char>, Seq<char>) {
        (self.tab_id@, self.from@, self.to@)
    }
}

// -- the desired label ----------------------------------------------------------

/// The ticket of the repository's branch, or nothing.
pub open spec fn ticket_of(cfg: Config, repo: Option<RepoInfo>) -> Seq<char> {
    match repo {
        Some(r) => match r.branch {
            Some(b) => match first_ticket(b@, cfg.ticket_prefixes@) {
                Some(t) => t,
                None => Seq::empty(),
            },
            None => Seq::empty(),
        },
        None => Seq::empty(),
    }
}

/// The context a pane's label is rendered from.
pub open spec fn ctx_of(cfg: Config, info: DirInfo, pane: Pane) -> (Seq<char>, Seq<char>, Seq<
    char,
>, Seq<char>, Seq<char>) {
    match info.repo {
        Some(r) => (r.name@, value_of(r.branch), ticket_of(cfg, info.repo), value_of(r.worktree), info.name@),
        None => (Seq::empty(), Seq::empty(), Seq::empty(), Seq::empty(), info.name@),
    }
}

/// The label for a pane: the template rendered with the repository name,
/// directory name, branch, ticket, worktree and the pane's agent and status;
/// the directory name when that renders empty; truncated to `max_length`.
pub open spec fn label_for(cfg: Config, info: DirInfo, pane: Pane) -> Seq<char> {
    let c = ctx_of(cfg, info, pane);
    let r = crate::label::collapse(
        crate::label::strip_braces(
            crate::label::substitute_values(
                cfg.template@,
                c.0,
                c.4,
                c.1,
                c.2,
                c.3,
                value_of(pane.agent),
                value_of(pane.agent_status),
            ),
        ),
    );
    let chosen = if r.len() == 0 {
        info.name@
    } else {
        r
    };
    truncated(chosen, cfg.max_length as nat)
}

/// Each token expands to its own field: with a template that is one
/// token, a tab is named after its pane's repository name (`{repo}`), the
/// directory's name (`{dir}`), the branch (`{branch}`), the branch's ticket
/// (`{ticket}`), the linked worktree's name (`{worktree}`), the pane's agent
/// (`{agent}`) or the agent's status (`{status}`); when that value is one
/// word and fits the length limit.
pub proof fn law_tokens_take_their_fields(cfg: Config, info: DirInfo, pane: Pane)
    ensures
        info.repo matches Some(r) ==> (cfg.template@ == crate::label::pat_repo() && fits(
            cfg,
            r.name@,
        ) ==> label_for(cfg, info, pane) == r.name@),
        info.repo matches Some(r) ==> (r.branch matches Some(b) ==> (cfg.template@
            == crate::label::pat_branch() && fits(cfg, b@) ==> label_for(cfg, info, pane) == b@)),
        info.repo matches Some(r) ==> (r.worktree matches Some(w) ==> (cfg.template@
            == crate::label::pat_worktree() && fits(cfg, w@) ==> label_for(cfg, info, pane)
            == w@)),
        cfg.template@ == crate::label::pat_dir() && fits(cfg, info.name@) ==> label_for(
            cfg,
            info,
            pane,
        ) == info.name@,
        cfg.template@ == crate::label::pat_ticket() && fits(cfg, ticket_of(cfg, info.repo))
            ==> label_for(cfg, info, pane) == ticket_of(cfg, info.repo),
        pane.agent matches Some(x) ==> (cfg.template@ == crate::label::pat_agent() && fits(
            cfg,
            x@,
        ) ==> label_for(cfg, info, pane) == x@),
        pane.agent_status matches Some(x) ==> (cfg.template@ == crate::label::pat_status() && fits(
            cfg,
            x@,
        ) ==> label_for(cfg, info, pane) == x@),
{
    let c = ctx_of(cfg, info, pane);
    let agent = value_of(pane.agent);
    let status = value_of(pane.agent_status);
    if crate::label::is_word(c.0) {
        crate::label::law_token_renders_its_value(c.0, c.4, c.1, c.2, c.3, agent, status, c.0);
    }
    if crate::label::is_word(c.1) {
        crate::label::law_token_renders_its_value(c.0, c.4, c.1, c.2, c.3, agent, status, c.1);
    }
    if crate::label::is_word(c.2) {
        crate::label::law_token_renders_its_value(c.0, c.4, c.1, c.2, c.3, agent, status, c.2);
    }
    if crate::label::is_word(c.3) {
        crate::label::law_token_renders_its_value(c.0, c.4, c.1, c.2, c.3, agent, status, c.3);
    }
    if crate::label::is_word(c.4) {
        crate::label::law_token_renders_its_value(c.0, c.4, c.1, c.2, c.3, agent, status, c.4);
    }
    if crate::label::is_word(agent) {
        crate::label::law_token_renders_its_value(c.0, c.4, c.1, c.2, c.3, agent, status, agent);
    }
    if crate::label::is_word(status) {
        crate::label::law_token_renders_its_value(c.0, c.4, c.1, c.2, c.3, agent, status, status);
    }
}

/// `v` is one word that the length limit leaves as it is.
pub open spec fn fits(cfg: Config, v: Seq<char>) -> bool {
    crate::label::is_word(v) && (cfg.max_length == 0 || v.len() <= cfg.max_length)
}

/// Compute the desired label for a pane's working directory.
pub fn compute_label(cfg: &Config, info: &DirInfo, pane: &Pane) -> (label: String)
    ensures
        label@ == label_for(*cfg, *info, *pane),
{
    let (repo, branch, ticket, worktree) = match &info.repo {
        Some(r) => {
            let ticket = match &r.branch {
                Some(b) => crate::label::extract_ticket(b.as_str(), cfg.ticket_prefixes.as_slice()),
                None => None,
            };
            (Some(r.name.clone()), clone_opt(&r.branch), ticket, clone_opt(&r.worktree))
        },
        None => (None, None, None, None),
    };
    let ctx = Ctx {
        repo,
        dir: info.name.clone(),
        branch,
        ticket,
        worktree,
        agent: clone_opt(&pane.agent),
        status: clone_opt(&pane.agent_status),
    };
    let rendered = render(cfg.template.as_str(), &ctx);
    let chosen = if rendered.as_str().is_empty() {
        info.name.clone()
    } else {
        rendered
    };
    truncate(chosen.as_str(), cfg.max_length)
}

/// The display name of a working directory: `~` when it is the home
/// directory (as given, or once canonicalized), else its last component,
/// else the text it was given as.
pub open spec fn directory_name_of(
    path: PathModel,
    raw: Seq<char>,
    home: Option<PathModel>,
    canonical: Option<PathModel>,
) -> Seq<char> {
    if home is Some && (path == home->0 || canonical == home) {
        seq!['~']
    } else {
        match file_name_of(path) {
            Some(n) => if n.len() > 0 {
                n
            } else {
                raw
            },
            None => raw,
        }
    }
}

pub open spec fn opt_path(o: Option<&PathParts>) -> Option<PathModel> {
    match o {
        Some(p) => Some(p@),
        None => None,
    }
}

/// The display name of the working directory `raw`, given its components,
/// the home directory if known and the directory's canonical form if it
/// has one.
pub fn directory_name(
    path: &PathParts,
    raw: &str,
    home: Option<&PathParts>,
    canonical: Option<&PathParts>,
) -> (name: String)
    ensures
        name@ == directory_name_of(path@, raw@, opt_path(home), opt_path(canonical)),
{
    if let Some(h) = home {
        let same = path.same_as(h) || match canonical {
            Some(c) => c.same_as(h),
            None => false,
        };
        if same {
            let t = "~";
            proof {
                reveal_strlit("~");
            }
            return owned(t);
        }
    }
    match path.file_name() {
        Some(n) => if n.as_str().is_empty() {
            owned(raw)
        } else {
            n
        },
        None => owned(raw),
    }
}

// -- which pane stands for a tab -------------------------------------------------

/// Pane `p` is preferred to pane `q`: focused first, then the smaller id.
pub open spec fn ranks_before(p: Pane, q: Pane) -> bool {
    (p.focused && !q.focused) || (p.focused == q.focused && lex_lt(p.pane_id@, q.pane_id@))
}

/// Pane `i` belongs to the tab and, when `need_workdir`, has a working
/// directory.
pub open spec fn candidate(panes: Seq<Pane>, tab_id: Seq<char>, need_workdir: bool, i: int) -> bool {
    0 <= i < panes.len() && panes[i].tab_id@ == tab_id && (need_workdir ==> panes[i].workdir_of() is Some)
}

/// Pane `i` is the tab's pane: a candidate that no other candidate ranks
/// before, and the first such.
pub open spec fn picks(panes: Seq<Pane>, tab_id: Seq<char>, need_workdir: bool, i: int) -> bool {
    &&& candidate(panes, tab_id, need_workdir, i)
    &&& forall|j: int|
        0 <= j < i && #[trigger] candidate(panes, tab_id, need_workdir, j) ==> ranks_before(panes[i], panes[j])
    &&& forall|j: int|
        i < j < panes.len() && #[trigger] candidate(panes, tab_id, need_workdir, j) ==> !ranks_before(
            panes[j],
            panes[i],
        )
}

proof fn lemma_ranks_transitive(p: Pane, q: Pane, r: Pane)
    requires
        ranks_before(p, q),
        ranks_before(q, r),
    ensures
        ranks_before(p, r),
{
    if p.focused == q.focused && q.focused == r.focused {
        lemma_lex_transitive(p.pane_id@, q.pane_id@, r.pane_id@);
    }
}

proof fn lemma_ranks_total(p: Pane, q: Pane)
    ensures
        ranks_before(p, q) || ranks_before(q, p) || (p.focused == q.focused && p.pane_id@
            == q.pane_id@),
        !(ranks_before(p, q) && ranks_before(q, p)),
{
    lemma_lex_total(p.pane_id@, q.pane_id@);
}

fn pick_pane<'a>(panes: &'a [Pane], tab: &Tab, need_workdir: bool) -> (r: Option<&'a Pane>)
    ensures
        r matches Some(p) ==> exists|i: int| #[trigger]
            picks(panes@, tab.tab_id@, need_workdir, i) && *p == panes@[i],
        r is None ==> forall|i: int| !#[trigger] candidate(panes@, tab.tab_id@, need_workdir, i),
{
    let ghost t = tab.tab_id@;
    let mut best: Option<usize> = None;
    let mut i: usize = 0;
    while i < panes.len()
        invariant
            i <= panes@.len(),
            t == tab.tab_id@,
            best is None ==> forall|j: int| 0 <= j < i ==> !#[trigger] candidate(panes@, t, need_workdir, j),
            best matches Some(b) ==> {
                &&& b < i
                &&& candidate(panes@, t, need_workdir, b as int)
                &&& forall|j: int|
                    0 <= j < b && #[trigger] candidate(panes@, t, need_workdir, j) ==> ranks_before(
                        panes@[b as int],
                        panes@[j],
                    )
                &&& forall|j: int|
                    b < j < i && #[trigger] candidate(panes@, t, need_workdir, j) ==> !ranks_before(
                        panes@[j],
                        panes@[b as int],
                    )
            },
        decreases panes@.len() - i,
    {
        let p = &panes[i];
        let is_candidate = p.tab_id == tab.tab_id && (!need_workdir || p.workdir().is_some());
        assert(is_candidate == candidate(panes@, t, need_workdir, i as int));
        if is_candidate {
            match best {
                None => {
                    best = Some(i);
                },
                Some(b) => {
                    let q = &panes[b];
                    let before = (p.focused && !q.focused) || (p.focused == q.focused
                        && text_less(p.pane_id.as_str(), q.pane_id.as_str()));
                    if before {
                        proof {
                            assert forall|j: int|
                                0 <= j < i && #[trigger] candidate(panes@, t, need_workdir, j) implies ranks_before(
                                panes@[i as int],
                                panes@[j],
                            ) by {
                                if j < b {
                                    lemma_ranks_transitive(panes@[i as int], panes@[b as int], panes@[j]);
                                } else if j > b {
                                    lemma_ranks_total(panes@[b as int], panes@[j]);
                                    if ranks_before(panes@[b as int], panes@[j]) {
                                        lemma_ranks_transitive(
                                            panes@[i as int],
                                            panes@[b as int],
                                            panes@[j],
                                        );
                                    }
                                }
                            }
                        }
                        best = Some(i);
                    }
                },
            }
        }
        i = i + 1;
    }
    match best {
        Some(b) => {
            assert(picks(panes@, tab.tab_id@, need_workdir, b as int));
            Some(&panes[b])
        },
        None => None,
    }
}

/// Pick the pane that represents a tab: prefer the focused one, then the
/// lowest pane id for determinism. Panes with no resolvable directory lose.
pub fn pane_for_tab<'a>(panes: &'a [Pane], tab: &Tab) -> (r: Option<&'a Pane>)
    ensures
        r matches Some(p) ==> exists|i: int| #[trigger]
            picks(panes@, tab.tab_id@, true, i) && *p == panes@[i],
        r is None ==> forall|i: int| !#[trigger] candidate(panes@, tab.tab_id@, true, i),
{
    pick_pane(panes, tab, true)
}

/// Among a tab's panes, a focused one is always preferred to an unfocused
/// one: when any pane of the tab with a working directory is focused, the
/// pane that stands for the tab is focused.
pub proof fn law_focused_pane_wins(panes: Seq<Pane>, tab_id: Seq<char>, w: bool, i: int, f: int)
    requires
        picks(panes, tab_id, w, i),
        candidate(panes, tab_id, w, f),
        panes[f].focused,
    ensures
        panes[i].focused,
{
    if f < i {
        assert(ranks_before(panes[i], panes[f]));
    } else if f > i {
        assert(!ranks_before(panes[f], panes[i]));
    }
}

/// Among equally focused panes of a tab, the one with the smallest pane
/// id stands for it.
pub proof fn law_lowest_id_wins(panes: Seq<Pane>, tab_id: Seq<char>, w: bool, i: int, j: int)
    requires
        picks(panes, tab_id, w, i),
        candidate(panes, tab_id, w, j),
        panes[j].focused == panes[i].focused,
        panes[j].pane_id@ != panes[i].pane_id@,
    ensures
        lex_lt(panes[i].pane_id@, panes[j].pane_id@),
{
    lemma_lex_total(panes[i].pane_id@, panes[j].pane_id@);
    if j < i {
        assert(ranks_before(panes[i], panes[j]));
    } else if j > i {
        assert(!ranks_before(panes[j], panes[i]));
    }
}

/// At most one pane stands for a tab.
pub proof fn law_pick_is_unique(panes: Seq<Pane>, tab_id: Seq<char>, w: bool, i: int, k: int)
    requires
        picks(panes, tab_id, w, i),
        picks(panes, tab_id, w, k),
    ensures
        i == k,
{
    if i < k {
        assert(candidate(panes, tab_id, w, i));
        assert(ranks_before(panes[k], panes[i]));
    } else if k < i {
        assert(candidate(panes, tab_id, w, k));
        assert(ranks_before(panes[i], panes[k]));
    }
}

// -- what to do with one tab ----------------------------------------------------------

/// What reconciliation does with a tab, given the label it wants.
#[derive(Debug, Clone, Copy, PartialEq, Eq, Structural)]
pub enum Plan {
    /// Nothing: the desired label is empty.
    Skip,
    /// The tab already shows the desired label: record it as ours.
    Claim,
    /// A human named the tab: leave it.
    Manual,
    /// Rename the tab to the desired label.
    Rename,
}

/// The label recorded for a tab, if any.
pub open spec fn recorded_for(labels: Map<Seq<char>, Seq<char>>, tab_id: Seq<char>) -> Option<
    Seq<char>,
> {
    if labels.contains_key(tab_id) {
        Some(labels[tab_id])
    } else {
        None
    }
}

pub open spec fn plan_for(
    current: Seq<char>,
    desired: Seq<char>,
    recorded: Option<Seq<char>>,
    first_run: bool,
    overwrite_manual: bool,
) -> Plan {
    if desired.len() == 0 {
        Plan::Skip
    } else if desired == current {
        Plan::Claim
    } else if decision_for(current, recorded, first_run, overwrite_manual) == Decision::Manual {
        Plan::Manual
    } else {
        Plan::Rename
    }
}

/// A tab that already shows its desired label is claimed, never renamed:
/// so a second pass right after a successful one renames nothing.
pub proof fn law_settled_tab_is_claimed(
    label: Seq<char>,
    recorded: Option<Seq<char>>,
    first_run: bool,
    overwrite_manual: bool,
)
    requires
        label.len() > 0,
    ensures
        plan_for(label, label, recorded, first_run, overwrite_manual) == Plan::Claim,
{
}

/// On the first run, or when manual labels are overwritten, no tab is left
/// alone as hand-named.
pub proof fn law_adoption_leaves_nothing_manual(
    current: Seq<char>,
    desired: Seq<char>,
    recorded: Option<Seq<char>>,
    first_run: bool,
    overwrite_manual: bool,
)
    requires
        first_run || overwrite_manual,
    ensures
        plan_for(current, desired, recorded, first_run, overwrite_manual) != Plan::Manual,
{
}

/// A hand-renamed tab sticks: a label that is neither the desired one, nor
/// the recorded one, nor Herdr's numeric default is left alone.
pub proof fn law_hand_renamed_tab_sticks(
    current: Seq<char>,
    desired: Seq<char>,
    recorded: Option<Seq<char>>,
)
    requires
        desired.len() > 0,
        desired != current,
        recorded != Some(current),
        !crate::state::default_label(current),
    ensures
        plan_for(current, desired, recorded, false, false) == Plan::Manual,
{
}

/// A tab that is ours, and does not show the label it wants, is renamed:
/// for a non-empty desired label other than the current one, the plan is a
/// rename exactly when the ownership rule says the tab is ours, and leaves
/// it as manual otherwise; in particular re-adopting all tabs, or a first
/// run, renames every such tab.
pub proof fn law_ours_is_renamed(
    current: Seq<char>,
    desired: Seq<char>,
    recorded: Option<Seq<char>>,
    first_run: bool,
    overwrite_manual: bool,
)
    requires
        desired.len() > 0,
        desired != current,
    ensures
        (plan_for(current, desired, recorded, first_run, overwrite_manual) == Plan::Rename) == (
        decision_for(current, recorded, first_run, overwrite_manual) == Decision::Ours),
        (plan_for(current, desired, recorded, first_run, overwrite_manual) == Plan::Manual) == (
        decision_for(current, recorded, first_run, overwrite_manual) == Decision::Manual),
        first_run || overwrite_manual ==> plan_for(
            current,
            desired,
            recorded,
            first_run,
            overwrite_manual,
        ) == Plan::Rename,
{
}

/// Decide what to do with `tab`, whose pane wants the label `desired`.
pub fn plan_tab(
    tab: &Tab,
    desired: &str,
    labels: &Labels,
    first_run: bool,
    overwrite_manual: bool,
) -> (p: Plan)
    ensures
        p == plan_for(
            tab.label@,
            desired@,
            recorded_for(labels@, tab.tab_id@),
            first_run,
            overwrite_manual,
        ),
{
    if desired.is_empty() {
        return Plan::Skip;
    }
    if crate::text::same_text(desired, tab.label.as_str()) {
        return Plan::Claim;
    }
    let recorded = match labels.get(tab.tab_id.as_str()) {
        Some(r) => Some(r.as_str()),
        None => None,
    };
    match decide(tab.label.as_str(), recorded, first_run, overwrite_manual) {
        Decision::Manual => Plan::Manual,
        Decision::Ours => Plan::Rename,
    }
}

/// A label that already equals what we would set is ours to claim: it is
/// recorded, the count of claimed tabs goes up, and the record is marked
/// changed when it did not already hold that label.
pub fn claim(state: &mut State, outcome: &mut Outcome, tab: &Tab, desired: String)
    requires
        old(outcome).claimed < usize::MAX,
    ensures
        final(state).labels@ == old(state).labels@.insert(tab.tab_id@, desired@),
        final(outcome).changed == (old(outcome).changed || recorded_for(
            old(state).labels@,
            tab.tab_id@,
        ) != Some(desired@)),
        final(outcome).claimed == old(outcome).claimed + 1,
        final(outcome).tabs == old(outcome).tabs,
        final(outcome).manual == old(outcome).manual,
        final(outcome).renamed@ == old(outcome).renamed@,
        final(outcome).errors@ == old(outcome).errors@,
{
    let same = match state.labels.get(tab.tab_id.as_str()) {
        Some(r) => *r == desired,
        None => false,
    };
    if !same {
        state.labels.insert(tab.tab_id.clone(), desired);
        outcome.changed = true;
    } else {
        assert(state.labels@.insert(tab.tab_id@, desired@) =~= state.labels@);
    }
    outcome.claimed = outcome.claimed + 1;
}

/// The error reported when renaming a tab fails: `<tab id>: <error>`.
pub open spec fn rename_error(tab_id: Seq<char>, e: Seq<char>) -> Seq<char> {
    tab_id + seq![':', ' '] + e
}

/// Records what came of renaming `tab` to `desired`: on success the label
/// is recorded as ours and the change listed; on failure nothing is recorded
/// and the error is listed.
pub fn record_rename(
    state: &mut State,
    outcome: &mut Outcome,
    tab: &Tab,
    desired: String,
    result: Result<(), String>,
)
    ensures
        match result {
            Ok(()) => {
                &&& final(state).labels@ == old(state).labels@.insert(tab.tab_id@, desired@)
                &&& final(outcome).changed
                &&& final(outcome).renamed@.len() == old(outcome).renamed@.len() + 1
                &&& final(outcome).renamed@.drop_last() == old(outcome).renamed@
                &&& final(outcome).renamed@.last().tab_id@ == tab.tab_id@
                &&& final(outcome).renamed@.last().from@ == tab.label@
                &&& final(outcome).renamed@.last().to@ == desired@
                &&& final(outcome).errors@ == old(outcome).errors@
            },
            Err(e) => {
                &&& final(state).labels@ == old(state).labels@
                &&& final(outcome).changed == old(outcome).changed
                &&& final(outcome).renamed@ == old(outcome).renamed@
                &&& final(outcome).errors@.len() == old(outcome).errors@.len() + 1
                &&& final(outcome).errors@.drop_last() == old(outcome).errors@
                &&& final(outcome).errors@.last()@ == rename_error(tab.tab_id@, e@)
            },
        },
        final(outcome).tabs == old(outcome).tabs,
        final(outcome).claimed == old(outcome).claimed,
        final(outcome).manual == old(outcome).manual,
{
    match result {
        Ok(()) => {
            let to = desired.clone();
            state.labels.insert(tab.tab_id.clone(), desired);
            outcome.changed = true;
            let change = Change { tab_id: tab.tab_id.clone(), from: tab.label.clone(), to };
            let ghost before = outcome.renamed@;
            outcome.renamed.push(change);
            assert(outcome.renamed@.drop_last() =~= before);
        },
        Err(e) => {
            let mut msg = tab.tab_id.clone();
            let sep = ": ";
            proof {
                reveal_strlit(": ");
            }
            msg.append(sep);
            msg.append(e.as_str());
            let ghost before = outcome.errors@;
            outcome.errors.push(msg);
            assert(outcome.errors@.drop_last() =~= before);
        },
    }
}

// -- one pass ------------------------------------------------------------------

/// No two tabs share an id.
pub open spec fn ids_distinct(tabs: Seq<Tab>) -> bool {
    forall|i: int, j: int|
        0 <= i < tabs.len() && 0 <= j < tabs.len() && i != j ==> (#[trigger] tabs[i]).tab_id@
            != (#[trigger] tabs[j]).tab_id@
}

/// Tab `i` has a pane with a working directory.
pub open spec fn served(panes: Seq<Pane>, tabs: Seq<Tab>, i: int) -> bool {
    exists|j: int| #[trigger] candidate(panes, tabs[i].tab_id@, true, j)
}

/// `msg` is a rename error of one of the tabs.
pub open spec fn names_a_tab(tabs: Seq<Tab>, msg: Seq<char>) -> bool {
    exists|x: int, e: Seq<char>| 0 <= x < tabs.len() && msg == rename_error(tabs[x].tab_id@, e)
}

/// `c` renames one of the first `n` tabs, one with a usable pane, from the
/// label it showed.
pub open spec fn change_of_tab(panes: Seq<Pane>, tabs: Seq<Tab>, c: Change, n: int) -> bool {
    exists|x: int|
        0 <= x < n && served(panes, tabs, x) && tabs[x].tab_id@ == c.tab_id@ && tabs[x].label@
            == c.from@
}

/// What holds of a pass over `tabs` whatever Herdr answered: `start` and
/// `end` are the ownership record before and after, `o` the outcome.
pub open spec fn pass_facts(
    start: Map<Seq<char>, Seq<char>>,
    end: Map<Seq<char>, Seq<char>>,
    panes: Seq<Pane>,
    tabs: Seq<Tab>,
    o: Outcome,
    first_run: bool,
    overwrite_manual: bool,
) -> bool {
    &&& o.tabs == tabs.len()
    &&& o.claimed + o.manual + o.renamed@.len() + o.errors@.len() <= tabs.len()
    // the record changes only when `changed` says so, and forgets nothing
    &&& !o.changed ==> end == start
    &&& forall|k: Seq<char>| #[trigger] start.contains_key(k) ==> end.contains_key(k)
    // every rename is of a listed tab with a usable pane, from its label to
    // a different, non-empty one, and is recorded as ours
    &&& forall|k: int|
        0 <= k < o.renamed@.len() ==> {
            &&& end.contains_key((#[trigger] o.renamed@[k]).tab_id@)
            &&& o.renamed@[k].to@.len() > 0
            &&& o.renamed@[k].to@ != o.renamed@[k].from@
            &&& change_of_tab(panes, tabs, o.renamed@[k], tabs.len() as int)
        }
    // every error names a listed tab
    &&& forall|k: int| 0 <= k < o.errors@.len() ==> names_a_tab(tabs, #[trigger] o.errors@[k]@)
    // on the first run, or when manual labels are overwritten, nothing is
    // left alone as hand-named
    &&& (first_run || overwrite_manual) ==> o.manual == 0
    // otherwise a renamed tab was ours: it showed Herdr's numeric default or
    // the label recorded for it
    // and, when no two tabs share an id, the record holds the label it was
    // given
    &&& ids_distinct(tabs) ==> forall|k: int|
        0 <= k < o.renamed@.len() ==> {
            &&& first_run || overwrite_manual || crate::state::default_label(
                (#[trigger] o.renamed@[k]).from@,
            ) || recorded_for(start, o.renamed@[k].tab_id@) == Some(o.renamed@[k].from@)
            &&& end[o.renamed@[k].tab_id@] == o.renamed@[k].to@
        }
}

/// Herdr listed these panes and these tabs.
pub open spec fn listed<H: Herdr>(api: H, panes: Vec<Pane>, tabs: Vec<Tab>) -> bool {
    api.gives_panes(Ok(panes)) && api.gives_tabs(Ok(tabs))
}

/// Listing failed with `e`: listing the panes did, or the panes were listed
/// and listing the tabs did.
pub open spec fn listing_failed<H: Herdr>(api: H, e: String) -> bool {
    ||| api.gives_panes(Err(e))
    ||| exists|p: Vec<Pane>| #[trigger] api.gives_panes(Ok(p)) && api.gives_tabs(Err(e))
}

/// The pane that stands for a tab: the one `pane_for_tab` picks, when the
/// tab has a pane with a working directory.
pub open spec fn pane_of(panes: Seq<Pane>, tab_id: Seq<char>) -> Option<Pane> {
    if exists|i: int| #[trigger] candidate(panes, tab_id, true, i) {
        Some(panes[choose|i: int| #[trigger] picks(panes, tab_id, true, i)])
    } else {
        None
    }
}

/// A pass in progress: the ownership record, the renames made so far (tab
/// id, old label, new label), the number of tabs claimed and left as
/// manual, the errors, whether the record changed, and the rename requests
/// sent to Herdr (tab id, label), in order.
pub type Tally = (
    Map<Seq<char>, Seq<char>>,
    Seq<(Seq<char>, Seq<char>, Seq<char>)>,
    nat,
    nat,
    Seq<Seq<char>>,
    bool,
    Seq<(Seq<char>, Seq<char>)>,
);

/// What Herdr answered about one tab: the description of its pane's
/// working directory, and what renaming the tab gave.
pub type Answer = (DirInfo, Result<(), String>);

/// One tab of a pass: the tab takes the label computed from its pane's
/// directory and is skipped, claimed, left as manual, or renamed as
/// `plan_for` says. Only a rename sends Herdr a request; it is recorded
/// when it succeeds and reported as an error when it fails.
pub open spec fn tab_step(
    cfg: Config,
    panes: Seq<Pane>,
    t: Tally,
    tab: Tab,
    answer: Answer,
    first_run: bool,
    overwrite_manual: bool,
) -> Tally {
    match pane_of(panes, tab.tab_id@) {
        None => t,
        Some(p) => {
            let id = tab.tab_id@;
            let desired = label_for(cfg, answer.0, p);
            let recorded = recorded_for(t.0, id);
            match plan_for(tab.label@, desired, recorded, first_run, overwrite_manual) {
                Plan::Skip => t,
                Plan::Claim => (
                    t.0.insert(id, desired),
                    t.1,
                    t.2 + 1,
                    t.3,
                    t.4,
                    t.5 || recorded != Some(desired),
                    t.6,
                ),
                Plan::Manual => (t.0, t.1, t.2, t.3 + 1, t.4, t.5, t.6),
                Plan::Rename => match answer.1 {
                    Ok(_) => (
                        t.0.insert(id, desired),
                        t.1.push((id, tab.label@, desired)),
                        t.2,
                        t.3,
                        t.4,
                        true,
                        t.6.push((id, desired)),
                    ),
                    Err(e) => (
                        t.0,
                        t.1,
                        t.2,
                        t.3,
                        t.4.push(rename_error(id, e@)),
                        t.5,
                        t.6.push((id, desired)),
                    ),
                },
            }
        },
    }
}

/// A pass over the first `answers.len()` tabs, in order, starting from the
/// ownership record `start`, with Herdr's answers for each: the description
/// of the tab's directory and, for a tab renamed, what renaming it gave.
pub open spec fn tally(
    cfg: Config,
    start: Map<Seq<char>, Seq<char>>,
    panes: Seq<Pane>,
    tabs: Seq<Tab>,
    answers: Seq<Answer>,
    first_run: bool,
    overwrite_manual: bool,
) -> Tally
    decreases answers.len(),
{
    if answers.len() == 0 {
        (start, Seq::empty(), 0, 0, Seq::empty(), false, Seq::empty())
    } else {
        let n = answers.len() - 1;
        tab_step(
            cfg,
            panes,
            tally(cfg, start, panes, tabs, answers.drop_last(), first_run, overwrite_manual),
            tabs[n],
            answers[n],
            first_run,
            overwrite_manual,
        )
    }
}

/// The outcome and the ownership record `labels` are what the tally says.
pub open spec fn shows(o: Outcome, labels: Map<Seq<char>, Seq<char>>, t: Tally) -> bool {
    &&& labels == t.0
    &&& o.renamed@.map_values(|c: Change| c@) == t.1
    &&& o.claimed == t.2
    &&& o.manual == t.3
    &&& o.errors@.map_values(|s: String| s@) == t.4
    &&& o.changed == t.5
}

/// Every label the record holds that it did not hold at the start was
/// written by the pass: given to a tab by a rename, or claimed from a tab
/// that already showed it.
pub open spec fn record_explained(
    start: Map<Seq<char>, Seq<char>>,
    end: Map<Seq<char>, Seq<char>>,
    renames: Seq<(Seq<char>, Seq<char>, Seq<char>)>,
    tabs: Seq<Tab>,
) -> bool {
    forall|k: Seq<char>|
        #[trigger] recorded_for(end, k) != recorded_for(start, k) ==> {
            &&& end.contains_key(k)
            &&& (exists|j: int|
                0 <= j < renames.len() && (#[trigger] renames[j]).0 == k && renames[j].2 == end[k])
                || (exists|i: int|
                0 <= i < tabs.len() && (#[trigger] tabs[i]).tab_id@ == k && tabs[i].label@
                    == end[k])
        }
}

/// Where each label of the ownership record came from: after a pass, a
/// tab's recorded label that changed is one the pass renamed the tab to, or
/// the label the tab showed when the pass claimed it; no label is dropped.
pub proof fn law_record_is_explained(
    cfg: Config,
    start: Map<Seq<char>, Seq<char>>,
    panes: Seq<Pane>,
    tabs: Seq<Tab>,
    answers: Seq<Answer>,
    first_run: bool,
    overwrite_manual: bool,
)
    requires
        answers.len() <= tabs.len(),
    ensures
        record_explained(
            start,
            tally(cfg, start, panes, tabs, answers, first_run, overwrite_manual).0,
            tally(cfg, start, panes, tabs, answers, first_run, overwrite_manual).1,
            tabs,
        ),
        forall|k: Seq<char>|
            #[trigger] start.contains_key(k) ==> tally(
                cfg,
                start,
                panes,
                tabs,
                answers,
                first_run,
                overwrite_manual,
            ).0.contains_key(k),
    decreases answers.len(),
{
    if answers.len() > 0 {
        let init = answers.drop_last();
        law_record_is_explained(cfg, start, panes, tabs, init, first_run, overwrite_manual);
        let n = answers.len() - 1;
        let t0 = tally(cfg, start, panes, tabs, init, first_run, overwrite_manual);
        let t1 = tally(cfg, start, panes, tabs, answers, first_run, overwrite_manual);
        let tab = tabs[n];
        let id = tab.tab_id@;
        assert forall|k: Seq<char>|
            #[trigger] recorded_for(t1.0, k) != recorded_for(start, k) implies {
            &&& t1.0.contains_key(k)
            &&& (exists|j: int|
                0 <= j < t1.1.len() && (#[trigger] t1.1[j]).0 == k && t1.1[j].2 == t1.0[k])
                || (exists|i: int|
                0 <= i < tabs.len() && (#[trigger] tabs[i]).tab_id@ == k && tabs[i].label@
                    == t1.0[k])
        } by {
            if k == id && t1.0 != t0.0 {
                match pane_of(panes, id) {
                    Some(p) => {
                        let d = label_for(cfg, answers[n].0, p);
                        if t1.1.len() > t0.1.len() {
                            assert(t1.1[t1.1.len() - 1] == (id, tab.label@, d));
                        } else {
                            assert(tabs[n].tab_id@ == k && tabs[n].label@ == t1.0[k]);
                        }
                    },
                    None => {},
                }
            } else {
                assert(recorded_for(t1.0, k) == recorded_for(t0.0, k));
                if exists|j: int|
                    0 <= j < t0.1.len() && (#[trigger] t0.1[j]).0 == k && t0.1[j].2 == t0.0[k] {
                    let j = choose|j: int|
                        0 <= j < t0.1.len() && (#[trigger] t0.1[j]).0 == k && t0.1[j].2 == t0.0[k];
                    assert(t1.1[j] == t0.1[j]);
                }
            }
        }
    }
}

/// The rename requests of a pass: one for each rename made and each rename
/// that failed, so at most one per tab; each asks to rename one of the tabs
/// to a non-empty label other than the one it shows.
pub proof fn law_requests_are_the_renames(
    cfg: Config,
    start: Map<Seq<char>, Seq<char>>,
    panes: Seq<Pane>,
    tabs: Seq<Tab>,
    answers: Seq<Answer>,
    first_run: bool,
    overwrite_manual: bool,
)
    requires
        answers.len() <= tabs.len(),
    ensures
        ({
            let t = tally(cfg, start, panes, tabs, answers, first_run, overwrite_manual);
            &&& t.6.len() == t.1.len() + t.4.len()
            &&& t.6.len() <= answers.len()
            &&& forall|j: int|
                0 <= j < t.6.len() ==> exists|i: int|
                    0 <= i < answers.len() && (#[trigger] tabs[i]).tab_id@ == (#[trigger] t.6[j]).0
                        && tabs[i].label@ != t.6[j].1 && t.6[j].1.len() > 0
        }),
    decreases answers.len(),
{
    if answers.len() > 0 {
        let init = answers.drop_last();
        law_requests_are_the_renames(cfg, start, panes, tabs, init, first_run, overwrite_manual);
        let n = answers.len() - 1;
        let t0 = tally(cfg, start, panes, tabs, init, first_run, overwrite_manual);
        let t1 = tally(cfg, start, panes, tabs, answers, first_run, overwrite_manual);
        assert forall|j: int| 0 <= j < t1.6.len() implies exists|i: int|
            0 <= i < answers.len() && (#[trigger] tabs[i]).tab_id@ == (#[trigger] t1.6[j]).0
                && tabs[i].label@ != t1.6[j].1 && t1.6[j].1.len() > 0 by {
            if j < t0.6.len() {
                assert(t1.6[j] == t0.6[j]);
                let i = choose|i: int|
                    0 <= i < init.len() && (#[trigger] tabs[i]).tab_id@ == (#[trigger] t0.6[j]).0
                        && tabs[i].label@ != t0.6[j].1 && t0.6[j].1.len() > 0;
                assert(0 <= i < answers.len());
            } else {
                assert(tabs[n].tab_id@ == t1.6[j].0);
            }
        }
    }
}

/// The label tab `i` shows after a pass: the label it was renamed to, when
/// the pass renamed it, else the one it had.
pub open spec fn label_after(
    cfg: Config,
    start: Map<Seq<char>, Seq<char>>,
    panes: Seq<Pane>,
    tabs: Seq<Tab>,
    answers: Seq<Answer>,
    first_run: bool,
    overwrite_manual: bool,
    i: int,
) -> Seq<char> {
    let tab = tabs[i];
    let before = tally(cfg, start, panes, tabs, answers.take(i), first_run, overwrite_manual);
    match pane_of(panes, tab.tab_id@) {
        Some(p) => {
            let desired = label_for(cfg, answers[i].0, p);
            let plan = plan_for(
                tab.label@,
                desired,
                recorded_for(before.0, tab.tab_id@),
                first_run,
                overwrite_manual,
            );
            if plan == Plan::Rename && answers[i].1 is Ok {
                desired
            } else {
                tab.label@
            }
        },
        None => tab.label@,
    }
}

/// A pass that renamed nothing, reported no error, and left the ownership
/// record `record` as it was.
pub open spec fn quiet(t: Tally, record: Map<Seq<char>, Seq<char>>) -> bool {
    &&& t.0 == record
    &&& t.1.len() == 0
    &&& t.4.len() == 0
    &&& !t.5
}

proof fn lemma_tally_step(
    cfg: Config,
    start: Map<Seq<char>, Seq<char>>,
    panes: Seq<Pane>,
    tabs: Seq<Tab>,
    answers: Seq<Answer>,
    first_run: bool,
    overwrite_manual: bool,
    i: int,
)
    requires
        0 <= i < answers.len(),
    ensures
        tally(cfg, start, panes, tabs, answers.take(i + 1), first_run, overwrite_manual) == tab_step(
            cfg,
            panes,
            tally(cfg, start, panes, tabs, answers.take(i), first_run, overwrite_manual),
            tabs[i],
            answers[i],
            first_run,
            overwrite_manual,
        ),
{
    assert(answers.take(i + 1).drop_last() =~= answers.take(i));
    assert(answers.take(i + 1)[i] == answers[i]);
}

/// The steps after the `m`th touch only the record of their own tabs.
proof fn lemma_tally_keeps(
    cfg: Config,
    start: Map<Seq<char>, Seq<char>>,
    panes: Seq<Pane>,
    tabs: Seq<Tab>,
    answers: Seq<Answer>,
    first_run: bool,
    overwrite_manual: bool,
    m: int,
    k: Seq<char>,
)
    requires
        0 <= m <= answers.len(),
        forall|j: int| m <= j < answers.len() ==> (#[trigger] tabs[j]).tab_id@ != k,
    ensures
        recorded_for(tally(cfg, start, panes, tabs, answers, first_run, overwrite_manual).0, k)
            == recorded_for(
            tally(cfg, start, panes, tabs, answers.take(m), first_run, overwrite_manual).0,
            k,
        ),
    decreases answers.len(),
{
    if answers.len() > m {
        let init = answers.drop_last();
        lemma_tally_keeps(cfg, start, panes, tabs, init, first_run, overwrite_manual, m, k);
        assert(init.take(m) =~= answers.take(m));
        assert(tabs[answers.len() - 1].tab_id@ != k);
    } else {
        assert(answers.take(m) =~= answers);
    }
}

proof fn lemma_second_pass_prefix(
    cfg: Config,
    start: Map<Seq<char>, Seq<char>>,
    panes: Seq<Pane>,
    tabs: Seq<Tab>,
    answers: Seq<Answer>,
    tabs2: Seq<Tab>,
    answers2: Seq<Answer>,
    first_run: bool,
    overwrite_manual: bool,
    n: int,
)
    requires
        ids_distinct(tabs),
        answers.len() == tabs.len(),
        tabs2.len() == tabs.len(),
        answers2.len() == tabs.len(),
        0 <= n <= tabs.len(),
        forall|i: int| 0 <= i < tabs.len() ==> (#[trigger] answers[i]).1 is Ok,
        forall|i: int|
            0 <= i < tabs.len() ==> {
                &&& (#[trigger] tabs2[i]).tab_id@ == tabs[i].tab_id@
                &&& tabs2[i].label@ == label_after(
                    cfg,
                    start,
                    panes,
                    tabs,
                    answers,
                    first_run,
                    overwrite_manual,
                    i,
                )
                &&& answers2[i].0 == answers[i].0
            },
    ensures
        quiet(
            tally(
                cfg,
                tally(cfg, start, panes, tabs, answers, first_run, overwrite_manual).0,
                panes,
                tabs2,
                answers2.take(n),
                false,
                overwrite_manual,
            ),
            tally(cfg, start, panes, tabs, answers, first_run, overwrite_manual).0,
        ),
    decreases n,
{
    let end1 = tally(cfg, start, panes, tabs, answers, first_run, overwrite_manual).0;
    if n == 0 {
        assert(answers2.take(0) =~= Seq::<Answer>::empty());
    } else {
        let i = n - 1;
        lemma_second_pass_prefix(
            cfg,
            start,
            panes,
            tabs,
            answers,
            tabs2,
            answers2,
            first_run,
            overwrite_manual,
            i,
        );
        lemma_tally_step(cfg, end1, panes, tabs2, answers2, false, overwrite_manual, i);
        lemma_tally_step(cfg, start, panes, tabs, answers, first_run, overwrite_manual, i);
        let id = tabs[i].tab_id@;
        assert(tabs2[i].tab_id@ == id);
        assert forall|j: int| i + 1 <= j < answers.len() implies (#[trigger] tabs[j]).tab_id@
            != id by {
            assert(tabs[j].tab_id@ != tabs[i].tab_id@);
        }
        lemma_tally_keeps(
            cfg,
            start,
            panes,
            tabs,
            answers,
            first_run,
            overwrite_manual,
            i + 1,
            id,
        );
        let before1 = tally(cfg, start, panes, tabs, answers.take(i), first_run, overwrite_manual);
        let after1 = tally(
            cfg,
            start,
            panes,
            tabs,
            answers.take(i + 1),
            first_run,
            overwrite_manual,
        );
        assert(recorded_for(end1, id) == recorded_for(after1.0, id));
        assert(answers[i].1 is Ok);
        match pane_of(panes, id) {
            Some(p) => {
                let d = label_for(cfg, answers[i].0, p);
                assert(label_for(cfg, answers2[i].0, p) == d);
                let plan1 = plan_for(
                    tabs[i].label@,
                    d,
                    recorded_for(before1.0, id),
                    first_run,
                    overwrite_manual,
                );
                if plan1 == Plan::Claim || plan1 == Plan::Rename {
                    assert(recorded_for(end1, id) == Some(d));
                    assert(end1.insert(id, d) =~= end1);
                }
            },
            None => {},
        }
    }
}

/// A pass right after one in which every rename succeeded, over the same
/// tabs, now showing the labels that pass left them, and the same working
/// directories, renames nothing, reports no error and leaves the ownership
/// record as it found it.
pub proof fn law_second_pass_is_quiet(
    cfg: Config,
    start: Map<Seq<char>, Seq<char>>,
    panes: Seq<Pane>,
    tabs: Seq<Tab>,
    answers: Seq<Answer>,
    tabs2: Seq<Tab>,
    answers2: Seq<Answer>,
    first_run: bool,
    overwrite_manual: bool,
)
    requires
        ids_distinct(tabs),
        answers.len() == tabs.len(),
        tabs2.len() == tabs.len(),
        answers2.len() == tabs.len(),
        forall|i: int| 0 <= i < tabs.len() ==> (#[trigger] answers[i]).1 is Ok,
        forall|i: int|
            0 <= i < tabs.len() ==> {
                &&& (#[trigger] tabs2[i]).tab_id@ == tabs[i].tab_id@
                &&& tabs2[i].label@ == label_after(
                    cfg,
                    start,
                    panes,
                    tabs,
                    answers,
                    first_run,
                    overwrite_manual,
                    i,
                )
                &&& answers2[i].0 == answers[i].0
            },
    ensures
        quiet(
            tally(
                cfg,
                tally(cfg, start, panes, tabs, answers, first_run, overwrite_manual).0,
                panes,
                tabs2,
                answers2,
                false,
                overwrite_manual,
            ),
            tally(cfg, start, panes, tabs, answers, first_run, overwrite_manual).0,
        ),
{
    lemma_second_pass_prefix(
        cfg,
        start,
        panes,
        tabs,
        answers,
        tabs2,
        answers2,
        first_run,
        overwrite_manual,
        tabs.len() as int,
    );
    assert(answers2.take(tabs.len() as int) =~= answers2);
}

proof fn lemma_pane_of(panes: Seq<Pane>, tab_id: Seq<char>, i: int)
    requires
        picks(panes, tab_id, true, i),
    ensures
        pane_of(panes, tab_id) == Some(panes[i]),
{
    assert(candidate(panes, tab_id, true, i));
    let k = choose|k: int| #[trigger] picks(panes, tab_id, true, k);
    law_pick_is_unique(panes, tab_id, true, i, k);
}

// -- a pass, one rename request at a time ----------------------------------------

/// The description of tab `i`'s directory, when it has a pane with one.
pub open spec fn info_of(infos: Seq<Option<DirInfo>>, i: int) -> DirInfo {
    match infos[i] {
        Some(x) => x,
        None => arbitrary(),
    }
}

/// `infos` describes each tab's directory as Herdr gave it: a description
/// of the working directory of the tab's pane, and nothing for a tab with no
/// pane that has one.
pub open spec fn infos_fit<H: Herdr>(
    api: H,
    panes: Seq<Pane>,
    tabs: Seq<Tab>,
    infos: Seq<Option<DirInfo>>,
) -> bool {
    &&& infos.len() == tabs.len()
    &&& forall|i: int|
        0 <= i < tabs.len() ==> match pane_of(panes, tabs[i].tab_id@) {
            Some(p) => (#[trigger] infos[i]) matches Some(x) && api.describes(p.workdir_of()->0, x),
            None => infos[i] is None,
        }
}

/// The answers after going on through the tabs that need no request: each
/// tab that is not to be renamed is taken in turn, until a tab that is to
/// be renamed, or the end.
pub open spec fn settle(
    cfg: Config,
    start: Map<Seq<char>, Seq<char>>,
    panes: Seq<Pane>,
    tabs: Seq<Tab>,
    infos: Seq<Option<DirInfo>>,
    answers: Seq<Answer>,
    first_run: bool,
    overwrite_manual: bool,
) -> Seq<Answer>
    decreases tabs.len() - answers.len(),
{
    let n = answers.len() as int;
    if n >= tabs.len() {
        answers
    } else {
        let next = answers.push((info_of(infos, n), Ok::<(), String>(())));
        match pane_of(panes, tabs[n].tab_id@) {
            Some(p) => {
                let t = tally(cfg, start, panes, tabs, answers, first_run, overwrite_manual);
                let desired = label_for(cfg, info_of(infos, n), p);
                if plan_for(
                    tabs[n].label@,
                    desired,
                    recorded_for(t.0, tabs[n].tab_id@),
                    first_run,
                    overwrite_manual,
                ) == Plan::Rename {
                    answers
                } else {
                    settle(cfg, start, panes, tabs, infos, next, first_run, overwrite_manual)
                }
            },
            None => settle(cfg, start, panes, tabs, infos, next, first_run, overwrite_manual),
        }
    }
}

/// The rename request a pass sends next: the tab it has reached, and the
/// label its pane wants; nothing at the end.
pub open spec fn next_request(
    cfg: Config,
    panes: Seq<Pane>,
    tabs: Seq<Tab>,
    infos: Seq<Option<DirInfo>>,
    answers: Seq<Answer>,
) -> Option<(Seq<char>, Seq<char>)> {
    let n = answers.len() as int;
    if n < tabs.len() {
        match pane_of(panes, tabs[n].tab_id@) {
            Some(p) => Some((tabs[n].tab_id@, label_for(cfg, info_of(infos, n), p))),
            None => None,
        }
    } else {
        None
    }
}

/// What holds of a pass that has taken the first `answers.len()` tabs: the
/// outcome and the record are the tally, and the facts of a pass hold so far.
pub open spec fn progress(
    cfg: Config,
    start: Map<Seq<char>, Seq<char>>,
    panes: Seq<Pane>,
    tabs: Seq<Tab>,
    infos: Seq<Option<DirInfo>>,
    answers: Seq<Answer>,
    labels: Map<Seq<char>, Seq<char>>,
    o: Outcome,
    first_run: bool,
    overwrite_manual: bool,
) -> bool {
    let i = answers.len() as int;
    &&& i <= tabs.len()
    &&& infos.len() == tabs.len()
    &&& forall|j: int|
        0 <= j < tabs.len() ==> ((#[trigger] infos[j]) is Some <==> pane_of(
            panes,
            tabs[j].tab_id@,
        ) is Some)
    &&& forall|j: int| 0 <= j < i ==> (#[trigger] answers[j]).0 == info_of(infos, j)
    &&& shows(o, labels, tally(cfg, start, panes, tabs, answers, first_run, overwrite_manual))
    &&& o.tabs == tabs.len()
    &&& o.claimed + o.manual + o.renamed@.len() + o.errors@.len() <= i
    &&& !o.changed ==> labels == start
    &&& forall|k: Seq<char>| #[trigger] start.contains_key(k) ==> labels.contains_key(k)
    &&& forall|k: Seq<char>|
        (forall|j: int| 0 <= j < i ==> (#[trigger] tabs[j]).tab_id@ != k) ==> recorded_for(labels, k)
            == recorded_for(start, k)
    &&& forall|k: int|
        0 <= k < o.renamed@.len() ==> {
            &&& labels.contains_key((#[trigger] o.renamed@[k]).tab_id@)
            &&& o.renamed@[k].to@.len() > 0
            &&& o.renamed@[k].to@ != o.renamed@[k].from@
            &&& change_of_tab(panes, tabs, o.renamed@[k], i)
            &&& ids_distinct(tabs) ==> (first_run || overwrite_manual
                || crate::state::default_label(o.renamed@[k].from@) || recorded_for(
                start,
                o.renamed@[k].tab_id@,
            ) == Some(o.renamed@[k].from@))
            &&& ids_distinct(tabs) ==> labels[o.renamed@[k].tab_id@] == o.renamed@[k].to@
        }
    &&& forall|k: int| 0 <= k < o.errors@.len() ==> names_a_tab(tabs, #[trigger] o.errors@[k]@)
    &&& (first_run || overwrite_manual) ==> o.manual == 0
}

/// Goes on through the tabs that need no request, from tab `at`, claiming
/// tabs and leaving manual ones; stops at a tab to rename, with the label
/// it wants, or at the end.
fn settle_tabs(
    cfg: &Config,
    panes: &Vec<Pane>,
    tabs: &Vec<Tab>,
    infos: &Vec<Option<DirInfo>>,
    state: &mut State,
    outcome: &mut Outcome,
    at: usize,
    first_run: bool,
    overwrite_manual: bool,
    Ghost(start): Ghost<Map<Seq<char>, Seq<char>>>,
    Ghost(answers): Ghost<Seq<Answer>>,
) -> (r: (usize, Option<String>, Ghost<Seq<Answer>>))
    requires
        at == answers.len(),
        progress(
            *cfg,
            start,
            panes@,
            tabs@,
            infos@,
            answers,
            old(state).labels@,
            *old(outcome),
            first_run,
            overwrite_manual,
        ),
    ensures
        r.2@ == settle(*cfg, start, panes@, tabs@, infos@, answers, first_run, overwrite_manual),
        settle(*cfg, start, panes@, tabs@, infos@, r.2@, first_run, overwrite_manual) == r.2@,
        r.0 == r.2@.len(),
        progress(
            *cfg,
            start,
            panes@,
            tabs@,
            infos@,
            r.2@,
            final(state).labels@,
            *final(outcome),
            first_run,
            overwrite_manual,
        ),
        match r.1 {
            Some(d) => {
                &&& r.0 < tabs@.len()
                &&& pane_of(panes@, tabs@[r.0 as int].tab_id@) matches Some(p) && d@ == label_for(
                    *cfg,
                    info_of(infos@, r.0 as int),
                    p,
                ) && plan_for(
                    tabs@[r.0 as int].label@,
                    d@,
                    recorded_for(final(state).labels@, tabs@[r.0 as int].tab_id@),
                    first_run,
                    overwrite_manual,
                ) == Plan::Rename
            },
            None => r.0 == tabs@.len(),
        },
{
    let ghost mut now = answers;
    let mut i = at;
    let mut pending: Option<String> = None;
    while pending.is_none() && i < tabs.len()
        invariant
            i == now.len(),
            progress(
                *cfg,
                start,
                panes@,
                tabs@,
                infos@,
                now,
                state.labels@,
                *outcome,
                first_run,
                overwrite_manual,
            ),
            settle(*cfg, start, panes@, tabs@, infos@, answers, first_run, overwrite_manual)
                == settle(*cfg, start, panes@, tabs@, infos@, now, first_run, overwrite_manual),
            match pending {
                Some(d) => {
                    &&& i < tabs@.len()
                    &&& pane_of(panes@, tabs@[i as int].tab_id@) matches Some(p) && d@ == label_for(
                        *cfg,
                        info_of(infos@, i as int),
                        p,
                    ) && plan_for(
                        tabs@[i as int].label@,
                        d@,
                        recorded_for(state.labels@, tabs@[i as int].tab_id@),
                        first_run,
                        overwrite_manual,
                    ) == Plan::Rename
                    &&& settle(*cfg, start, panes@, tabs@, infos@, now, first_run, overwrite_manual)
                        == now
                },
                None => true,
            },
        decreases tabs@.len() - i + (if pending is None {
            1int
        } else {
            0int
        }),
    {
        let tab = &tabs[i];
        let ghost id = tab.tab_id@;
        let ghost before = state.labels@;
        let ghost before_tally = tally(*cfg, start, panes@, tabs@, now, first_run, overwrite_manual);
        let ghost info_i = info_of(infos@, i as int);
        let ghost ans: Answer = (info_i, Ok(()));
        proof {
            assert(tabs@[i as int] == *tab);
            if ids_distinct(tabs@) {
                assert forall|j: int| 0 <= j < i implies (#[trigger] tabs@[j]).tab_id@ != id by {
                    assert(tabs@[i as int] == *tab);
                }
            }
            assert(now.push(ans).drop_last() =~= now);
        }
        match pane_for_tab(panes.as_slice(), tab) {
            None => {
                proof {
                    assert(pane_of(panes@, id) is None);
                }
            },
            Some(pane) => {
                proof {
                    let x = choose|x: int| #[trigger]
                        picks(panes@, tab.tab_id@, true, x) && *pane == panes@[x];
                    assert(candidate(panes@, tabs@[i as int].tab_id@, true, x));
                    assert(served(panes@, tabs@, i as int));
                    lemma_pane_of(panes@, id, x);
                    assert(infos@[i as int] is Some);
                }
                match &infos[i] {
                    Some(info) => {
                        let desired = compute_label(cfg, info, pane);
                        match plan_tab(
                            tab,
                            desired.as_str(),
                            &state.labels,
                            first_run,
                            overwrite_manual,
                        ) {
                            Plan::Skip => {},
                            Plan::Claim => {
                                claim(state, outcome, tab, desired);
                            },
                            Plan::Manual => {
                                outcome.manual = outcome.manual + 1;
                            },
                            Plan::Rename => {
                                pending = Some(desired);
                            },
                        }
                    },
                    None => {},
                }
            },
        }
        if pending.is_none() {
            proof {
                assert forall|j: int| 0 <= j < i + 1 implies (#[trigger] now.push(ans)[j]).0
                    == info_of(infos@, j) by {
                    if j < i {
                        assert(now.push(ans)[j] == now[j]);
                    }
                }
                now = now.push(ans);
                assert forall|k: Seq<char>|
                    (forall|j: int| 0 <= j < i + 1 ==> (#[trigger] tabs@[j]).tab_id@ != k) implies recorded_for(
                    state.labels@,
                    k,
                ) == recorded_for(start, k) by {
                    assert(tabs@[i as int].tab_id@ != k);
                    if forall|j: int| 0 <= j < i ==> (#[trigger] tabs@[j]).tab_id@ != k {
                    }
                }
                assert forall|k: int| 0 <= k < outcome.renamed@.len() implies change_of_tab(
                    panes@,
                    tabs@,
                    #[trigger] outcome.renamed@[k],
                    i + 1,
                ) by {
                    let x = choose|x: int|
                        0 <= x < i && served(panes@, tabs@, x) && tabs@[x].tab_id@
                            == outcome.renamed@[k].tab_id@ && tabs@[x].label@
                            == outcome.renamed@[k].from@;
                    assert(0 <= x < i + 1 && served(panes@, tabs@, x));
                }
                if ids_distinct(tabs@) {
                    assert forall|k: int| 0 <= k < outcome.renamed@.len() implies state.labels@[(
                    #[trigger] outcome.renamed@[k]).tab_id@] == outcome.renamed@[k].to@ by {
                        let x = choose|x: int|
                            0 <= x < i && served(panes@, tabs@, x) && tabs@[x].tab_id@
                                == outcome.renamed@[k].tab_id@ && tabs@[x].label@
                                == outcome.renamed@[k].from@;
                        assert(tabs@[x].tab_id@ != id);
                        assert(before[outcome.renamed@[k].tab_id@] == outcome.renamed@[k].to@);
                    }
                }
            }
            proof {
                let t = tally(*cfg, start, panes@, tabs@, now, first_run, overwrite_manual);
                assert(shows(*outcome, state.labels@, t));
                assert(outcome.claimed + outcome.manual + outcome.renamed@.len() + outcome.errors@.len() <= i + 1);
                assert(!outcome.changed ==> state.labels@ == start);
                assert(forall|k: Seq<char>| #[trigger] start.contains_key(k) ==> state.labels@.contains_key(k));
                assert((first_run || overwrite_manual) ==> outcome.manual == 0);
            }
            i = i + 1;
        }
    }
    (i, pending, Ghost(now))
}

/// A reconcile pass over the tabs Herdr listed, one rename request at a
/// time: `next_rename` says which rename to ask of Herdr, `answer` takes
/// what Herdr answered, and `finish` gives the outcome and the ownership
/// record. Tabs that need no request (claimed, left as manual, without a
/// pane) are taken on the way; only a tab that is ours to name and does not
/// show its label yet gets a request.
pub struct Pass<'a> {
    cfg: &'a Config,
    panes: Vec<Pane>,
    tabs: Vec<Tab>,
    infos: Vec<Option<DirInfo>>,
    first_run: bool,
    overwrite_manual: bool,
    state: State,
    outcome: Outcome,
    at: usize,
    pending: Option<String>,
    start: Ghost<Map<Seq<char>, Seq<char>>>,
    answers: Ghost<Seq<Answer>>,
}

impl<'a> Pass<'a> {
    #[verifier::type_invariant]
    closed spec fn inv(self) -> bool {
        &&& progress(
            *self.cfg,
            self.start@,
            self.panes@,
            self.tabs@,
            self.infos@,
            self.answers@,
            self.state.labels@,
            self.outcome,
            self.first_run,
            self.overwrite_manual,
        )
        &&& self.at == self.answers@.len()
        &&& settle(
            *self.cfg,
            self.start@,
            self.panes@,
            self.tabs@,
            self.infos@,
            self.answers@,
            self.first_run,
            self.overwrite_manual,
        ) == self.answers@
        &&& match self.pending {
            Some(d) => {
                &&& self.at < self.tabs@.len()
                &&& pane_of(self.panes@, self.tabs@[self.at as int].tab_id@) matches Some(p)
                    && d@ == label_for(*self.cfg, info_of(self.infos@, self.at as int), p)
                    && plan_for(
                    self.tabs@[self.at as int].label@,
                    d@,
                    recorded_for(self.state.labels@, self.tabs@[self.at as int].tab_id@),
                    self.first_run,
                    self.overwrite_manual,
                ) == Plan::Rename
            },
            None => self.at == self.tabs@.len(),
        }
    }

    pub closed spec fn cfg(&self) -> Config {
        *self.cfg
    }

    /// The ownership record the pass started from.
    pub closed spec fn start(&self) -> Map<Seq<char>, Seq<char>> {
        self.start@
    }

    pub closed spec fn panes(&self) -> Seq<Pane> {
        self.panes@
    }

    pub closed spec fn tabs(&self) -> Seq<Tab> {
        self.tabs@
    }

    /// The descriptions of the tabs' directories.
    pub closed spec fn infos(&self) -> Seq<Option<DirInfo>> {
        self.infos@
    }

    pub closed spec fn first_run(&self) -> bool {
        self.first_run
    }

    pub closed spec fn overwrite_manual(&self) -> bool {
        self.overwrite_manual
    }

    /// The answers for the tabs taken so far.
    pub closed spec fn answers(&self) -> Seq<Answer> {
        self.answers@
    }

    /// The tally of the tabs taken so far.
    pub open spec fn so_far(&self) -> Tally {
        tally(
            self.cfg(),
            self.start(),
            self.panes(),
            self.tabs(),
            self.answers(),
            self.first_run(),
            self.overwrite_manual(),
        )
    }

    /// The rename the pass asks for now, if any.
    pub open spec fn request(&self) -> Option<(Seq<char>, Seq<char>)> {
        next_request(self.cfg(), self.panes(), self.tabs(), self.infos(), self.answers())
    }

    /// The answers after taking what renaming the current tab gave, and
    /// going on to the next request.
    pub open spec fn after(&self, result: Result<(), String>) -> Seq<Answer> {
        settle(
            self.cfg(),
            self.start(),
            self.panes(),
            self.tabs(),
            self.infos(),
            self.answers().push((info_of(self.infos(), self.answers().len() as int), result)),
            self.first_run(),
            self.overwrite_manual(),
        )
    }

    /// The rename to ask of Herdr now: the tab's id and its new label;
    /// nothing when the pass is over.
    pub fn next_rename(&self) -> (r: Option<(String, String)>)
        ensures
            match r {
                Some((id, label)) => self.request() == Some((id@, label@)),
                None => self.request() is None,
            },
    {
        proof {
            use_type_invariant(self);
        }
        match &self.pending {
            Some(d) => Some((self.tabs[self.at].tab_id.clone(), d.clone())),
            None => None,
        }
    }

    /// Takes what Herdr answered to the rename asked for, and goes on to the
    /// next one; with no rename asked for, the pass stays as it is.
    pub fn answer(self, result: Result<(), String>) -> (p: Pass<'a>)
        ensures
            p.cfg() == self.cfg(),
            p.start() == self.start(),
            p.panes() == self.panes(),
            p.tabs() == self.tabs(),
            p.infos() == self.infos(),
            p.first_run() == self.first_run(),
            p.overwrite_manual() == self.overwrite_manual(),
            p.answers() == if self.request() is Some {
                self.after(result)
            } else {
                self.answers()
            },
    {
        proof {
            use_type_invariant(&self);
        }
        let Pass {
            cfg,
            panes,
            tabs,
            infos,
            first_run,
            overwrite_manual,
            mut state,
            mut outcome,
            at,
            pending,
            start,
            answers,
        } = self;
        match pending {
            None => Pass {
                cfg,
                panes,
                tabs,
                infos,
                first_run,
                overwrite_manual,
                state,
                outcome,
                at,
                pending: None,
                start,
                answers,
            },
            Some(desired) => {
                let ghost r = result;
                let ghost now = answers@;
                let ghost d = desired@;
                let ghost before = state.labels@;
                let ghost before_renamed = outcome.renamed@;
                let ghost before_errors = outcome.errors@;
                let ghost before_tally = tally(
                    *cfg,
                    start@,
                    panes@,
                    tabs@,
                    now,
                    first_run,
                    overwrite_manual,
                );
                let ghost ans: Answer = (info_of(infos@, at as int), r);
                let tab = &tabs[at];
                let ghost id = tab.tab_id@;
                proof {
                    assert(tabs@[at as int] == *tab);
                    if ids_distinct(tabs@) {
                        assert forall|j: int| 0 <= j < at implies (#[trigger] tabs@[j]).tab_id@
                            != id by {
                            assert(tabs@[at as int] == *tab);
                        }
                    }
                    assert(now.push(ans).drop_last() =~= now);
                    assert(pane_of(panes@, id) is Some);
                    assert(served(panes@, tabs@, at as int));
                }
                record_rename(&mut state, &mut outcome, tab, desired, result);
                proof {
                    if r is Err {
                        let k = outcome.errors@.len() - 1;
                        let e = r->Err_0@;
                        assert(outcome.errors@[k]@ == rename_error(tabs@[at as int].tab_id@, e));
                        assert(names_a_tab(tabs@, outcome.errors@[k]@));
                        assert(outcome.errors@.map_values(|s: String| s@) =~= before_tally.4.push(
                            rename_error(id, e),
                        ));
                    } else {
                        assert(outcome.renamed@.map_values(|c: Change| c@) =~= before_tally.1.push(
                            (id, tab.label@, d),
                        ));
                    }
                    assert forall|j: int| 0 <= j < at + 1 implies (#[trigger] now.push(ans)[j]).0
                        == info_of(infos@, j) by {
                        if j < at {
                            assert(now.push(ans)[j] == now[j]);
                        }
                    }
                    assert forall|k: int| 0 <= k < outcome.errors@.len() implies names_a_tab(
                        tabs@,
                        #[trigger] outcome.errors@[k]@,
                    ) by {
                        if k < before_errors.len() {
                            assert(outcome.errors@[k] == before_errors[k]);
                        }
                    }
                    assert forall|k: Seq<char>|
                        (forall|j: int| 0 <= j < at + 1 ==> (#[trigger] tabs@[j]).tab_id@ != k) implies recorded_for(
                        state.labels@,
                        k,
                    ) == recorded_for(start@, k) by {
                        assert(tabs@[at as int].tab_id@ != k);
                        if forall|j: int| 0 <= j < at ==> (#[trigger] tabs@[j]).tab_id@ != k {
                        }
                    }
                    assert forall|k: int| 0 <= k < outcome.renamed@.len() implies {
                        &&& state.labels@.contains_key((#[trigger] outcome.renamed@[k]).tab_id@)
                        &&& outcome.renamed@[k].to@.len() > 0
                        &&& outcome.renamed@[k].to@ != outcome.renamed@[k].from@
                        &&& change_of_tab(panes@, tabs@, outcome.renamed@[k], at + 1)
                        &&& ids_distinct(tabs@) ==> (first_run || overwrite_manual
                            || crate::state::default_label(outcome.renamed@[k].from@)
                            || recorded_for(start@, outcome.renamed@[k].tab_id@) == Some(
                            outcome.renamed@[k].from@,
                        ))
                        &&& ids_distinct(tabs@) ==> state.labels@[outcome.renamed@[k].tab_id@]
                            == outcome.renamed@[k].to@
                    } by {
                        if k < before_renamed.len() {
                            assert(outcome.renamed@[k] == before_renamed[k]);
                            let x = choose|x: int|
                                0 <= x < at && served(panes@, tabs@, x) && tabs@[x].tab_id@
                                    == before_renamed[k].tab_id@ && tabs@[x].label@
                                    == before_renamed[k].from@;
                            assert(0 <= x < at + 1 && served(panes@, tabs@, x));
                            if ids_distinct(tabs@) {
                                assert(tabs@[x].tab_id@ != id);
                                assert(state.labels@[before_renamed[k].tab_id@]
                                    == before[before_renamed[k].tab_id@]);
                            }
                        } else {
                            assert(outcome.renamed@[k].tab_id@ == id);
                            assert(change_of_tab(panes@, tabs@, outcome.renamed@[k], at + 1)) by {
                                assert(served(panes@, tabs@, at as int));
                            }
                            if ids_distinct(tabs@) {
                                assert(recorded_for(before, id) == recorded_for(start@, id));
                            }
                        }
                    }
                }
                let (j, next, later) = settle_tabs(
                    cfg,
                    &panes,
                    &tabs,
                    &infos,
                    &mut state,
                    &mut outcome,
                    at + 1,
                    first_run,
                    overwrite_manual,
                    start,
                    Ghost(now.push(ans)),
                );
                Pass {
                    cfg,
                    panes,
                    tabs,
                    infos,
                    first_run,
                    overwrite_manual,
                    state,
                    outcome,
                    at: j,
                    pending: next,
                    start,
                    answers: later,
                }
            },
        }
    }

    /// The outcome of the pass, with the ownership record written into
    /// `state`: the tally of the tabs taken; once every tab is taken, the
    /// facts of a pass hold of it.
    pub fn finish(self, state: &mut State) -> (o: Outcome)
        ensures
            final(state).labels@ == self.so_far().0,
            shows(o, final(state).labels@, self.so_far()),
            o.tabs == self.tabs().len(),
            self.request() is None ==> pass_facts(
                self.start(),
                final(state).labels@,
                self.panes(),
                self.tabs(),
                o,
                self.first_run(),
                self.overwrite_manual(),
            ),
    {
        proof {
            use_type_invariant(&self);
        }
        let Pass { state: s, outcome, .. } = self;
        *state = s;
        outcome
    }
}

/// Describes the directory of each tab's pane, asking Herdr (`describe_dir`)
/// once for each tab that has a pane with a working directory.
pub fn describe_tabs<H: Herdr>(api: &H, panes: &Vec<Pane>, tabs: &Vec<Tab>) -> (infos: Vec<
    Option<DirInfo>,
>)
    ensures
        infos_fit(*api, panes@, tabs@, infos@),
{
    let mut infos: Vec<Option<DirInfo>> = Vec::new();
    let mut i: usize = 0;
    while i < tabs.len()
        invariant
            i <= tabs@.len(),
            infos@.len() == i,
            forall|j: int|
                0 <= j < i ==> match pane_of(panes@, tabs@[j].tab_id@) {
                    Some(p) => (#[trigger] infos@[j]) matches Some(x) && api.describes(
                        p.workdir_of()->0,
                        x,
                    ),
                    None => infos@[j] is None,
                },
        decreases tabs@.len() - i,
    {
        let tab = &tabs[i];
        let ghost before = infos@;
        let info = match pane_for_tab(panes.as_slice(), tab) {
            Some(pane) => {
                proof {
                    let x = choose|x: int| #[trigger]
                        picks(panes@, tab.tab_id@, true, x) && *pane == panes@[x];
                    assert(candidate(panes@, tab.tab_id@, true, x));
                    lemma_pane_of(panes@, tab.tab_id@, x);
                }
                match pane.workdir() {
                    Some(dir) => Some(api.describe_dir(dir)),
                    None => None,
                }
            },
            None => None,
        };
        infos.push(info);
        proof {
            assert(tabs@[i as int] == *tab);
            assert forall|j: int| 0 <= j < i implies infos@[j] == before[j] by {}
        }
        i = i + 1;
    }
    infos
}

/// A pass was started with `cfg` from the record `start` over these panes
/// and tabs, with the directories as Herdr described them, and has gone on
/// to its first rename request.
pub open spec fn started<H: Herdr>(
    api: H,
    p: Pass,
    cfg: Config,
    start: Map<Seq<char>, Seq<char>>,
    panes: Seq<Pane>,
    tabs: Seq<Tab>,
    first_run: bool,
    overwrite_manual: bool,
) -> bool {
    &&& p.cfg() == cfg
    &&& p.start() == start
    &&& p.panes() == panes
    &&& p.tabs() == tabs
    &&& p.first_run() == first_run
    &&& p.overwrite_manual() == overwrite_manual
    &&& infos_fit(api, panes, tabs, p.infos())
    &&& p.answers() == settle(
        cfg,
        start,
        panes,
        tabs,
        p.infos(),
        Seq::empty(),
        first_run,
        overwrite_manual,
    )
}

/// A pass, given what listing the panes and the tabs gave: a failed
/// listing is the pass's error (the panes' first); otherwise the pass
/// starts over the listed tabs from the record in `state`.
pub fn reconcile_listed<'a, H: Herdr>(
    api: &H,
    cfg: &'a Config,
    state: &State,
    panes: Result<Vec<Pane>, String>,
    tabs: Result<Vec<Tab>, String>,
    first_run: bool,
    overwrite_manual: bool,
) -> (res: Result<Pass<'a>, String>)
    ensures
        match (panes, tabs) {
            (Err(e), _) => res matches Err(x) && x == e,
            (Ok(_), Err(e)) => res matches Err(x) && x == e,
            (Ok(p), Ok(t)) => res matches Ok(pass) && started(
                *api,
                pass,
                *cfg,
                state.labels@,
                p@,
                t@,
                first_run,
                overwrite_manual,
            ),
        },
{
    let panes = match panes {
        Ok(p) => p,
        Err(e) => return Err(e),
    };
    let tabs = match tabs {
        Ok(t) => t,
        Err(e) => return Err(e),
    };
    let infos = describe_tabs(api, &panes, &tabs);
    let mut work = State { labels: state.labels.clone() };
    let mut outcome = Outcome {
        tabs: tabs.len(),
        renamed: Vec::new(),
        claimed: 0,
        manual: 0,
        errors: Vec::new(),
        changed: false,
    };
    let ghost start = state.labels@;
    proof {
        assert(outcome.renamed@.map_values(|c: Change| c@) =~= Seq::empty());
        assert(outcome.errors@.map_values(|s: String| s@) =~= Seq::empty());
        assert forall|j: int| 0 <= j < tabs@.len() implies ((#[trigger] infos@[j]) is Some <==> pane_of(
            panes@,
            tabs@[j].tab_id@,
        ) is Some) by {}
    }
    let (at, pending, answers) = settle_tabs(
        cfg,
        &panes,
        &tabs,
        &infos,
        &mut work,
        &mut outcome,
        0,
        first_run,
        overwrite_manual,
        Ghost(start),
        Ghost(Seq::empty()),
    );
    Ok(
        Pass {
            cfg,
            panes,
            tabs,
            infos,
            first_run,
            overwrite_manual,
            state: work,
            outcome,
            at,
            pending,
            start: Ghost(start),
            answers,
        },
    )
}

/// Starts a pass over every tab: lists the panes, then (when that worked)
/// the tabs, and describes the directory of each tab's pane. Only a failure
/// to list fails, with that failure's error. The renames are then asked of
/// Herdr one at a time, as the pass says (see `Pass`).
pub fn reconcile<'a, H: Herdr>(
    api: &H,
    cfg: &'a Config,
    state: &State,
    first_run: bool,
    overwrite_manual: bool,
) -> (res: Result<Pass<'a>, String>)
    ensures
        match res {
            Err(e) => listing_failed(*api, e),
            Ok(p) => exists|panes: Vec<Pane>, tabs: Vec<Tab>|
                #[trigger] listed(*api, panes, tabs) && started(
                    *api,
                    p,
                    *cfg,
                    state.labels@,
                    panes@,
                    tabs@,
                    first_run,
                    overwrite_manual,
                ),
        },
{
    let panes = api.pane_list();
    let tabs = match &panes {
        Ok(_) => api.tab_list(),
        Err(_) => Ok(Vec::new()),
    };
    let ghost listed_panes = panes;
    let ghost listed_tabs = tabs;
    let res = reconcile_listed(api, cfg, state, panes, tabs, first_run, overwrite_manual);
    proof {
        if listed_panes is Ok && listed_tabs is Ok {
            assert(listed(*api, listed_panes->Ok_0, listed_tabs->Ok_0));
        }
        if listed_panes is Ok && listed_tabs is Err {
            assert(api.gives_panes(Ok(listed_panes->Ok_0)));
        }
    }
    res
}

} // verus!
