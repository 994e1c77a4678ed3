//! Persistent state: which labels this plugin owns, plus the names of the
//! watcher's bookkeeping files. The ownership record is what makes a
//! hand-renamed tab stick.
use vstd::prelude::*;
use crate::path::PathParts;
use crate::text::{
    chars_of, contains_text, is_ascii_digit, is_digit, owned, text_contains, trim, trim_bounds,
};

verus! {

// -- the ownership record -----------------------------------------------------

pub open spec fn keys_distinct(e: Seq<(String, String)>) -> bool {
    forall|i: int, j: int|
        0 <= i < e.len() && 0 <= j < e.len() && i != j ==> (#[trigger] e[i]).0@ != (
        #[trigger] e[j]).0@
}

/// The map that a list of distinct `(key, value)` pairs stands for.
pub open spec fn map_of(e: Seq<(String, String)>) -> Map<Seq<char>, Seq<char>>
    decreases e.len(),
{
    if e.len() == 0 {
        Map::empty()
    } else {
        map_of(e.drop_last()).insert(e.last().0@, e.last().1@)
    }
}

proof fn lemma_map_of_index(e: Seq<(String, String)>, i: int)
    requires
        keys_distinct(e),
        0 <= i < e.len(),
    ensures
        map_of(e).contains_key(e[i].0@),
        map_of(e)[e[i].0@] == e[i].1@,
    decreases e.len(),
{
    if i < e.len() - 1 {
        let init = e.drop_last();
        assert(init[i] == e[i]);
        assert(keys_distinct(init)) by {
            assert forall|a: int, b: int|
                0 <= a < init.len() && 0 <= b < init.len() && a != b implies (
            #[trigger] init[a]).0@ != (#[trigger] init[b]).0@ by {
                assert(init[a] == e[a]);
                assert(init[b] == e[b]);
            }
        }
        lemma_map_of_index(init, i);
        assert(e.last() == e[e.len() - 1]);
    }
}

proof fn lemma_map_of_absent(e: Seq<(String, String)>, k: Seq<char>)
    requires
        forall|i: int| 0 <= i < e.len() ==> (#[trigger] e[i]).0@ != k,
    ensures
        !map_of(e).contains_key(k),
    decreases e.len(),
{
    if e.len() > 0 {
        let init = e.drop_last();
        assert forall|i: int| 0 <= i < init.len() implies (#[trigger] init[i]).0@ != k by {
            assert(init[i] == e[i]);
        }
        lemma_map_of_absent(init, k);
        assert(e.last() == e[e.len() - 1]);
    }
}

proof fn lemma_distinct_prefix(e: Seq<(String, String)>)
    requires
        keys_distinct(e),
        e.len() > 0,
    ensures
        keys_distinct(e.drop_last()),
{
    let init = e.drop_last();
    assert forall|a: int, b: int|
        0 <= a < init.len() && 0 <= b < init.len() && a != b implies (#[trigger] init[a]).0@ != (
    #[trigger] init[b]).0@ by {
        assert(init[a] == e[a]);
        assert(init[b] == e[b]);
    }
}

proof fn lemma_map_of_update(e: Seq<(String, String)>, i: int, p: (String, String))
    requires
        keys_distinct(e),
        0 <= i < e.len(),
        p.0@ == e[i].0@,
    ensures
        map_of(e.update(i, p)) == map_of(e).insert(p.0@, p.1@),
        keys_distinct(e.update(i, p)),
    decreases e.len(),
{
    let u = e.update(i, p);
    assert(keys_distinct(u)) by {
        assert forall|a: int, b: int|
            0 <= a < u.len() && 0 <= b < u.len() && a != b implies (#[trigger] u[a]).0@ != (
        #[trigger] u[b]).0@ by {
            if a != i {
                assert(u[a] == e[a]);
            }
            if b != i {
                assert(u[b] == e[b]);
            }
        }
    }
    let init = e.drop_last();
    lemma_distinct_prefix(e);
    if i == e.len() - 1 {
        assert(u.drop_last() =~= init);
        assert(u.last() == p);
        assert(map_of(u) =~= map_of(e).insert(p.0@, p.1@));
    } else {
        assert(u.drop_last() =~= init.update(i, p));
        assert(init[i] == e[i]);
        lemma_map_of_update(init, i, p);
        assert(u.last() == e.last());
        assert(e.last() == e[e.len() - 1]);
        assert(e.last().0@ != p.0@);
        assert(map_of(u) =~= map_of(e).insert(p.0@, p.1@));
    }
}

/// The position of `key` among the entries.
fn find_key(entries: &Vec<(String, String)>, key: &str) -> (r: Option<usize>)
    ensures
        r matches Some(i) ==> i < entries@.len() && entries@[i as int].0@ == key@,
        r is None ==> forall|i: int| 0 <= i < entries@.len() ==> (#[trigger] entries@[i]).0@ != key@,
{
    let k = owned(key);
    let mut i: usize = 0;
    while i < entries.len()
        invariant
            i <= entries@.len(),
            k@ == key@,
            forall|x: int| 0 <= x < i ==> (#[trigger] entries@[x]).0@ != key@,
        decreases entries@.len() - i,
    {
        if entries[i].0 == k {
            return Some(i);
        }
        i = i + 1;
    }
    None
}

/// Which label this plugin wrote on which tab, by tab id.
#[derive(Debug)]
pub struct Labels {
    entries: Vec<(String, String)>,
}

impl View for Labels {
    type V = Map<Seq<char>, Seq<char>>;

    closed spec fn view(&self) -> Map<Seq<char>, Seq<char>> {
        map_of(self.entries@)
    }
}

impl Labels {
    #[verifier::type_invariant]
    closed spec fn inv(self) -> bool {
        keys_distinct(self.entries@)
    }

    /// An empty record.
    pub fn new() -> (r: Labels)
        ensures
            r@ == Map::<Seq<char>, Seq<char>>::empty(),
    {
        Labels { entries: Vec::new() }
    }

    fn find(&self, key: &str) -> (r: Option<usize>)
        ensures
            r matches Some(i) ==> i < self.entries@.len() && self.entries@[i as int].0@ == key@,
            r is None ==> forall|i: int|
                0 <= i < self.entries@.len() ==> (#[trigger] self.entries@[i]).0@ != key@,
    {
        find_key(&self.entries, key)
    }

    /// The label recorded for `key`.
    pub fn get(&self, key: &str) -> (r: Option<&String>)
        ensures
            r matches Some(v) ==> self@.contains_key(key@) && self@[key@] == v@,
            r is None ==> !self@.contains_key(key@),
    {
        proof {
            use_type_invariant(self);
        }
        match self.find(key) {
            Some(i) => {
                proof {
                    lemma_map_of_index(self.entries@, i as int);
                }
                Some(&self.entries[i].1)
            },
            None => {
                proof {
                    lemma_map_of_absent(self.entries@, key@);
                }
                None
            },
        }
    }

    /// Records `value` as the label of `key`, replacing any earlier one.
    pub fn insert(&mut self, key: String, value: String)
        ensures
            final(self)@ == old(self)@.insert(key@, value@),
    {
        proof {
            use_type_invariant(&*self);
        }
        let mut e: Vec<(String, String)> = Vec::new();
        std::mem::swap(&mut e, &mut self.entries);
        let ghost ge = e@;
        assert(old(self)@ == map_of(ge));
        match find_key(&e, key.as_str()) {
            Some(i) => {
                proof {
                    lemma_map_of_update(ge, i as int, (key, value));
                }
                e.set(i, (key, value));
                self.entries = e;
            },
            None => {
                let ghost p = (key, value);
                assert(keys_distinct(ge.push(p))) by {
                    let u = ge.push(p);
                    assert forall|a: int, b: int|
                        0 <= a < u.len() && 0 <= b < u.len() && a != b implies (
                    #[trigger] u[a]).0@ != (#[trigger] u[b]).0@ by {
                        if a < ge.len() {
                            assert(u[a] == ge[a]);
                        }
                        if b < ge.len() {
                            assert(u[b] == ge[b]);
                        }
                    }
                }
                e.push((key, value));
                assert(e@.drop_last() =~= ge);
                self.entries = e;
            },
        }
    }

    fn copy_entries(&self) -> (r: Vec<(String, String)>)
        ensures
            r@ == self.entries@,
    {
        let mut r: Vec<(String, String)> = Vec::new();
        let mut i: usize = 0;
        while i < self.entries.len()
            invariant
                i <= self.entries@.len(),
                r@ == self.entries@.take(i as int),
            decreases self.entries@.len() - i,
        {
            let k = self.entries[i].0.clone();
            let v = self.entries[i].1.clone();
            r.push((k, v));
            assert(r@ =~= self.entries@.take(i + 1));
            i = i + 1;
        }
        assert(self.entries@.take(i as int) =~= self.entries@);
        r
    }

    /// The number of tabs with a recorded label.
    pub fn len(&self) -> (n: usize)
        ensures
            n == self@.len(),
    {
        proof {
            use_type_invariant(self);
            lemma_map_len(self.entries@);
        }
        self.entries.len()
    }

    /// Whether no label is recorded.
    pub fn is_empty(&self) -> (b: bool)
        ensures
            b == (self@ == Map::<Seq<char>, Seq<char>>::empty()),
    {
        proof {
            use_type_invariant(self);
            if self.entries@.len() > 0 {
                lemma_map_of_index(self.entries@, 0);
                assert(self@.contains_key(self.entries@[0].0@));
            } else {
                assert(self@ =~= Map::<Seq<char>, Seq<char>>::empty());
            }
        }
        self.entries.len() == 0
    }

    /// Every recorded `(tab id, label)` pair, once each.
    pub fn entries(&self) -> (r: Vec<(String, String)>)
        ensures
            keys_distinct(r@),
            map_of(r@) == self@,
    {
        proof {
            use_type_invariant(self);
        }
        self.copy_entries()
    }
}

proof fn lemma_map_len(e: Seq<(String, String)>)
    requires
        keys_distinct(e),
    ensures
        map_of(e).len() == e.len(),
        map_of(e).dom().finite(),
    decreases e.len(),
{
    if e.len() > 0 {
        let init = e.drop_last();
        lemma_distinct_prefix(e);
        lemma_map_len(init);
        assert forall|i: int| 0 <= i < init.len() implies (#[trigger] init[i]).0@ != e.last().0@ by {
            assert(init[i] == e[i]);
            assert(e.last() == e[e.len() - 1]);
        }
        lemma_map_of_absent(init, e.last().0@);
    }
}

impl Clone for Labels {
    fn clone(&self) -> (r: Labels)
        ensures
            r@ == self@,
    {
        proof {
            use_type_invariant(self);
        }
        Labels { entries: self.copy_entries() }
    }
}

impl Default for Labels {
    fn default() -> (r: Labels)
        ensures
            r@ == Map::<Seq<char>, Seq<char>>::empty(),
    {
        Labels::new()
    }
}

/// Everything the plugin persists between runs.
#[derive(Debug, Clone, Default)]
pub struct State {
    pub labels: Labels,
}

// -- ownership ---------------------------------------------------------------

#[derive(Debug, Clone, Copy, PartialEq, Eq, Structural)]
pub enum Decision {
    /// We may (re)label this tab.
    Ours,
    /// A human set this label; leave it alone.
    Manual,
}

/// Herdr's own un-renamed labels are bare numbers.
pub open spec fn default_label(label: Seq<char>) -> bool {
    label.len() > 0 && forall|i: int| 0 <= i < label.len() ==> is_digit(#[trigger] label[i])
}

/// The view of an optional text.
pub open spec fn opt_str(o: Option<&str>) -> Option<Seq<char>> {
    match o {
        Some(r) => Some(r@),
        None => None,
    }
}

/// The ownership rule: a tab is ours on the first run, when manual labels
/// are overwritten, when its label is the one we recorded, or when it still
/// carries Herdr's numeric default; otherwise a human named it.
pub open spec fn decision_for(
    current: Seq<char>,
    recorded: Option<Seq<char>>,
    first_run: bool,
    overwrite_manual: bool,
) -> Decision {
    if first_run || overwrite_manual || recorded == Some(current) || default_label(current) {
        Decision::Ours
    } else {
        Decision::Manual
    }
}

/// Decide whether a tab's current label belongs to us.
pub fn decide(current: &str, recorded: Option<&str>, first_run: bool, overwrite_manual: bool) -> (d:
    Decision)
    ensures
        d == decision_for(current@, opt_str(recorded), first_run, overwrite_manual),
{
    if first_run || overwrite_manual {
        return Decision::Ours;
    }
    let same = match recorded {
        Some(r) => crate::text::same_text(r, current),
        None => false,
    };
    if same {
        return Decision::Ours;
    }
    if is_default_label(current) {
        return Decision::Ours;
    }
    Decision::Manual
}

/// On the first run every tab is fair game.
pub proof fn law_first_run_adopts_everything(
    current: Seq<char>,
    recorded: Option<Seq<char>>,
    overwrite_manual: bool,
)
    ensures
        decision_for(current, recorded, true, overwrite_manual) == Decision::Ours,
{
}

/// With `overwrite_manual`, hand-renamed tabs are re-adopted.
pub proof fn law_overwrite_forces_adoption(
    current: Seq<char>,
    recorded: Option<Seq<char>>,
    first_run: bool,
)
    ensures
        decision_for(current, recorded, first_run, true) == Decision::Ours,
{
}

/// A label that is the one we wrote stays ours.
pub proof fn law_owned_labels_stay_ours(current: Seq<char>, first_run: bool, overwrite_manual: bool)
    ensures
        decision_for(current, Some(current), first_run, overwrite_manual) == Decision::Ours,
{
}

/// A label that differs from the record, and is not Herdr's numeric default,
/// is a human's: it is left alone unless it is the first run or manual labels
/// are overwritten.
pub proof fn law_manual_labels_are_respected(current: Seq<char>, recorded: Option<Seq<char>>)
    requires
        recorded != Some(current),
        !default_label(current),
    ensures
        decision_for(current, recorded, false, false) == Decision::Manual,
{
}

/// What was recorded for a tab is read back, and recording one tab leaves
/// the others as they were.
pub proof fn law_labels_read_after_write(
    m: Map<Seq<char>, Seq<char>>,
    key: Seq<char>,
    value: Seq<char>,
    other: Seq<char>,
)
    requires
        other != key,
    ensures
        m.insert(key, value).contains_key(key),
        m.insert(key, value)[key] == value,
        m.insert(key, value).contains_key(other) == m.contains_key(other),
        m.contains_key(other) ==> m.insert(key, value)[other] == m[other],
{
}

/// Herdr's default labels are exactly the non-empty runs of ASCII digits,
/// so a label with any other character is a hand rename: with no record,
/// and neither a first run nor overwriting, it is left alone.
pub proof fn law_default_labels_are_numbers(label: Seq<char>)
    ensures
        default_label(label) == (label.len() > 0 && forall|i: int|
            0 <= i < label.len() ==> '0' <= #[trigger] label[i] && label[i] <= '9'),
        (exists|i: int| 0 <= i < label.len() && !('0' <= #[trigger] label[i] && label[i] <= '9'))
            ==> decision_for(label, None, false, false) == Decision::Manual,
        label.len() == 0 ==> decision_for(label, None, false, false) == Decision::Manual,
{
}

/// Herdr's own un-renamed labels are bare numbers.
pub fn is_default_label(label: &str) -> (b: bool)
    ensures
        b == default_label(label@),
{
    let v = chars_of(label);
    if v.len() == 0 {
        return false;
    }
    let mut i: usize = 0;
    while i < v.len()
        invariant
            v@ == label@,
            i <= v@.len(),
            forall|k: int| 0 <= k < i ==> is_digit(#[trigger] v@[k]),
        decreases v@.len() - i,
    {
        if !is_ascii_digit(v[i]) {
            return false;
        }
        i = i + 1;
    }
    true
}

// -- file names in the state directory ----------------------------------------

pub open spec fn name_labels() -> Seq<char> {
    seq!['l', 'a', 'b', 'e', 'l', 's', '.', 'j', 's', 'o', 'n']
}

pub open spec fn name_pid() -> Seq<char> {
    seq!['w', 'a', 't', 'c', 'h', 'e', 'r', '.', 'p', 'i', 'd']
}

pub open spec fn name_log() -> Seq<char> {
    seq!['w', 'a', 't', 'c', 'h', 'e', 'r', '.', 'l', 'o', 'g']
}

pub open spec fn name_stop() -> Seq<char> {
    seq!['s', 't', 'o', 'p']
}

pub open spec fn name_dot_local() -> Seq<char> {
    seq!['.', 'l', 'o', 'c', 'a', 'l']
}

pub open spec fn name_state() -> Seq<char> {
    seq!['s', 't', 'a', 't', 'e']
}

/// The plugin state directory: the one Herdr names for the plugin, else
/// `.local/state/herdr-tab-naming` in the home directory, else the fallback.
pub fn state_dir(plugin_dir: Option<PathParts>, home: Option<&PathParts>) -> (p: PathParts)
    ensures
        p@ == match plugin_dir {
            Some(d) => d@,
            None => match home {
                Some(h) => (
                    h@.0,
                    h@.1.push(name_dot_local()).push(name_state()).push(
                        crate::config::name_plugin(),
                    ),
                ),
                None => (false, seq![crate::config::name_fallback()]),
            },
        },
{
    if let Some(d) = plugin_dir {
        return d;
    }
    match home {
        Some(h) => {
            let a = ".local";
            let b = "state";
            let c = "herdr-tab-naming";
            proof {
                reveal_strlit(".local");
                reveal_strlit("state");
                reveal_strlit("herdr-tab-naming");
                assert(a@ =~= name_dot_local());
                assert(b@ =~= name_state());
                assert(c@ =~= crate::config::name_plugin());
            }
            h.child(a).child(b).child(c)
        },
        None => crate::config::fallback_dir(),
    }
}

/// `labels.json` inside the state directory.
pub fn labels_path(state_dir: &PathParts) -> (p: PathParts)
    ensures
        p@ == (state_dir@.0, state_dir@.1.push(name_labels())),
{
    let name = "labels.json";
    proof {
        reveal_strlit("labels.json");
        assert(name@ =~= name_labels());
    }
    state_dir.child(name)
}

/// `watcher.pid` inside the state directory.
pub fn pid_path(state_dir: &PathParts) -> (p: PathParts)
    ensures
        p@ == (state_dir@.0, state_dir@.1.push(name_pid())),
{
    let name = "watcher.pid";
    proof {
        reveal_strlit("watcher.pid");
        assert(name@ =~= name_pid());
    }
    state_dir.child(name)
}

/// `watcher.log` inside the state directory.
pub fn log_path(state_dir: &PathParts) -> (p: PathParts)
    ensures
        p@ == (state_dir@.0, state_dir@.1.push(name_log())),
{
    let name = "watcher.log";
    proof {
        reveal_strlit("watcher.log");
        assert(name@ =~= name_log());
    }
    state_dir.child(name)
}

/// `stop` inside the state directory.
pub fn stop_path(state_dir: &PathParts) -> (p: PathParts)
    ensures
        p@ == (state_dir@.0, state_dir@.1.push(name_stop())),
{
    let name = "stop";
    proof {
        reveal_strlit("stop");
        assert(name@ =~= name_stop());
    }
    state_dir.child(name)
}

// -- the watcher's pid ----------------------------------------------------------

/// The value of a run of decimal digits.
pub open spec fn decimal_value(s: Seq<char>) -> nat
    decreases s.len(),
{
    if s.len() == 0 {
        0
    } else {
        decimal_value(s.drop_last()) * 10 + ((s.last() as int) - ('0' as int)) as nat
    }
}

proof fn lemma_decimal_grows(s: Seq<char>, j: int)
    requires
        0 <= j <= s.len(),
        all_digits(s),
    ensures
        decimal_value(s.take(j)) <= decimal_value(s),
    decreases s.len(),
{
    if j < s.len() {
        let init = s.drop_last();
        assert forall|i: int| 0 <= i < init.len() implies is_digit(#[trigger] init[i]) by {
            assert(init[i] == s[i]);
        }
        lemma_decimal_grows(init, j);
        assert(init.take(j) =~= s.take(j));
    } else {
        assert(s.take(j) =~= s);
    }
}

/// Every character is a decimal digit.
pub open spec fn all_digits(s: Seq<char>) -> bool {
    forall|i: int| 0 <= i < s.len() ==> is_digit(#[trigger] s[i])
}

/// The digits of a pid file: its text trimmed, less one leading `+`, when
/// that is non-empty and all decimal digits (what `u32::from_str` reads).
pub open spec fn pid_digits(text: Seq<char>) -> Option<Seq<char>> {
    let t = trim(text);
    let d = if t.len() > 0 && t[0] == '+' {
        t.drop_first()
    } else {
        t
    };
    if d.len() > 0 && all_digits(d) {
        Some(d)
    } else {
        None
    }
}

/// The pid a pid file holds: the value of its digits, when it fits a `u32`.
pub open spec fn pid_of(text: Seq<char>) -> Option<u32> {
    match pid_digits(text) {
        Some(d) => if decimal_value(d) <= u32::MAX {
            Some(decimal_value(d) as u32)
        } else {
            None
        },
        None => None,
    }
}

/// The pid written in the text of the pid file, if it holds one.
pub fn parse_pid(text: &str) -> (r: Option<u32>)
    ensures
        r == pid_of(text@),
{
    let v = chars_of(text);
    let (a, b) = trim_bounds(&v, 0, v.len());
    assert(v@.subrange(0, v@.len() as int) =~= v@);
    let ghost t = v@.subrange(a as int, b as int);
    assert(t == trim(text@));
    let plus = a < b && v[a] == '+';
    proof {
        if a < b {
            assert(t[0] == v@[a as int]);
        }
    }
    let i = if plus {
        a + 1
    } else {
        a
    };
    let ghost d = v@.subrange(i as int, b as int);
    proof {
        if plus {
            assert(t.drop_first() =~= d);
        } else {
            assert(t =~= d);
        }
        assert(pid_digits(text@) == (if d.len() > 0 && all_digits(d) {
            Some(d)
        } else {
            None
        }));
    }
    if i == b {
        return None;
    }
    let mut acc: u64 = 0;
    let mut k = i;
    assert(d.take(0) =~= Seq::<char>::empty());
    while k < b
        invariant
            a <= i < b <= v@.len(),
            i <= k <= b,
            d == v@.subrange(i as int, b as int),
            pid_digits(text@) == (if all_digits(d) {
                Some(d)
            } else {
                None
            }),
            acc <= u32::MAX,
            acc == decimal_value(d.take(k - i)),
            forall|x: int| 0 <= x < k - i ==> is_digit(#[trigger] d[x]),
        decreases b - k,
    {
        let c = v[k];
        assert(d[k - i] == c);
        if !is_ascii_digit(c) {
            assert(!all_digits(d));
            return None;
        }
        let next = acc * 10 + ((c as u64) - 48);
        assert(d.take(k - i + 1).drop_last() =~= d.take(k - i));
        assert(next == decimal_value(d.take(k - i + 1)));
        if next > 0xffff_ffff {
            proof {
                if all_digits(d) {
                    lemma_decimal_grows(d, k - i + 1);
                }
            }
            return None;
        }
        acc = next;
        k = k + 1;
    }
    assert(d.take(k - i) =~= d);
    assert(all_digits(d));
    Some(acc as u32)
}

/// The program's name, as it appears in its command line.
pub open spec fn program_name() -> Seq<char> {
    seq!['h', 'e', 'r', 'd', 'r', '-', 't', 'a', 'b', '-', 'n', 'a', 'm', 'i', 'n', 'g']
}

/// A command line with its NUL separators read as spaces.
pub open spec fn nul_as_space(s: Seq<char>) -> Seq<char> {
    s.map_values(|c: char| if c == '\0' { ' ' } else { c })
}

/// A process runs our watcher when its command line, NULs read as spaces,
/// names the program and `watch`.
pub open spec fn watcher_cmdline(cmdline: Seq<char>) -> bool {
    &&& contains_text(nul_as_space(cmdline), program_name())
    &&& contains_text(nul_as_space(cmdline), seq!['w', 'a', 't', 'c', 'h'])
}

/// Whether the command line of a live process is our watcher's, which
/// guards against a recycled pid.
pub fn is_watcher_cmdline(cmdline: &str) -> (b: bool)
    ensures
        b == watcher_cmdline(cmdline@),
{
    let v = chars_of(cmdline);
    let mut w: Vec<char> = Vec::new();
    let mut i: usize = 0;
    while i < v.len()
        invariant
            v@ == cmdline@,
            i <= v@.len(),
            w@ == nul_as_space(v@.take(i as int)),
        decreases v@.len() - i,
    {
        let c = v[i];
        w.push(if c == '\0' { ' ' } else { c });
        assert(v@.take(i + 1) =~= v@.take(i as int).push(c));
        assert(w@ =~= nul_as_space(v@.take(i + 1)));
        i = i + 1;
    }
    assert(v@.take(i as int) =~= v@);
    let name = vec!['h', 'e', 'r', 'd', 'r', '-', 't', 'a', 'b', '-', 'n', 'a', 'm', 'i', 'n', 'g'];
    let watch = vec!['w', 'a', 't', 'c', 'h'];
    assert(name@ =~= program_name());
    assert(watch@ =~= seq!['w', 'a', 't', 'c', 'h']);
    text_contains(&w, &name) && text_contains(&w, &watch)
}

} // verus!
