//! The text the commands print and the watcher logs: rename lines, the
//! summary of a sync, and the rows of the status table.
use vstd::prelude::*;
use crate::label::{clip, clipped};
use crate::state::Decision;
use crate::sync::{Change, Outcome};
use crate::text::{chars_of, push_char};

verus! {

// -- numbers -------------------------------------------------------------------

pub open spec fn digit(d: nat) -> char {
    (48 + d) as char
}

/// The decimal digits of `n`, as `usize`'s `Display` writes them.
pub open spec fn decimal_of(n: nat) -> Seq<char>
    decreases n,
{
    if n < 10 {
        seq![digit(n)]
    } else {
        decimal_of(n / 10).push(digit(n % 10))
    }
}

pub fn decimal(n: usize) -> (s: String)
    ensures
        s@ == decimal_of(n as nat),
    decreases n,
{
    let d: u8 = (n % 10) as u8;
    let c: char = (d + 48) as char;
    assert(c == digit((n % 10) as nat));
    if n < 10 {
        let mut s = String::new();
        push_char(&mut s, c);
        s
    } else {
        let mut s = decimal(n / 10);
        push_char(&mut s, c);
        s
    }
}

// -- padding -------------------------------------------------------------------

pub open spec fn spaces(n: nat) -> Seq<char> {
    Seq::new(n, |i: int| ' ')
}

/// `s` padded with spaces on the right to `width` characters (`{:<width}`).
pub open spec fn padded(s: Seq<char>, width: nat) -> Seq<char> {
    if s.len() >= width {
        s
    } else {
        s + spaces((width - s.len()) as nat)
    }
}

pub fn pad_right(s: &str, width: usize) -> (r: String)
    ensures
        r@ == padded(s@, width as nat),
{
    let n = chars_of(s).len();
    let mut r = s.to_owned();
    if n >= width {
        return r;
    }
    let mut k: usize = n;
    while k < width
        invariant
            n <= k <= width,
            n == s@.len(),
            r@ == s@ + spaces((k - n) as nat),
        decreases width - k,
    {
        push_char(&mut r, ' ');
        assert(spaces((k + 1 - n) as nat) =~= spaces((k - n) as nat).push(' '));
        k = k + 1;
    }
    r
}

// -- lines -------------------------------------------------------------------------

/// `<tab id> '<old label>' -> '<new label>'`.
pub open spec fn change_text(c: Change) -> Seq<char> {
    c.tab_id@ + " '"@ + c.from@ + "' -> '"@ + c.to@ + "'"@
}

pub fn change_line(c: &Change) -> (s: String)
    ensures
        s@ == change_text(*c),
{
    let mut s = c.tab_id.clone();
    let a = " '";
    let b = "' -> '";
    let e = "'";
    s.append(a);
    s.append(c.from.as_str());
    s.append(b);
    s.append(c.to.as_str());
    s.append(e);
    s
}

/// `<tabs> tabs: <renamed> renamed, <claimed> already correct, <manual>
/// manual, <errors> errors`.
pub open spec fn summary_text(o: Outcome) -> Seq<char> {
    decimal_of(o.tabs as nat) + " tabs: "@ + decimal_of(o.renamed@.len()) + " renamed, "@
        + decimal_of(o.claimed as nat) + " already correct, "@ + decimal_of(o.manual as nat)
        + " manual, "@ + decimal_of(o.errors@.len()) + " errors"@
}

/// Each count of the summary stands at its own label: the number of tabs
/// before ` tabs: `, then the renames before ` renamed, `, the tabs already
/// correct before ` already correct, `, the manual ones before ` manual, `,
/// and the errors before ` errors`; each in decimal, as `Display` writes it.
pub proof fn law_summary_counts_in_place(o: Outcome)
    ensures
        summary_text(o) == decimal_of(o.tabs as nat) + " tabs: "@ + decimal_of(o.renamed@.len())
            + " renamed, "@ + decimal_of(o.claimed as nat) + " already correct, "@ + decimal_of(
            o.manual as nat,
        ) + " manual, "@ + decimal_of(o.errors@.len()) + " errors"@,
{
}

/// A count is written in decimal digits that read back as the count.
pub proof fn law_decimal_reads_back(n: nat)
    ensures
        decimal_of(n).len() > 0,
        crate::state::all_digits(decimal_of(n)),
        crate::state::decimal_value(decimal_of(n)) == n,
    decreases n,
{
    if n >= 10 {
        law_decimal_reads_back(n / 10);
        let s = decimal_of(n / 10);
        let t = decimal_of(n);
        assert(t == s.push(digit(n % 10)));
        assert(t.drop_last() =~= s);
        assert(forall|i: int| 0 <= i < s.len() ==> t[i] == s[i]);
        assert((n / 10) * 10 + n % 10 == n) by (nonlinear_arith);
        assert(digit(n % 10) as int == 48 + n % 10);
        assert(t.last() == digit(n % 10));
        assert(crate::state::decimal_value(t) == crate::state::decimal_value(s) * 10 + (n % 10));
    } else {
        let t = decimal_of(n);
        assert(t.drop_last() =~= Seq::<char>::empty());
        assert(digit(n) as int == 48 + n);
        assert(t.last() == digit(n));
        assert(crate::state::decimal_value(t.drop_last()) == 0);
    }
}

/// A pid written in decimal reads back as that pid from the pid file.
pub proof fn law_pid_round_trip(n: u32)
    ensures
        crate::state::pid_of(decimal_of(n as nat)) == Some(n),
{
    law_decimal_reads_back(n as nat);
    let t = decimal_of(n as nat);
    assert(!crate::text::is_ws(t[0]));
    assert(crate::text::trim_start(t) == t);
    assert(!crate::text::is_ws(t.last()));
    assert(crate::text::trim_end(t) == t);
    assert(crate::text::trim(t) == t);
    assert(t[0] != '+');
}

/// The last line a sync prints.
pub fn summary(o: &Outcome) -> (s: String)
    ensures
        s@ == summary_text(*o),
{
    let mut s = decimal(o.tabs);
    s.append(" tabs: ");
    s.append(decimal(o.renamed.len()).as_str());
    s.append(" renamed, ");
    s.append(decimal(o.claimed).as_str());
    s.append(" already correct, ");
    s.append(decimal(o.manual).as_str());
    s.append(" manual, ");
    s.append(decimal(o.errors.len()).as_str());
    s.append(" errors");
    s
}

/// What a sync leaves to do once its pass is over: whether to save the
/// ownership record (the pass changed it), and whether the command
/// succeeded (the pass ran and no rename failed).
pub fn sync_done(res: &Result<Outcome, String>) -> (r: (bool, bool))
    ensures
        r == match res {
            Ok(o) => (o.changed, o.errors@.len() == 0),
            Err(_) => (false, false),
        },
{
    match res {
        Ok(o) => (o.changed, o.errors.len() == 0),
        Err(_) => (false, false),
    }
}

/// What the watcher logs after a reconcile.
pub open spec fn watch_log_of(res: Result<Outcome, String>) -> Seq<Seq<char>> {
    match res {
        Ok(o) => Seq::new(o.renamed@.len(), |i: int| "watch: "@ + change_text(o.renamed@[i]))
            + Seq::new(o.errors@.len(), |i: int| "watch: error: "@ + o.errors@[i]@),
        Err(e) => seq!["watch: reconcile failed: "@ + e@],
    }
}

pub open spec fn views_of(v: Seq<String>) -> Seq<Seq<char>> {
    v.map_values(|s: String| s@)
}

proof fn lemma_views_of_push(v: Seq<String>, s: String)
    ensures
        views_of(v.push(s)) == views_of(v).push(s@),
{
    assert(views_of(v.push(s)) =~= views_of(v).push(s@));
}

/// The log lines for one reconcile of the watcher: a line per rename, then
/// a line per error; or the reason the pass failed.
pub fn watch_log(res: &Result<Outcome, String>) -> (lines: Vec<String>)
    ensures
        views_of(lines@) == watch_log_of(*res),
{
    let mut lines: Vec<String> = Vec::new();
    match res {
        Ok(o) => {
            let mut i: usize = 0;
            while i < o.renamed.len()
                invariant
                    i <= o.renamed@.len(),
                    views_of(lines@) == Seq::new(
                        i as nat,
                        |k: int| "watch: "@ + change_text(o.renamed@[k]),
                    ),
                decreases o.renamed@.len() - i,
            {
                let mut line = "watch: ".to_owned();
                line.append(change_line(&o.renamed[i]).as_str());
                proof {
                    lemma_views_of_push(lines@, line);
                }
                lines.push(line);
                assert(views_of(lines@) =~= Seq::new(
                    (i + 1) as nat,
                    |k: int| "watch: "@ + change_text(o.renamed@[k]),
                ));
                i = i + 1;
            }
            let ghost head = views_of(lines@);
            let mut j: usize = 0;
            while j < o.errors.len()
                invariant
                    j <= o.errors@.len(),
                    views_of(lines@) == head + Seq::new(
                        j as nat,
                        |k: int| "watch: error: "@ + o.errors@[k]@,
                    ),
                decreases o.errors@.len() - j,
            {
                let mut line = "watch: error: ".to_owned();
                line.append(o.errors[j].as_str());
                proof {
                    lemma_views_of_push(lines@, line);
                }
                lines.push(line);
                assert(views_of(lines@) =~= head + Seq::new(
                    (j + 1) as nat,
                    |k: int| "watch: error: "@ + o.errors@[k]@,
                ));
                j = j + 1;
            }
        },
        Err(e) => {
            let mut line = "watch: reconcile failed: ".to_owned();
            line.append(e.as_str());
            proof {
                lemma_views_of_push(lines@, line);
            }
            lines.push(line);
            assert(views_of(lines@) =~= seq!["watch: reconcile failed: "@ + e@]);
        },
    }
    lines
}

// -- the status table ---------------------------------------------------------------

/// Who owns a tab, as the status table shows it: `manual` for a hand-named
/// tab; `ours` when it is ours and shows the desired label; `ours*` when it
/// is ours and will be renamed.
pub open spec fn owner_text(d: Decision, desired: Seq<char>, current: Seq<char>) -> Seq<char> {
    match d {
        Decision::Manual => "manual"@,
        Decision::Ours => if desired == current {
            "ours"@
        } else {
            "ours*"@
        },
    }
}

pub fn owner(d: Decision, desired: &str, current: &str) -> (s: String)
    ensures
        s@ == owner_text(d, desired@, current@),
{
    match d {
        Decision::Manual => "manual".to_owned(),
        Decision::Ours => if crate::text::same_text(desired, current) {
            "ours".to_owned()
        } else {
            "ours*".to_owned()
        },
    }
}

/// The header of the status table.
pub open spec fn status_header_text() -> Seq<char> {
    padded("TAB"@, 10) + " "@ + padded("CURRENT"@, 30) + " "@ + padded("DESIRED"@, 30)
        + " OWNER"@
}

pub fn status_header() -> (s: String)
    ensures
        s@ == status_header_text(),
{
    let mut s = pad_right("TAB", 10);
    s.append(" ");
    s.append(pad_right("CURRENT", 30).as_str());
    s.append(" ");
    s.append(pad_right("DESIRED", 30).as_str());
    s.append(" OWNER");
    s
}

/// A row of the status table: the tab id, its label and the desired label
/// (each cut to 29 characters), and the owner.
pub open spec fn status_row_text(
    tab_id: Seq<char>,
    current: Seq<char>,
    desired: Seq<char>,
    owner: Seq<char>,
) -> Seq<char> {
    padded(tab_id, 10) + " "@ + padded(clipped(current, 29), 30) + " "@ + padded(
        clipped(desired, 29),
        30,
    ) + " "@ + owner
}

pub fn status_row(tab_id: &str, current: &str, desired: &str, owner: &str) -> (s: String)
    ensures
        s@ == status_row_text(tab_id@, current@, desired@, owner@),
{
    let mut s = pad_right(tab_id, 10);
    s.append(" ");
    s.append(pad_right(clip(current, 29).as_str(), 30).as_str());
    s.append(" ");
    s.append(pad_right(clip(desired, 29).as_str(), 30).as_str());
    s.append(" ");
    s.append(owner);
    s
}

} // verus!
