//! Label rendering: template expansion, ticket extraction, and truncation.
use vstd::prelude::*;
use crate::text::{eq_ignore_case, is_alnum, is_digit, is_upper, is_ascii_upper, is_ascii_digit, is_ascii_alnum, same_ignoring_case, chars_of, is_ws, is_whitespace, push_char, starts_with_at, string_of, string_of_range, owned};

verus! {

/// Values available to a label template.
#[derive(Debug, Clone, Default, PartialEq, Eq)]
pub struct Ctx {
    pub repo: Option<String>,
    pub dir: String,
    pub branch: Option<String>,
    pub ticket: Option<String>,
    pub worktree: Option<String>,
    pub agent: Option<String>,
    pub status: Option<String>,
}

/// The text a token expands to: the value, or nothing when it is absent.
pub open spec fn value_of(o: Option<String>) -> Seq<char> {
    match o {
        Some(s) => s@,
        None => Seq::empty(),
    }
}

// ---------------------------------------------------------------------------
// replace

/// `str::replace` for a non-empty pattern: every match, taken left to right
/// without overlap, is replaced by `rep`.
pub open spec fn replace(s: Seq<char>, pat: Seq<char>, rep: Seq<char>) -> Seq<char>
    decreases s.len(),
{
    if pat.len() == 0 || s.len() < pat.len() {
        s
    } else if s.take(pat.len() as int) == pat {
        rep + replace(s.skip(pat.len() as int), pat, rep)
    } else {
        seq![s[0]] + replace(s.drop_first(), pat, rep)
    }
}

pub open spec fn pat_repo() -> Seq<char> {
    seq!['{', 'r', 'e', 'p', 'o', '}']
}

pub open spec fn pat_dir() -> Seq<char> {
    seq!['{', 'd', 'i', 'r', '}']
}

pub open spec fn pat_branch() -> Seq<char> {
    seq!['{', 'b', 'r', 'a', 'n', 'c', 'h', '}']
}

pub open spec fn pat_ticket() -> Seq<char> {
    seq!['{', 't', 'i', 'c', 'k', 'e', 't', '}']
}

pub open spec fn pat_worktree() -> Seq<char> {
    seq!['{', 'w', 'o', 'r', 'k', 't', 'r', 'e', 'e', '}']
}

pub open spec fn pat_agent() -> Seq<char> {
    seq!['{', 'a', 'g', 'e', 'n', 't', '}']
}

pub open spec fn pat_status() -> Seq<char> {
    seq!['{', 's', 't', 'a', 't', 'u', 's', '}']
}

/// The template with each token replaced in turn by the given values, in
/// the order repo, dir, branch, ticket, worktree, agent, status.
pub open spec fn substitute_values(
    t: Seq<char>,
    repo: Seq<char>,
    dir: Seq<char>,
    branch: Seq<char>,
    ticket: Seq<char>,
    worktree: Seq<char>,
    agent: Seq<char>,
    status: Seq<char>,
) -> Seq<char> {
    let s1 = replace(t, pat_repo(), repo);
    let s2 = replace(s1, pat_dir(), dir);
    let s3 = replace(s2, pat_branch(), branch);
    let s4 = replace(s3, pat_ticket(), ticket);
    let s5 = replace(s4, pat_worktree(), worktree);
    let s6 = replace(s5, pat_agent(), agent);
    replace(s6, pat_status(), status)
}

/// The template with the tokens replaced by the context's values; an absent
/// value is replaced by nothing.
pub open spec fn substitute(t: Seq<char>, ctx: Ctx) -> Seq<char> {
    substitute_values(
        t,
        value_of(ctx.repo),
        ctx.dir@,
        value_of(ctx.branch),
        value_of(ctx.ticket),
        value_of(ctx.worktree),
        value_of(ctx.agent),
        value_of(ctx.status),
    )
}

/// The label a template renders to.
pub open spec fn rendered(t: Seq<char>, ctx: Ctx) -> Seq<char> {
    collapse(strip_braces(substitute(t, ctx)))
}

proof fn lemma_replace_short(s: Seq<char>, pat: Seq<char>, rep: Seq<char>)
    requires
        pat.len() > 0,
        s.len() < pat.len(),
        s.len() > 0,
    ensures
        replace(s, pat, rep) == seq![s[0]] + replace(s.drop_first(), pat, rep),
{
    assert(seq![s[0]] + s.drop_first() =~= s);
}

fn replace_chars(v: &Vec<char>, pat: &Vec<char>, rep: &Vec<char>) -> (out: Vec<char>)
    requires
        pat@.len() > 0,
    ensures
        out@ == replace(v@, pat@, rep@),
{
    let mut out: Vec<char> = Vec::new();
    let mut i: usize = 0;
    assert(v@.skip(0) =~= v@);
    assert(out@ + replace(v@, pat@, rep@) =~= replace(v@, pat@, rep@));
    while i < v.len()
        invariant
            pat@.len() > 0,
            i <= v@.len(),
            out@ + replace(v@.skip(i as int), pat@, rep@) == replace(v@, pat@, rep@),
        decreases v@.len() - i,
    {
        let ghost rest = v@.skip(i as int);
        if starts_with_at(v, i, v.len(), pat) {
            assert(v@.subrange(i as int, v@.len() as int) =~= rest);
            assert(rest.skip(pat@.len() as int) =~= v@.skip(i + pat@.len()));
            let mut k: usize = 0;
            let ghost before = out@;
            while k < rep.len()
                invariant
                    k <= rep@.len(),
                    out@ == before + rep@.take(k as int),
                decreases rep@.len() - k,
            {
                out.push(rep[k]);
                assert(rep@.take(k + 1) =~= rep@.take(k as int).push(rep@[k as int]));
                k = k + 1;
            }
            assert(rep@.take(rep@.len() as int) =~= rep@);
            assert(out@ + replace(v@.skip(i + pat@.len()), pat@, rep@) =~= before + (rep@
                + replace(rest.skip(pat@.len() as int), pat@, rep@)));
            i = i + pat.len();
        } else {
            assert(v@.subrange(i as int, v@.len() as int) =~= rest);
            assert(rest.drop_first() =~= v@.skip(i + 1));
            proof {
                if rest.len() < pat@.len() {
                    lemma_replace_short(rest, pat@, rep@);
                }
            }
            let ghost before = out@;
            out.push(v[i]);
            assert(out@ + replace(v@.skip(i + 1), pat@, rep@) =~= before + (seq![rest[0]]
                + replace(rest.drop_first(), pat@, rep@)));
            i = i + 1;
        }
    }
    assert(v@.skip(i as int) =~= Seq::<char>::empty());
    assert(out@ + Seq::<char>::empty() =~= out@);
    out
}

fn value_chars(o: &Option<String>) -> (v: Vec<char>)
    ensures
        v@ == value_of(*o),
{
    match o {
        Some(s) => chars_of(s.as_str()),
        None => Vec::new(),
    }
}

// ---------------------------------------------------------------------------
// stripping leftover tokens

/// What is left of `s` when every `{...}` group is removed, read from the
/// left with `depth` groups already open. A `}` with no open group stays.
pub open spec fn strip_from(s: Seq<char>, depth: nat) -> Seq<char>
    decreases s.len(),
{
    if s.len() == 0 {
        Seq::empty()
    } else {
        let c = s[0];
        let rest = s.drop_first();
        if c == '{' {
            strip_from(rest, depth + 1)
        } else if c == '}' && depth > 0 {
            strip_from(rest, (depth - 1) as nat)
        } else if depth == 0 {
            seq![c] + strip_from(rest, 0)
        } else {
            strip_from(rest, depth)
        }
    }
}

pub open spec fn strip_braces(s: Seq<char>) -> Seq<char> {
    strip_from(s, 0)
}

/// Remove any `{...}` the template left behind so labels never show raw tokens.
pub fn strip_unknown_tokens(input: &str) -> (out: String)
    ensures
        out@ == strip_braces(input@),
{
    let v = chars_of(input);
    let mut out = String::new();
    let mut depth: usize = 0;
    let mut i: usize = 0;
    assert(v@.skip(0) =~= v@);
    assert(out@ + strip_from(v@, 0) =~= strip_from(v@, 0));
    while i < v.len()
        invariant
            i <= v@.len(),
            depth <= i,
            v@ == input@,
            out@ + strip_from(v@.skip(i as int), depth as nat) == strip_braces(input@),
        decreases v@.len() - i,
    {
        let ghost rest = v@.skip(i as int);
        assert(rest.drop_first() =~= v@.skip(i + 1));
        assert(rest[0] == v@[i as int]);
        let ch = v[i];
        let ghost before = out@;
        if ch == '{' {
            depth = depth + 1;
        } else if ch == '}' && depth > 0 {
            depth = depth - 1;
        } else if depth == 0 {
            push_char(&mut out, ch);
            assert(out@ + strip_from(v@.skip(i + 1), 0) =~= before + (seq![ch] + strip_from(
                rest.drop_first(),
                0,
            )));
        }
        i = i + 1;
    }
    assert(strip_from(v@.skip(i as int), depth as nat) =~= Seq::<char>::empty());
    assert(out@ + Seq::<char>::empty() =~= out@);
    out
}

// ---------------------------------------------------------------------------
// collapsing whitespace

/// `s` split at every whitespace character (`str::split(char::is_whitespace)`).
pub open spec fn split_ws(s: Seq<char>) -> Seq<Seq<char>>
    decreases s.len(),
{
    if s.len() == 0 {
        seq![Seq::empty()]
    } else {
        let init = split_ws(s.drop_last());
        if is_ws(s.last()) {
            init.push(Seq::empty())
        } else {
            init.update(init.len() - 1, init.last().push(s.last()))
        }
    }
}

/// The non-empty pieces, in order.
pub open spec fn non_empty(ps: Seq<Seq<char>>) -> Seq<Seq<char>>
    decreases ps.len(),
{
    if ps.len() == 0 {
        Seq::empty()
    } else if ps.last().len() > 0 {
        non_empty(ps.drop_last()).push(ps.last())
    } else {
        non_empty(ps.drop_last())
    }
}

/// Words joined by single spaces.
pub open spec fn join_words(ws: Seq<Seq<char>>) -> Seq<char>
    decreases ws.len(),
{
    if ws.len() == 0 {
        Seq::empty()
    } else if ws.len() == 1 {
        ws[0]
    } else {
        join_words(ws.drop_last()) + seq![' '] + ws.last()
    }
}

/// `s.split_whitespace().collect::<Vec<_>>().join(" ")`.
pub open spec fn collapse(s: Seq<char>) -> Seq<char> {
    join_words(non_empty(split_ws(s)))
}

proof fn lemma_split_ws_len(s: Seq<char>)
    ensures
        split_ws(s).len() >= 1,
    decreases s.len(),
{
    if s.len() > 0 {
        lemma_split_ws_len(s.drop_last());
    }
}

proof fn lemma_join_words_empty(ws: Seq<Seq<char>>)
    requires
        forall|i: int| 0 <= i < ws.len() ==> (#[trigger] ws[i]).len() > 0,
    ensures
        (join_words(ws).len() == 0) <==> (ws.len() == 0),
    decreases ws.len(),
{
    if ws.len() > 1 {
        lemma_join_words_empty(ws.drop_last());
    }
}

proof fn lemma_non_empty_words(ps: Seq<Seq<char>>)
    ensures
        forall|i: int|
            0 <= i < non_empty(ps).len() ==> (#[trigger] non_empty(ps)[i]).len() > 0,
    decreases ps.len(),
{
    if ps.len() > 0 {
        lemma_non_empty_words(ps.drop_last());
        let init = non_empty(ps.drop_last());
        if ps.last().len() > 0 {
            assert forall|i: int|
                0 <= i < non_empty(ps).len() implies (#[trigger] non_empty(ps)[i]).len() > 0 by {
                if i < init.len() {
                    assert(non_empty(ps)[i] == init[i]);
                }
            }
        }
    }
}

/// The words of `v`, joined by single spaces.
fn collapse_chars(v: &Vec<char>) -> (out: Vec<char>)
    ensures
        out@ == collapse(v@),
{
    let mut out: Vec<char> = Vec::new();
    let mut cur: Vec<char> = Vec::new();
    let mut i: usize = 0;
    while i < v.len()
        invariant
            i <= v@.len(),
            split_ws(v@.take(i as int)).len() >= 1,
            cur@ == split_ws(v@.take(i as int)).last(),
            out@ == join_words(non_empty(split_ws(v@.take(i as int)).drop_last())),
        decreases v@.len() - i,
    {
        let ghost p = split_ws(v@.take(i as int));
        assert(v@.take(i + 1).drop_last() =~= v@.take(i as int));
        assert(v@.take(i + 1).last() == v@[i as int]);
        let ch = v[i];
        if is_whitespace(ch) {
            let ghost np = split_ws(v@.take(i + 1));
            assert(np == p.push(Seq::empty()));
            assert(np.drop_last() =~= p);
            assert(p =~= p.drop_last().push(p.last()));
            proof { lemma_non_empty_words(p.drop_last()); }
            proof { lemma_join_words_empty(non_empty(p.drop_last())); }
            if cur.len() > 0 {
                let ghost ws = non_empty(p.drop_last());
                assert(non_empty(p) == ws.push(p.last()));
                if out.len() > 0 {
                    out.push(' ');
                    assert(ws.push(p.last()).drop_last() =~= ws);
                }
                let mut k: usize = 0;
                let ghost before = out@;
                while k < cur.len()
                    invariant
                        k <= cur@.len(),
                        out@ == before + cur@.take(k as int),
                    decreases cur@.len() - k,
                {
                    out.push(cur[k]);
                    assert(cur@.take(k + 1) =~= cur@.take(k as int).push(cur@[k as int]));
                    k = k + 1;
                }
                assert(cur@.take(cur@.len() as int) =~= cur@);
                proof {
                    if ws.len() == 0 {
                        assert(ws.push(p.last()) =~= seq![p.last()]);
                        assert(before =~= Seq::<char>::empty());
                        assert(out@ =~= p.last());
                    } else {
                        assert(ws.push(p.last()).drop_last() =~= ws);
                        assert(out@ =~= join_words(ws) + seq![' '] + p.last());
                    }
                }
            } else {
                assert(non_empty(p) == non_empty(p.drop_last()));
            }
            cur = Vec::new();
            assert(np.last() =~= Seq::<char>::empty());
        } else {
            let ghost np = split_ws(v@.take(i + 1));
            assert(np == p.update(p.len() - 1, p.last().push(ch)));
            assert(np.drop_last() =~= p.drop_last());
            cur.push(ch);
        }
        i = i + 1;
    }
    // Flush the last piece.
    assert(v@.take(i as int) =~= v@);
    let ghost p = split_ws(v@);
    assert(p =~= p.drop_last().push(p.last()));
    proof { lemma_non_empty_words(p.drop_last()); }
    proof { lemma_join_words_empty(non_empty(p.drop_last())); }
    if cur.len() > 0 {
        let ghost ws = non_empty(p.drop_last());
        assert(non_empty(p) == ws.push(p.last()));
        if out.len() > 0 {
            out.push(' ');
        }
        let mut k: usize = 0;
        let ghost before = out@;
        while k < cur.len()
            invariant
                k <= cur@.len(),
                out@ == before + cur@.take(k as int),
            decreases cur@.len() - k,
        {
            out.push(cur[k]);
            assert(cur@.take(k + 1) =~= cur@.take(k as int).push(cur@[k as int]));
            k = k + 1;
        }
        assert(cur@.take(cur@.len() as int) =~= cur@);
        proof {
            if ws.len() == 0 {
                assert(ws.push(p.last()) =~= seq![p.last()]);
                assert(out@ =~= p.last());
            } else {
                assert(ws.push(p.last()).drop_last() =~= ws);
                assert(out@ =~= join_words(ws) + seq![' '] + p.last());
            }
        }
    } else {
        assert(non_empty(p) == non_empty(p.drop_last()));
    }
    out
}


// ---------------------------------------------------------------------------
// render

/// A label as `render` leaves it: no `{`, no whitespace at either end, and
/// every whitespace character a single space between two other characters.
pub open spec fn is_clean(s: Seq<char>) -> bool {
    &&& forall|i: int| 0 <= i < s.len() ==> #[trigger] s[i] != '{'
    &&& forall|i: int|
        0 <= i < s.len() && is_ws(#[trigger] s[i]) ==> {
            &&& s[i] == ' '
            &&& 0 < i < s.len() - 1
            &&& !is_ws(s[i - 1])
            &&& !is_ws(s[i + 1])
        }
}

pub open spec fn no_brace(s: Seq<char>) -> bool {
    forall|i: int| 0 <= i < s.len() ==> #[trigger] s[i] != '{'
}

/// Every piece is free of whitespace, and of `{` when `s` is.
pub open spec fn pieces_ok(ps: Seq<Seq<char>>, braces_free: bool) -> bool {
    forall|i: int, j: int|
        0 <= i < ps.len() && 0 <= j < ps[i].len() ==> !is_ws(#[trigger] ps[i][j]) && (
        braces_free ==> ps[i][j] != '{')
}

proof fn lemma_strip_no_brace(s: Seq<char>, depth: nat)
    ensures
        no_brace(strip_from(s, depth)),
    decreases s.len(),
{
    if s.len() > 0 {
        let c = s[0];
        let rest = s.drop_first();
        if c == '{' {
            lemma_strip_no_brace(rest, depth + 1);
        } else if c == '}' && depth > 0 {
            lemma_strip_no_brace(rest, (depth - 1) as nat);
        } else if depth == 0 {
            lemma_strip_no_brace(rest, 0);
            let r = strip_from(rest, 0);
            assert forall|i: int| 0 <= i < (seq![c] + r).len() implies #[trigger] (seq![c]
                + r)[i] != '{' by {
                if i > 0 {
                    assert((seq![c] + r)[i] == r[i - 1]);
                }
            }
        } else {
            lemma_strip_no_brace(rest, depth);
        }
    }
}

proof fn lemma_split_ws_ok(s: Seq<char>)
    ensures
        pieces_ok(split_ws(s), no_brace(s)),
    decreases s.len(),
{
    if s.len() > 0 {
        let init = s.drop_last();
        lemma_split_ws_ok(init);
        lemma_split_ws_len(init);
        if no_brace(s) {
            assert forall|i: int| 0 <= i < init.len() implies #[trigger] init[i] != '{' by {
                assert(init[i] == s[i]);
            }
        }
        let p = split_ws(init);
        if !is_ws(s.last()) {
            let q = split_ws(s);
            assert forall|i: int, j: int|
                0 <= i < q.len() && 0 <= j < q[i].len() implies !is_ws(#[trigger] q[i][j]) && (
            no_brace(s) ==> q[i][j] != '{') by {
                if i == p.len() - 1 {
                    if j == p.last().len() {
                        assert(q[i][j] == s.last());
                        assert(s.last() == s[s.len() - 1]);
                    } else {
                        assert(q[i][j] == p[i][j]);
                    }
                } else {
                    assert(q[i] == p[i]);
                }
            }
        } else {
            let q = split_ws(s);
            assert forall|i: int, j: int|
                0 <= i < q.len() && 0 <= j < q[i].len() implies !is_ws(#[trigger] q[i][j]) && (
            no_brace(s) ==> q[i][j] != '{') by {
                assert(q[i] == p[i]);
            }
        }
    }
}

proof fn lemma_non_empty_ok(ps: Seq<Seq<char>>, b: bool)
    requires
        pieces_ok(ps, b),
    ensures
        pieces_ok(non_empty(ps), b),
    decreases ps.len(),
{
    if ps.len() > 0 {
        let init = ps.drop_last();
        assert forall|i: int, j: int|
            0 <= i < init.len() && 0 <= j < init[i].len() implies !is_ws(#[trigger] init[i][j])
            && (b ==> init[i][j] != '{') by {
            assert(init[i] == ps[i]);
        }
        lemma_non_empty_ok(init, b);
        if ps.last().len() > 0 {
            let q = non_empty(ps);
            let r = non_empty(init);
            assert forall|i: int, j: int|
                0 <= i < q.len() && 0 <= j < q[i].len() implies !is_ws(#[trigger] q[i][j]) && (b
                ==> q[i][j] != '{') by {
                if i < r.len() {
                    assert(q[i] == r[i]);
                } else {
                    assert(q[i] == ps[ps.len() - 1]);
                }
            }
        }
    }
}

proof fn lemma_join_clean(ws: Seq<Seq<char>>)
    requires
        pieces_ok(ws, true),
        forall|i: int| 0 <= i < ws.len() ==> (#[trigger] ws[i]).len() > 0,
    ensures
        is_clean(join_words(ws)),
    decreases ws.len(),
{
    if ws.len() == 1 {
        let w = ws[0];
        assert forall|j: int| 0 <= j < w.len() implies !is_ws(#[trigger] w[j]) && w[j] != '{' by {
            assert(ws[0][j] == w[j]);
        }
    } else if ws.len() > 1 {
        let init = ws.drop_last();
        assert forall|i: int, j: int|
            0 <= i < init.len() && 0 <= j < init[i].len() implies !is_ws(#[trigger] init[i][j])
            && (true ==> init[i][j] != '{') by {
            assert(init[i] == ws[i]);
        }
        assert forall|i: int| 0 <= i < init.len() implies (#[trigger] init[i]).len() > 0 by {
            assert(init[i] == ws[i]);
        }
        lemma_join_clean(init);
        lemma_join_words_empty(init);
        let a = join_words(init);
        let w = ws.last();
        assert(w == ws[ws.len() - 1]);
        assert forall|j: int| 0 <= j < w.len() implies !is_ws(#[trigger] w[j]) && w[j] != '{' by {
            assert(ws[ws.len() - 1][j] == w[j]);
        }
        let b = a + seq![' '] + w;
        assert(join_words(ws) == b);
        // the last character of `a` is not whitespace
        assert(!is_ws(a[a.len() - 1]));
        assert forall|i: int| 0 <= i < b.len() implies #[trigger] b[i] != '{' by {
            if i < a.len() {
                assert(b[i] == a[i]);
            } else if i > a.len() {
                assert(b[i] == w[i - a.len() - 1]);
            }
        }
        assert forall|i: int| 0 <= i < b.len() && is_ws(#[trigger] b[i]) implies {
            &&& b[i] == ' '
            &&& 0 < i < b.len() - 1
            &&& !is_ws(b[i - 1])
            &&& !is_ws(b[i + 1])
        } by {
            if i < a.len() {
                assert(b[i] == a[i]);
                assert(b[i - 1] == a[i - 1]);
                assert(b[i + 1] == a[i + 1]);
            } else if i > a.len() {
                assert(b[i] == w[i - a.len() - 1]);
            } else {
                assert(b[i - 1] == a[a.len() - 1]);
                assert(b[i + 1] == w[0]);
            }
        }
    }
}

proof fn lemma_collapse_clean(s: Seq<char>)
    requires
        no_brace(s),
    ensures
        is_clean(collapse(s)),
{
    lemma_split_ws_ok(s);
    lemma_non_empty_ok(split_ws(s), true);
    lemma_non_empty_words(split_ws(s));
    lemma_join_clean(non_empty(split_ws(s)));
}

/// Expand `{token}`s, drop unknown tokens, collapse runs of whitespace, and
/// trim. An all-empty template yields an empty string; callers apply fallback.
pub fn render(template: &str, ctx: &Ctx) -> (out: String)
    ensures
        out@ == rendered(template@, *ctx),
        is_clean(out@),
{
    let mut s = chars_of(template);
    s = replace_chars(&s, &vec!['{', 'r', 'e', 'p', 'o', '}'], &value_chars(&ctx.repo));
    s = replace_chars(&s, &vec!['{', 'd', 'i', 'r', '}'], &chars_of(ctx.dir.as_str()));
    s = replace_chars(&s, &vec!['{', 'b', 'r', 'a', 'n', 'c', 'h', '}'], &value_chars(&ctx.branch));
    s = replace_chars(&s, &vec!['{', 't', 'i', 'c', 'k', 'e', 't', '}'], &value_chars(&ctx.ticket));
    s = replace_chars(
        &s,
        &vec!['{', 'w', 'o', 'r', 'k', 't', 'r', 'e', 'e', '}'],
        &value_chars(&ctx.worktree),
    );
    s = replace_chars(&s, &vec!['{', 'a', 'g', 'e', 'n', 't', '}'], &value_chars(&ctx.agent));
    s = replace_chars(&s, &vec!['{', 's', 't', 'a', 't', 'u', 's', '}'], &value_chars(&ctx.status));
    let substituted = string_of(&s);
    let stripped = strip_unknown_tokens(substituted.as_str());
    proof {
        lemma_strip_no_brace(substituted@, 0);
        lemma_collapse_clean(stripped@);
    }
    let words = collapse_chars(&chars_of(stripped.as_str()));
    string_of(&words)
}


// ---------------------------------------------------------------------------
// truncation

pub open spec fn ellipsis() -> char {
    '\u{2026}'
}

/// `label` cut to `max_length` characters, the last of them `…`; unchanged
/// when `max_length` is 0 or the label already fits.
pub open spec fn truncated(label: Seq<char>, max_length: nat) -> Seq<char> {
    if max_length == 0 || label.len() <= max_length {
        label
    } else {
        label.take(max_length - 1).push(ellipsis())
    }
}

/// `value` cut to `max` characters, the last of them `…`, when it is longer.
pub open spec fn clipped(value: Seq<char>, max: nat) -> Seq<char> {
    if value.len() <= max {
        value
    } else if max == 0 {
        seq![ellipsis()]
    } else {
        value.take(max - 1).push(ellipsis())
    }
}

/// Attach `…` if the label exceeds `max_length` characters.
pub fn truncate(label: &str, max_length: usize) -> (out: String)
    ensures
        out@ == truncated(label@, max_length as nat),
        max_length > 0 ==> out@.len() <= max_length,
{
    let chars = chars_of(label);
    if max_length == 0 || chars.len() <= max_length {
        return owned(label);
    }
    let mut out = string_of_range(&chars, 0, max_length - 1);
    push_char(&mut out, '\u{2026}');
    assert(chars@.subrange(0, max_length - 1) =~= label@.take(max_length - 1));
    out
}

/// Shorten `value` to at most `max` characters for a fixed-width column.
pub fn clip(value: &str, max: usize) -> (out: String)
    ensures
        out@ == clipped(value@, max as nat),
{
    let chars = chars_of(value);
    if chars.len() <= max {
        return owned(value);
    }
    let keep: usize = if max == 0 { 0 } else { max - 1 };
    let mut out = string_of_range(&chars, 0, keep);
    push_char(&mut out, '\u{2026}');
    assert(chars@.subrange(0, keep as int) =~= value@.take(keep as int));
    assert(max == 0 ==> out@ =~= seq![ellipsis()]);
    out
}


// ---------------------------------------------------------------------------
// tickets

/// A character of a ticket prefix run: `A`-`Z` or `0`-`9`.
pub open spec fn is_key_char(c: char) -> bool {
    is_upper(c) || is_digit(c)
}

/// The end of the run of prefix characters that starts at `j`.
pub open spec fn run_end(c: Seq<char>, j: int) -> int
    decreases c.len() - j,
{
    if 0 <= j < c.len() && is_key_char(c[j]) {
        run_end(c, j + 1)
    } else {
        j
    }
}

/// The end of the run of digits that starts at `j`.
pub open spec fn digits_end(c: Seq<char>, j: int) -> int
    decreases c.len() - j,
{
    if 0 <= j < c.len() && is_digit(c[j]) {
        digits_end(c, j + 1)
    } else {
        j
    }
}

/// No upper-case letter before `s` starts a run of prefix characters that
/// reaches `s`.
pub open spec fn fresh(c: Seq<char>, s: int) -> bool {
    !exists|t: int|
        0 <= t < s && is_upper(#[trigger] c[t]) && forall|k: int|
            t <= k < s ==> is_key_char(#[trigger] c[k])
}

/// The positions the scan tries as the start of a ticket: an upper-case
/// letter that is not inside a prefix run begun by an earlier letter.
pub open spec fn scan_start(c: Seq<char>, s: int) -> bool {
    0 <= s < c.len() && is_upper(c[s]) && fresh(c, s)
}

/// `p` passes the allowlist: the list is empty, or holds `p` up to ASCII case.
pub open spec fn prefix_allowed(prefixes: Seq<String>, p: Seq<char>) -> bool {
    prefixes.len() == 0 || exists|i: int|
        0 <= i < prefixes.len() && eq_ignore_case(#[trigger] prefixes[i]@, p)
}

/// At `s` starts `PREFIX-NUMBER`: a prefix run of at least two characters,
/// `-`, at least one digit, and then the end or a character that is not an
/// ASCII letter or digit; the prefix passes the allowlist.
pub open spec fn ticket_at(c: Seq<char>, prefixes: Seq<String>, s: int) -> bool {
    let j = run_end(c, s);
    let k = digits_end(c, j + 1);
    &&& j < c.len()
    &&& c[j] == '-'
    &&& k > j + 1
    &&& (k == c.len() || !is_alnum(c[k]))
    &&& j - s >= 2
    &&& prefix_allowed(prefixes, c.subrange(s, j))
}

/// The ticket text that starts at `s`.
pub open spec fn ticket_span(c: Seq<char>, s: int) -> Seq<char> {
    c.subrange(s, digits_end(c, run_end(c, s) + 1))
}

/// A start of a ticket with no ticket starting earlier.
pub open spec fn first_start(c: Seq<char>, prefixes: Seq<String>, s: int) -> bool {
    &&& scan_start(c, s)
    &&& ticket_at(c, prefixes, s)
    &&& forall|s2: int| 0 <= s2 < s && #[trigger] scan_start(c, s2) ==> !ticket_at(c, prefixes, s2)
}

/// The first ticket in the branch name `c`, if any.
pub open spec fn first_ticket(c: Seq<char>, prefixes: Seq<String>) -> Option<Seq<char>> {
    if exists|s: int| #[trigger] first_start(c, prefixes, s) {
        Some(ticket_span(c, choose|s: int| #[trigger] first_start(c, prefixes, s)))
    } else {
        None
    }
}

proof fn lemma_first_ticket(c: Seq<char>, prefixes: Seq<String>, s: int)
    requires
        first_start(c, prefixes, s),
    ensures
        first_ticket(c, prefixes) == Some(ticket_span(c, s)),
{
    let t = choose|s: int| #[trigger] first_start(c, prefixes, s);
    assert(first_start(c, prefixes, t));
    if t < s {
        assert(scan_start(c, t));
    } else if s < t {
        assert(scan_start(c, s));
    }
    assert(t == s);
}

proof fn lemma_no_ticket(c: Seq<char>, prefixes: Seq<String>)
    requires
        forall|s: int| #[trigger] scan_start(c, s) ==> !ticket_at(c, prefixes, s),
    ensures
        first_ticket(c, prefixes) is None,
{
    if exists|s: int| #[trigger] first_start(c, prefixes, s) {
        let t = choose|s: int| #[trigger] first_start(c, prefixes, s);
        assert(scan_start(c, t));
    }
}

fn any_prefix_matches(prefixes: &[String], chars: &Vec<char>, lo: usize, hi: usize) -> (r: bool)
    requires
        lo <= hi <= chars@.len(),
    ensures
        r == exists|i: int|
            0 <= i < prefixes@.len() && eq_ignore_case(
                #[trigger] prefixes@[i]@,
                chars@.subrange(lo as int, hi as int),
            ),
{
    let mut part: Vec<char> = Vec::new();
    let mut x: usize = lo;
    while x < hi
        invariant
            lo <= x <= hi <= chars@.len(),
            part@ == chars@.subrange(lo as int, x as int),
        decreases hi - x,
    {
        part.push(chars[x]);
        assert(chars@.subrange(lo as int, x + 1) =~= chars@.subrange(lo as int, x as int).push(
            chars@[x as int],
        ));
        x = x + 1;
    }
    let mut i: usize = 0;
    while i < prefixes.len()
        invariant
            i <= prefixes@.len(),
            part@ == chars@.subrange(lo as int, hi as int),
            forall|k: int| 0 <= k < i ==> !eq_ignore_case(#[trigger] prefixes@[k]@, part@),
        decreases prefixes@.len() - i,
    {
        let p = chars_of(prefixes[i].as_str());
        if same_ignoring_case(&p, &part) {
            return true;
        }
        i = i + 1;
    }
    false
}

/// Extract the first `PREFIX-NUMBER` ticket from a branch name, e.g.
/// `feature/BACK-565-case-field-updates` -> `BACK-565`.
///
/// A ticket is made of `A`-`Z`, `0`-`9` and `-` only, so its ASCII
/// upper-case form is the text as it stands in the branch.
pub fn extract_ticket(branch: &str, prefixes: &[String]) -> (r: Option<String>)
    ensures
        match r {
            Some(t) => exists|s: int|
                {
                    &&& scan_start(branch@, s)
                    &&& ticket_at(branch@, prefixes@, s)
                    &&& t@ == ticket_span(branch@, s)
                    &&& forall|s2: int|
                        0 <= s2 < s && #[trigger] scan_start(branch@, s2) ==> !ticket_at(
                            branch@,
                            prefixes@,
                            s2,
                        )
                },
            None => forall|s: int| #[trigger]
                scan_start(branch@, s) ==> !ticket_at(branch@, prefixes@, s),
        },
        match r {
            Some(t) => first_ticket(branch@, prefixes@) == Some(t@),
            None => first_ticket(branch@, prefixes@) is None,
        },
{
    let chars = chars_of(branch);
    let ghost c = branch@;
    let n = chars.len();
    let mut i: usize = 0;
    while i < n
        invariant
            chars@ == c,
            c == branch@,
            n == c.len(),
            i <= n,
            i == n || !is_key_char(c[i as int]) || fresh(c, i as int),
            forall|s: int| 0 <= s < i && #[trigger] scan_start(c, s) ==> !ticket_at(c, prefixes@, s),
        decreases n - i,
    {
        if !is_ascii_upper(chars[i]) {
            proof {
                if i + 1 < n && is_key_char(c[i + 1]) {
                    assert forall|t: int|
                        0 <= t < i + 1 && is_upper(#[trigger] c[t]) implies !forall|k: int|
                        t <= k < i + 1 ==> is_key_char(#[trigger] c[k]) by {
                        if t < i {
                            if forall|k: int| t <= k < i + 1 ==> is_key_char(#[trigger] c[k]) {
                                assert(forall|k: int| t <= k < i ==> is_key_char(#[trigger] c[k]));
                                assert(is_key_char(c[i as int]));
                                assert(!fresh(c, i as int));
                            }
                        }
                    }
                }
            }
            i = i + 1;
            continue;
        }
        let start = i;
        let mut j = i;
        while j < n && (is_ascii_upper(chars[j]) || is_ascii_digit(chars[j]))
            invariant
                chars@ == c,
                n == c.len(),
                start <= j <= n,
                start < n,
                run_end(c, start as int) == run_end(c, j as int),
                forall|k: int| start <= k < j ==> is_key_char(#[trigger] c[k]),
            decreases n - j,
        {
            j = j + 1;
        }
        assert(run_end(c, j as int) == j);
        assert(j > start);
        let prefix_end = j;
        if j < n && chars[j] == '-' {
            let mut k = j + 1;
            let digits_start = k;
            while k < n && is_ascii_digit(chars[k])
                invariant
                    chars@ == c,
                    n == c.len(),
                    digits_start <= k <= n,
                    digits_end(c, digits_start as int) == digits_end(c, k as int),
                decreases n - k,
            {
                k = k + 1;
            }
            assert(digits_end(c, k as int) == k);
            let boundary_ok = k == n || !is_ascii_alnum(chars[k]);
            let long_enough = k > digits_start && prefix_end - start >= 2;
            if boundary_ok && long_enough {
                let allowed = prefixes.len() == 0 || any_prefix_matches(
                    prefixes,
                    &chars,
                    start,
                    prefix_end,
                );
                if allowed {
                    let key = string_of_range(&chars, start, k);
                    assert(scan_start(c, start as int));
                    assert(ticket_at(c, prefixes@, start as int));
                    proof {
                        lemma_first_ticket(c, prefixes@, start as int);
                    }
                    return Some(key);
                }
            }
        }
        proof {
            assert(!ticket_at(c, prefixes@, start as int));
            assert forall|s: int| 0 <= s < j && #[trigger] scan_start(c, s) implies !ticket_at(
                c,
                prefixes@,
                s,
            ) by {
                if s > start {
                    assert(is_upper(c[start as int]));
                    assert(forall|k: int| start <= k < s ==> is_key_char(#[trigger] c[k]));
                    assert(!fresh(c, s));
                }
            }
        }
        i = j;
    }
    proof {
        lemma_no_ticket(c, prefixes@);
    }
    None
}

// ---------------------------------------------------------------------------
// laws

/// The shape of a Jira key: an upper-case letter, more letters or digits
/// (at least two characters before the dash), `-`, and one or more digits.
pub open spec fn is_ticket(t: Seq<char>) -> bool {
    exists|j: int|
        #![trigger t[j]]
        2 <= j && j + 1 < t.len() && t[j] == '-' && is_upper(t[0]) && (forall|k: int|
            0 <= k < j ==> is_key_char(#[trigger] t[k])) && (forall|k: int|
            j < k < t.len() ==> is_digit(#[trigger] t[k]))
}

proof fn lemma_run_end(c: Seq<char>, j: int)
    requires
        0 <= j <= c.len(),
    ensures
        j <= run_end(c, j) <= c.len(),
        forall|k: int| j <= k < run_end(c, j) ==> is_key_char(#[trigger] c[k]),
        run_end(c, j) < c.len() ==> !is_key_char(c[run_end(c, j)]),
    decreases c.len() - j,
{
    if j < c.len() && is_key_char(c[j]) {
        lemma_run_end(c, j + 1);
    }
}

proof fn lemma_digits_end(c: Seq<char>, j: int)
    requires
        0 <= j <= c.len(),
    ensures
        j <= digits_end(c, j) <= c.len(),
        forall|k: int| j <= k < digits_end(c, j) ==> is_digit(#[trigger] c[k]),
    decreases c.len() - j,
{
    if j < c.len() && is_digit(c[j]) {
        lemma_digits_end(c, j + 1);
    }
}

/// The ticket taken from a branch name is a Jira key: `PREFIX-NUMBER`.
pub proof fn law_ticket_is_a_key(c: Seq<char>, prefixes: Seq<String>)
    requires
        first_ticket(c, prefixes) is Some,
    ensures
        is_ticket(first_ticket(c, prefixes)->0),
{
    let s = choose|s: int| #[trigger] first_start(c, prefixes, s);
    assert(scan_start(c, s));
    let j = run_end(c, s);
    lemma_run_end(c, s);
    lemma_digits_end(c, j + 1);
    let k = digits_end(c, j + 1);
    let t = c.subrange(s, k);
    assert(t == first_ticket(c, prefixes)->0);
    let d = j - s;
    assert(t[d] == c[j]);
    assert(t[0] == c[s]);
    assert forall|x: int| 0 <= x < d implies is_key_char(#[trigger] t[x]) by {
        assert(t[x] == c[s + x]);
    }
    assert forall|x: int| d < x < t.len() implies is_digit(#[trigger] t[x]) by {
        assert(t[x] == c[s + x]);
    }
}

proof fn lemma_replace_keeps(s: Seq<char>, pat: Seq<char>, rep: Seq<char>)
    requires
        no_brace(s),
        pat.len() > 0,
        pat[0] == '{',
    ensures
        replace(s, pat, rep) == s,
    decreases s.len(),
{
    if s.len() >= pat.len() {
        assert(s.take(pat.len() as int)[0] == s[0]);
        assert(s.take(pat.len() as int) != pat);
        let rest = s.drop_first();
        assert(no_brace(rest)) by {
            assert forall|i: int| 0 <= i < rest.len() implies #[trigger] rest[i] != '{' by {
                assert(rest[i] == s[i + 1]);
            }
        }
        lemma_replace_keeps(rest, pat, rep);
        assert(seq![s[0]] + rest =~= s);
    }
}

proof fn lemma_strip_keeps(s: Seq<char>)
    requires
        no_brace(s),
    ensures
        strip_from(s, 0) == s,
    decreases s.len(),
{
    if s.len() > 0 {
        let rest = s.drop_first();
        assert(no_brace(rest)) by {
            assert forall|i: int| 0 <= i < rest.len() implies #[trigger] rest[i] != '{' by {
                assert(rest[i] == s[i + 1]);
            }
        }
        lemma_strip_keeps(rest);
        assert(s[0] != '{');
        assert(seq![s[0]] + rest =~= s);
    } else {
        assert(s =~= Seq::<char>::empty());
    }
}

/// Every whitespace character is a space after a non-space, and is not
/// followed by another: a clean text, or one with a single trailing space.
pub open spec fn spaced(s: Seq<char>) -> bool {
    forall|i: int|
        0 <= i < s.len() && is_ws(#[trigger] s[i]) ==> {
            &&& s[i] == ' '
            &&& 0 < i
            &&& !is_ws(s[i - 1])
            &&& (i + 1 < s.len() ==> !is_ws(s[i + 1]))
        }
}

proof fn lemma_non_empty_update_last(ps: Seq<Seq<char>>, x: Seq<char>)
    requires
        ps.len() > 0,
        x.len() > 0,
    ensures
        non_empty(ps.update(ps.len() - 1, x)) == non_empty(ps.drop_last()).push(x),
{
    let u = ps.update(ps.len() - 1, x);
    assert(u.drop_last() =~= ps.drop_last());
    assert(u.last() == x);
}

proof fn lemma_collapse_spaced(s: Seq<char>)
    requires
        spaced(s),
    ensures
        s.len() > 0 && !is_ws(s.last()) ==> {
            &&& split_ws(s).last().len() > 0
            &&& non_empty(split_ws(s)).len() > 0
            &&& non_empty(split_ws(s)).last() == split_ws(s).last()
            &&& join_words(non_empty(split_ws(s))) == s
        },
        !(s.len() > 0 && !is_ws(s.last())) ==> {
            &&& split_ws(s).last().len() == 0
            &&& join_words(non_empty(split_ws(s))) == (if s.len() == 0 {
                s
            } else {
                s.drop_last()
            })
        },
    decreases s.len(),
{
    lemma_split_ws_len(s);
    if s.len() > 0 {
        let s1 = s.drop_last();
        let c = s.last();
        assert(spaced(s1)) by {
            assert forall|i: int| 0 <= i < s1.len() && is_ws(#[trigger] s1[i]) implies {
                &&& s1[i] == ' '
                &&& 0 < i
                &&& !is_ws(s1[i - 1])
                &&& (i + 1 < s1.len() ==> !is_ws(s1[i + 1]))
            } by {
                assert(s1[i] == s[i]);
                assert(is_ws(s[i]));
                if i > 0 {
                    assert(s1[i - 1] == s[i - 1]);
                }
                if i + 1 < s1.len() {
                    assert(s1[i + 1] == s[i + 1]);
                }
            }
        }
        lemma_collapse_spaced(s1);
        lemma_split_ws_len(s1);
        let init = split_ws(s1);
        let w1 = non_empty(init);
        if is_ws(c) {
            assert(is_ws(s[s.len() - 1]));
            assert(s.len() - 1 > 0);
            assert(!is_ws(s[s.len() - 2]));
            assert(s1.last() == s[s.len() - 2]);
            assert(split_ws(s) == init.push(Seq::<char>::empty()));
            assert(init.push(Seq::<char>::empty()).drop_last() =~= init);
            assert(init.push(Seq::<char>::empty()).last().len() == 0);
            assert(non_empty(init.push(Seq::<char>::empty())) == w1);
            assert(join_words(w1) == s1);
            assert(s.drop_last() =~= s1);
        } else {
            let l = init.last();
            assert(split_ws(s) == init.update(init.len() - 1, l.push(c)));
            lemma_non_empty_update_last(init, l.push(c));
            let v = non_empty(init.drop_last());
            assert(non_empty(split_ws(s)) == v.push(l.push(c)));
            assert(v.push(l.push(c)).drop_last() =~= v);
            if s1.len() > 0 && !is_ws(s1.last()) {
                assert(w1 == v.push(l));
                assert(v.push(l).drop_last() =~= v);
                if v.len() == 0 {
                    assert(join_words(v.push(l)) == l);
                    assert(s1 == l);
                    assert(s =~= l.push(c));
                } else {
                    assert(join_words(v.push(l)) == join_words(v) + seq![' '] + l);
                    assert(s1 == join_words(v) + seq![' '] + l);
                    assert(s =~= s1.push(c));
                    assert(join_words(v.push(l.push(c))) == join_words(v) + seq![' '] + l.push(c));
                    assert(s =~= join_words(v) + seq![' '] + l.push(c));
                }
            } else {
                assert(l.len() == 0);
                assert(w1 == v);
                assert(l.push(c) =~= seq![c]);
                if s1.len() == 0 {
                    assert(s =~= seq![c]);
                } else {
                    assert(is_ws(s1.last()));
                    assert(s1.len() >= 2) by {
                        assert(is_ws(s[s1.len() - 1]));
                    }
                    assert(!is_ws(s1[s1.len() - 2])) by {
                        assert(is_ws(s[s1.len() - 1]));
                        assert(s1[s1.len() - 2] == s[s1.len() - 2]);
                    }
                    assert(s1.drop_last().len() > 0);
                    assert(join_words(v) == s1.drop_last());
                    assert(v.len() > 0);
                    assert(s1 =~= s1.drop_last().push(' '));
                    assert(s =~= join_words(v) + seq![' '] + seq![c]);
                }
            }
        }
    } else {
        assert(split_ws(s) == seq![Seq::<char>::empty()]);
        assert(seq![Seq::<char>::empty()].drop_last() =~= Seq::<Seq<char>>::empty());
        assert(seq![Seq::<char>::empty()].last().len() == 0);
        assert(non_empty(seq![Seq::<char>::empty()]) == non_empty(Seq::<Seq<char>>::empty()));
        assert(join_words(non_empty(split_ws(s))) == Seq::<char>::empty());
        assert(s =~= Seq::<char>::empty());
    }
}

proof fn lemma_replace_self(pat: Seq<char>, rep: Seq<char>)
    requires
        pat.len() > 0,
    ensures
        replace(pat, pat, rep) == rep,
{
    assert(pat.take(pat.len() as int) =~= pat);
    assert(pat.skip(pat.len() as int) =~= Seq::<char>::empty());
    assert(replace(Seq::<char>::empty(), pat, rep) == Seq::<char>::empty());
    assert(replace(pat, pat, rep) == rep + replace(pat.skip(pat.len() as int), pat, rep));
    assert(rep + Seq::<char>::empty() =~= rep);
}

/// A token left alone by the replacement of another token.
proof fn lemma_replace_other(s: Seq<char>, pat: Seq<char>, rep: Seq<char>)
    requires
        pat.len() > 1,
        pat[0] == '{',
        s.len() > 1,
        s[0] == '{',
        s[1] != pat[1],
        no_brace(s.drop_first()),
    ensures
        replace(s, pat, rep) == s,
{
    if s.len() >= pat.len() {
        assert(s.take(pat.len() as int)[1] == s[1]);
        assert(s.take(pat.len() as int) != pat);
        lemma_replace_keeps(s.drop_first(), pat, rep);
        assert(seq![s[0]] + s.drop_first() =~= s);
    }
}

/// A word with no whitespace and no `{` renders to itself.
proof fn lemma_word_stays(w: Seq<char>)
    requires
        w.len() > 0,
        no_brace(w),
        forall|i: int| 0 <= i < w.len() ==> !is_ws(#[trigger] w[i]),
    ensures
        collapse(strip_braces(w)) == w,
{
    lemma_strip_keeps(w);
    lemma_collapse_spaced(w);
}

/// The values after the token at hand, and the token's own value, pass
/// through the later replacements unchanged.
proof fn lemma_keeps_rest(v: Seq<char>, a: Seq<char>, b: Seq<char>, c: Seq<char>, d: Seq<char>)
    requires
        no_brace(v),
    ensures
        replace(replace(replace(replace(v, pat_ticket(), a), pat_worktree(), b), pat_agent(), c), pat_status(), d) == v,
{
    lemma_replace_keeps(v, pat_ticket(), a);
    lemma_replace_keeps(v, pat_worktree(), b);
    lemma_replace_keeps(v, pat_agent(), c);
    lemma_replace_keeps(v, pat_status(), d);
}

/// One word: non-empty, with no whitespace and no `{`.
pub open spec fn is_word(s: Seq<char>) -> bool {
    &&& s.len() > 0
    &&& no_brace(s)
    &&& forall|i: int| 0 <= i < s.len() ==> !is_ws(#[trigger] s[i])
}

/// A template that is one token renders to that token's value, when the
/// value is one word, whatever the other values: `{repo}` to the
/// repository name, `{dir}` to the directory name, `{branch}` to the
/// branch, `{ticket}` to the ticket, `{worktree}` to the worktree name,
/// `{agent}` to the agent and `{status}` to its status.
pub proof fn law_token_renders_its_value(
    repo: Seq<char>,
    dir: Seq<char>,
    branch: Seq<char>,
    ticket: Seq<char>,
    worktree: Seq<char>,
    agent: Seq<char>,
    status: Seq<char>,
    which: Seq<char>,
)
    requires
        is_word(which),
    ensures
        which == repo ==> collapse(
            strip_braces(
                substitute_values(pat_repo(), repo, dir, branch, ticket, worktree, agent, status),
            ),
        ) == repo,
        which == dir ==> collapse(
            strip_braces(
                substitute_values(pat_dir(), repo, dir, branch, ticket, worktree, agent, status),
            ),
        ) == dir,
        which == branch ==> collapse(
            strip_braces(
                substitute_values(pat_branch(), repo, dir, branch, ticket, worktree, agent, status),
            ),
        ) == branch,
        which == ticket ==> collapse(
            strip_braces(
                substitute_values(pat_ticket(), repo, dir, branch, ticket, worktree, agent, status),
            ),
        ) == ticket,
        which == worktree ==> collapse(
            strip_braces(
                substitute_values(pat_worktree(), repo, dir, branch, ticket, worktree, agent, status),
            ),
        ) == worktree,
        which == agent ==> collapse(
            strip_braces(
                substitute_values(pat_agent(), repo, dir, branch, ticket, worktree, agent, status),
            ),
        ) == agent,
        which == status ==> collapse(
            strip_braces(
                substitute_values(pat_status(), repo, dir, branch, ticket, worktree, agent, status),
            ),
        ) == status,
{
    lemma_word_stays(which);
    if which == repo {
        let t = pat_repo();
        lemma_replace_self(t, repo);
        lemma_replace_keeps(repo, pat_dir(), dir);
        lemma_replace_keeps(repo, pat_branch(), branch);
        lemma_keeps_rest(repo, ticket, worktree, agent, status);
    }
    if which == dir {
        let t = pat_dir();
        assert(replace(t, pat_repo(), repo) == t);
        lemma_replace_self(t, dir);
        lemma_replace_keeps(dir, pat_branch(), branch);
        lemma_keeps_rest(dir, ticket, worktree, agent, status);
    }
    if which == branch {
        let t = pat_branch();
        assert(no_brace(t.drop_first())) by {
            assert(t.drop_first() =~= seq!['b', 'r', 'a', 'n', 'c', 'h', '}']);
        }
        lemma_replace_other(t, pat_repo(), repo);
        lemma_replace_other(t, pat_dir(), dir);
        lemma_replace_self(t, branch);
        lemma_keeps_rest(branch, ticket, worktree, agent, status);
    }
    if which == ticket {
        let t = pat_ticket();
        assert(no_brace(t.drop_first())) by {
            assert(t.drop_first() =~= seq!['t', 'i', 'c', 'k', 'e', 't', '}']);
        }
        lemma_replace_other(t, pat_repo(), repo);
        lemma_replace_other(t, pat_dir(), dir);
        lemma_replace_other(t, pat_branch(), branch);
        lemma_replace_self(t, ticket);
        lemma_replace_keeps(ticket, pat_worktree(), worktree);
        lemma_replace_keeps(ticket, pat_agent(), agent);
        lemma_replace_keeps(ticket, pat_status(), status);
    }
    if which == worktree {
        let t = pat_worktree();
        assert(no_brace(t.drop_first())) by {
            assert(t.drop_first() =~= seq!['w', 'o', 'r', 'k', 't', 'r', 'e', 'e', '}']);
        }
        lemma_replace_other(t, pat_repo(), repo);
        lemma_replace_other(t, pat_dir(), dir);
        lemma_replace_other(t, pat_branch(), branch);
        lemma_replace_other(t, pat_ticket(), ticket);
        lemma_replace_self(t, worktree);
        lemma_replace_keeps(worktree, pat_agent(), agent);
        lemma_replace_keeps(worktree, pat_status(), status);
    }
    if which == agent {
        let t = pat_agent();
        assert(no_brace(t.drop_first())) by {
            assert(t.drop_first() =~= seq!['a', 'g', 'e', 'n', 't', '}']);
        }
        lemma_replace_other(t, pat_repo(), repo);
        lemma_replace_other(t, pat_dir(), dir);
        lemma_replace_other(t, pat_branch(), branch);
        lemma_replace_other(t, pat_ticket(), ticket);
        lemma_replace_other(t, pat_worktree(), worktree);
        lemma_replace_self(t, agent);
        lemma_replace_keeps(agent, pat_status(), status);
    }
    if which == status {
        let t = pat_status();
        assert(no_brace(t.drop_first())) by {
            assert(t.drop_first() =~= seq!['s', 't', 'a', 't', 'u', 's', '}']);
        }
        lemma_replace_other(t, pat_repo(), repo);
        lemma_replace_other(t, pat_dir(), dir);
        lemma_replace_other(t, pat_branch(), branch);
        lemma_replace_other(t, pat_ticket(), ticket);
        lemma_replace_other(t, pat_worktree(), worktree);
        lemma_replace_other(t, pat_agent(), agent);
        lemma_replace_self(t, status);
    }
}

/// `render` expands each token to its own field of the context: a template
/// that is one token renders to that field's value, when it is one word.
pub proof fn law_render_token_field(ctx: Ctx)
    ensures
        is_word(value_of(ctx.repo)) ==> rendered(pat_repo(), ctx) == value_of(ctx.repo),
        is_word(ctx.dir@) ==> rendered(pat_dir(), ctx) == ctx.dir@,
        is_word(value_of(ctx.branch)) ==> rendered(pat_branch(), ctx) == value_of(ctx.branch),
        is_word(value_of(ctx.ticket)) ==> rendered(pat_ticket(), ctx) == value_of(ctx.ticket),
        is_word(value_of(ctx.worktree)) ==> rendered(pat_worktree(), ctx) == value_of(
            ctx.worktree,
        ),
        is_word(value_of(ctx.agent)) ==> rendered(pat_agent(), ctx) == value_of(ctx.agent),
        is_word(value_of(ctx.status)) ==> rendered(pat_status(), ctx) == value_of(ctx.status),
{
    let (a, b, c, d, e, f, g) = (
        value_of(ctx.repo),
        ctx.dir@,
        value_of(ctx.branch),
        value_of(ctx.ticket),
        value_of(ctx.worktree),
        value_of(ctx.agent),
        value_of(ctx.status),
    );
    if is_word(a) {
        law_token_renders_its_value(a, b, c, d, e, f, g, a);
    }
    if is_word(b) {
        law_token_renders_its_value(a, b, c, d, e, f, g, b);
    }
    if is_word(c) {
        law_token_renders_its_value(a, b, c, d, e, f, g, c);
    }
    if is_word(d) {
        law_token_renders_its_value(a, b, c, d, e, f, g, d);
    }
    if is_word(e) {
        law_token_renders_its_value(a, b, c, d, e, f, g, e);
    }
    if is_word(f) {
        law_token_renders_its_value(a, b, c, d, e, f, g, f);
    }
    if is_word(g) {
        law_token_renders_its_value(a, b, c, d, e, f, g, g);
    }
}

/// Rendering is idempotent: a rendered label renders to itself, whatever
/// the context, as it holds no token and its whitespace is already
/// collapsed.
pub proof fn law_render_is_idempotent(t: Seq<char>, ctx: Ctx, ctx2: Ctx)
    ensures
        rendered(rendered(t, ctx), ctx2) == rendered(t, ctx),
{
    lemma_strip_no_brace(substitute(t, ctx), 0);
    lemma_collapse_clean(strip_braces(substitute(t, ctx)));
    let r = rendered(t, ctx);
    assert(no_brace(r));
    lemma_replace_keeps(r, pat_repo(), value_of(ctx2.repo));
    lemma_replace_keeps(r, pat_dir(), ctx2.dir@);
    lemma_replace_keeps(r, pat_branch(), value_of(ctx2.branch));
    lemma_replace_keeps(r, pat_ticket(), value_of(ctx2.ticket));
    lemma_replace_keeps(r, pat_worktree(), value_of(ctx2.worktree));
    lemma_replace_keeps(r, pat_agent(), value_of(ctx2.agent));
    lemma_replace_keeps(r, pat_status(), value_of(ctx2.status));
    assert(substitute(r, ctx2) == r);
    lemma_strip_keeps(r);
    assert(spaced(r));
    lemma_collapse_spaced(r);
    if r.len() > 0 {
        assert(!is_ws(r[r.len() - 1]));
    }
}

/// Cutting to a width larger than 0 is the same whether it is the
/// configured truncation or the status table's clipping.
pub proof fn law_truncate_is_clip(label: Seq<char>, max_length: nat)
    requires
        max_length > 0,
    ensures
        truncated(label, max_length) == clipped(label, max_length),
        truncated(label, max_length).len() <= max_length,
{
}

/// Truncation keeps a label that fits (or when there is no limit); a label
/// that is too long keeps its first `max_length - 1` characters and ends
/// in `…`, exactly `max_length` characters in all.
pub proof fn law_truncate_keeps_the_start(label: Seq<char>, max_length: nat)
    ensures
        max_length == 0 || label.len() <= max_length ==> truncated(label, max_length) == label,
        max_length > 0 && label.len() > max_length ==> {
            &&& truncated(label, max_length).len() == max_length
            &&& truncated(label, max_length)[max_length - 1] == '\u{2026}'
            &&& forall|i: int|
                0 <= i < max_length - 1 ==> #[trigger] truncated(label, max_length)[i] == label[i]
        },
{
}

} // verus!
