//! Unix paths as their components, the way `std::path::Path` sees them: a
//! flag for a leading `/` and the list of the other components. A path
//! written `a//b/./c/` and one written `a/b/c` are the same value here, as
//! they compare equal as `Path`s.
use vstd::prelude::*;
use crate::text::{chars_of, push_char, string_of};

verus! {

/// The model of a path: whether it is absolute, and its components other
/// than the root.
pub type PathModel = (bool, Seq<Seq<char>>);

pub open spec fn dot() -> Seq<char> {
    seq!['.']
}

pub open spec fn dot_dot() -> Seq<char> {
    seq!['.', '.']
}

/// `s` split at every `/`.
pub open spec fn split_slash(s: Seq<char>) -> Seq<Seq<char>>
    decreases s.len(),
{
    if s.len() == 0 {
        seq![Seq::empty()]
    } else {
        let init = split_slash(s.drop_last());
        if s.last() == '/' {
            init.push(Seq::empty())
        } else {
            init.update(init.len() - 1, init.last().push(s.last()))
        }
    }
}

/// Whether the piece at a position is a component: empty pieces and `.` are
/// dropped, except a `.` that begins the path.
pub open spec fn keeps(piece: Seq<char>, first: bool) -> bool {
    (first && piece == dot()) || (piece.len() > 0 && piece != dot())
}

pub open spec fn kept(ps: Seq<Seq<char>>) -> Seq<Seq<char>>
    decreases ps.len(),
{
    if ps.len() == 0 {
        Seq::empty()
    } else if keeps(ps.last(), ps.len() == 1) {
        kept(ps.drop_last()).push(ps.last())
    } else {
        kept(ps.drop_last())
    }
}

/// `Path::components` of the text `s`, the root as the flag.
pub open spec fn components(s: Seq<char>) -> PathModel {
    (s.len() > 0 && s[0] == '/', kept(split_slash(s)))
}

/// A well-formed model: components are non-empty and hold no `/`; a `.`
/// only begins a relative path.
pub open spec fn valid(m: PathModel) -> bool {
    valid_parts(m.0, m.1)
}

pub open spec fn valid_parts(absolute: bool, parts: Seq<Seq<char>>) -> bool {
    forall|i: int|
        0 <= i < parts.len() ==> {
            &&& (#[trigger] parts[i]).len() > 0
            &&& forall|j: int| 0 <= j < parts[i].len() ==> parts[i][j] != '/'
            &&& (parts[i] == dot() ==> i == 0 && !absolute)
        }
}

/// A name that is one normal component.
pub open spec fn is_name(n: Seq<char>) -> bool {
    &&& n.len() > 0
    &&& n != dot()
    &&& forall|j: int| 0 <= j < n.len() ==> n[j] != '/'
}

/// `Path::parent`: the path without its last component; nothing for the
/// root or the empty path.
pub open spec fn parent_of(m: PathModel) -> Option<PathModel> {
    if m.1.len() == 0 {
        None
    } else {
        Some((m.0, m.1.drop_last()))
    }
}

/// `Path::join`: an absolute `b` replaces `a`; joined to the empty path `b`
/// stays as it is; otherwise a leading `.` of `b` is dropped.
pub open spec fn join_of(a: PathModel, b: PathModel) -> PathModel {
    if b.0 || (!a.0 && a.1.len() == 0) {
        b
    } else if b.1.len() > 0 && b.1[0] == dot() {
        (a.0, a.1 + b.1.drop_first())
    } else {
        (a.0, a.1 + b.1)
    }
}

/// `Path::file_name`: the last component, when it is a normal one.
pub open spec fn file_name_of(m: PathModel) -> Option<Seq<char>> {
    if m.1.len() > 0 && m.1.last() != dot() && m.1.last() != dot_dot() {
        Some(m.1.last())
    } else {
        None
    }
}

/// Components joined by `/`.
pub open spec fn join_slash(ws: Seq<Seq<char>>) -> Seq<char>
    decreases ws.len(),
{
    if ws.len() == 0 {
        Seq::empty()
    } else if ws.len() == 1 {
        ws[0]
    } else {
        join_slash(ws.drop_last()) + seq!['/'] + ws.last()
    }
}

/// The text of a path, with single separators and no trailing one.
pub open spec fn text_of(m: PathModel) -> Seq<char> {
    if m.0 {
        seq!['/'] + join_slash(m.1)
    } else {
        join_slash(m.1)
    }
}

pub open spec fn views(v: Seq<String>) -> Seq<Seq<char>> {
    v.map_values(|s: String| s@)
}

/// A path, as its components.
#[derive(Debug)]
pub struct PathParts {
    absolute: bool,
    parts: Vec<String>,
}

impl View for PathParts {
    type V = PathModel;

    closed spec fn view(&self) -> PathModel {
        (self.absolute, views(self.parts@))
    }
}

proof fn lemma_split_slash_len(s: Seq<char>)
    ensures
        split_slash(s).len() >= 1,
        s.len() > 0 && s[0] == '/' ==> split_slash(s).len() >= 2 && split_slash(s)[0].len()
            == 0,
        forall|i: int|
            0 <= i < split_slash(s).len() ==> forall|j: int|
                0 <= j < (#[trigger] split_slash(s)[i]).len() ==> split_slash(s)[i][j] != '/',
    decreases s.len(),
{
    if s.len() > 0 {
        let init = s.drop_last();
        lemma_split_slash_len(init);
        let p = split_slash(init);
        let q = split_slash(s);
        if s.len() > 1 && s[0] == '/' {
            assert(init[0] == '/');
        }
        assert forall|i: int| 0 <= i < q.len() implies forall|j: int|
            0 <= j < (#[trigger] q[i]).len() ==> q[i][j] != '/' by {
            if s.last() != '/' && i == p.len() - 1 {
                assert forall|j: int| 0 <= j < q[i].len() implies q[i][j] != '/' by {
                    if j < p[i].len() {
                        assert(q[i][j] == p[i][j]);
                    }
                }
            } else if i < p.len() {
                assert(q[i] == p[i]);
            }
        }
    }
}

proof fn lemma_kept_valid(ps: Seq<Seq<char>>, absolute: bool)
    requires
        ps.len() >= 1,
        forall|i: int|
            0 <= i < ps.len() ==> forall|j: int|
                0 <= j < (#[trigger] ps[i]).len() ==> ps[i][j] != '/',
        absolute ==> ps[0].len() == 0,
    ensures
        valid((absolute, kept(ps))),
        absolute ==> kept(ps).len() == 0 || kept(ps)[0] != dot(),
    decreases ps.len(),
{
    let init = ps.drop_last();
    if ps.len() > 1 {
        assert(init[0] == ps[0]);
        assert forall|i: int| 0 <= i < init.len() implies forall|j: int|
            0 <= j < (#[trigger] init[i]).len() ==> init[i][j] != '/' by {
            assert(init[i] == ps[i]);
        }
        lemma_kept_valid(init, absolute);
    }
    let k = kept(ps);
    let ki = kept(init);
    if ps.len() == 1 {
        assert(init.len() == 0);
        assert(ki =~= Seq::<Seq<char>>::empty());
    }
    if keeps(ps.last(), ps.len() == 1) {
        assert(ps.last() == ps[ps.len() - 1]);
        assert(k == ki.push(ps.last()));
        assert(forall|j: int| 0 <= j < ps.last().len() ==> ps.last()[j] != '/');
        assert forall|i: int| 0 <= i < k.len() implies {
            &&& (#[trigger] k[i]).len() > 0
            &&& forall|j: int| 0 <= j < k[i].len() ==> k[i][j] != '/'
            &&& (k[i] == dot() ==> i == 0 && !absolute)
        } by {
            if i < ki.len() {
                assert(k[i] == ki[i]);
            } else {
                assert(k[i] == ps.last());
                if k[i] == dot() {
                    assert(ps.len() == 1);
                    assert(ki.len() == 0);
                    if absolute {
                        assert(ps[0].len() == 0);
                    }
                }
            }
        }
    }
}

proof fn lemma_is_dot(v: Seq<char>, b: bool)
    requires
        b == (v.len() == 1 && v[0] == '.'),
    ensures
        b == (v == dot()),
{
    if b {
        assert(v =~= dot());
    } else if v.len() == 1 {
        assert(v[0] != dot()[0]);
    }
}

proof fn lemma_views_push(v: Seq<String>, s: String)
    ensures
        views(v.push(s)) == views(v).push(s@),
{
    assert(views(v.push(s)) =~= views(v).push(s@));
}

pub open spec fn no_slash(w: Seq<char>) -> bool {
    forall|j: int| 0 <= j < w.len() ==> w[j] != '/'
}

proof fn lemma_split_word(s: Seq<char>, w: Seq<char>)
    requires
        no_slash(w),
    ensures
        split_slash(s.push('/') + w) == split_slash(s).push(w),
    decreases w.len(),
{
    if w.len() == 0 {
        assert(s.push('/') + w =~= s.push('/'));
        assert(s.push('/').drop_last() =~= s);
        assert(w =~= Seq::<char>::empty());
    } else {
        let v = w.drop_last();
        assert(w[w.len() - 1] != '/');
        lemma_split_word(s, v);
        let t = s.push('/') + w;
        assert(t.drop_last() =~= s.push('/') + v);
        assert(t.last() == w.last());
        assert(w.last() == w[w.len() - 1]);
        assert(v.push(w.last()) =~= w);
        assert(split_slash(t) =~= split_slash(s).push(w));
    }
}

proof fn lemma_split_single(w: Seq<char>)
    requires
        no_slash(w),
    ensures
        split_slash(w) == seq![w],
    decreases w.len(),
{
    if w.len() > 0 {
        let v = w.drop_last();
        lemma_split_single(v);
        assert(w.last() == w[w.len() - 1]);
        assert(v.push(w.last()) =~= w);
        assert(w[w.len() - 1] != '/');
        assert(split_slash(w) =~= seq![w]);
    } else {
        assert(w =~= Seq::<char>::empty());
        assert(split_slash(w) =~= seq![w]);
    }
}

proof fn lemma_split_join(ws: Seq<Seq<char>>)
    requires
        ws.len() >= 1,
        forall|i: int| 0 <= i < ws.len() ==> no_slash(#[trigger] ws[i]),
    ensures
        split_slash(join_slash(ws)) == ws,
        split_slash(seq!['/'] + join_slash(ws)) == seq![Seq::<char>::empty()] + ws,
    decreases ws.len(),
{
    if ws.len() == 1 {
        lemma_split_single(ws[0]);
        assert(seq![ws[0]] =~= ws);
        lemma_split_word(Seq::empty(), ws[0]);
        assert(Seq::<char>::empty().push('/') =~= seq!['/']);
        assert(split_slash(Seq::<char>::empty()) =~= seq![Seq::<char>::empty()]);
        assert(seq![Seq::<char>::empty()].push(ws[0]) =~= seq![Seq::<char>::empty()] + ws);
    } else {
        let init = ws.drop_last();
        assert forall|i: int| 0 <= i < init.len() implies no_slash(#[trigger] init[i]) by {
            assert(init[i] == ws[i]);
        }
        lemma_split_join(init);
        let w = ws.last();
        assert(w == ws[ws.len() - 1]);
        let j = join_slash(init);
        assert(join_slash(ws) == j + seq!['/'] + w);
        assert(j + seq!['/'] + w =~= j.push('/') + w);
        lemma_split_word(j, w);
        assert(init.push(w) =~= ws);
        assert(seq!['/'] + join_slash(ws) =~= (seq!['/'] + j).push('/') + w);
        lemma_split_word(seq!['/'] + j, w);
        assert((seq![Seq::<char>::empty()] + init).push(w) =~= seq![Seq::<char>::empty()] + ws);
    }
}

proof fn lemma_kept_keeps_all(ps: Seq<Seq<char>>)
    requires
        forall|i: int| 0 <= i < ps.len() ==> keeps(#[trigger] ps[i], i == 0),
    ensures
        kept(ps) == ps,
    decreases ps.len(),
{
    if ps.len() > 0 {
        let init = ps.drop_last();
        assert forall|i: int| 0 <= i < init.len() implies keeps(#[trigger] init[i], i == 0) by {
            assert(init[i] == ps[i]);
        }
        lemma_kept_keeps_all(init);
        assert(ps.last() == ps[ps.len() - 1]);
        assert(init.push(ps.last()) =~= ps);
    }
}

proof fn lemma_kept_after_root(ws: Seq<Seq<char>>)
    requires
        forall|i: int| 0 <= i < ws.len() ==> keeps(#[trigger] ws[i], false),
    ensures
        kept(seq![Seq::<char>::empty()] + ws) == ws,
    decreases ws.len(),
{
    let ps = seq![Seq::<char>::empty()] + ws;
    if ws.len() == 0 {
        assert(ps =~= seq![Seq::<char>::empty()]);
        assert(ps.drop_last() =~= Seq::<Seq<char>>::empty());
        assert(dot().len() == 1);
        assert(!keeps(Seq::<char>::empty(), true));
        assert(kept(Seq::<Seq<char>>::empty()) =~= Seq::<Seq<char>>::empty());
        assert(kept(ps) =~= ws);
    } else {
        let init = ws.drop_last();
        assert forall|i: int| 0 <= i < init.len() implies keeps(#[trigger] init[i], false) by {
            assert(init[i] == ws[i]);
        }
        lemma_kept_after_root(init);
        assert(ps.drop_last() =~= seq![Seq::<char>::empty()] + init);
        assert(ps.last() == ws.last());
        assert(ws.last() == ws[ws.len() - 1]);
        assert(init.push(ws.last()) =~= ws);
    }
}

/// Parsing the text of a well-formed path gives the path back.
pub proof fn law_parse_text_round_trip(m: PathModel)
    requires
        valid(m),
    ensures
        components(text_of(m)) == m,
{
    let ws = m.1;
    assert forall|i: int| 0 <= i < ws.len() implies no_slash(#[trigger] ws[i]) by {
        assert(valid_parts(m.0, m.1));
    }
    if m.0 {
        assert forall|i: int| 0 <= i < ws.len() implies keeps(#[trigger] ws[i], false) by {
            assert(valid_parts(m.0, m.1));
        }
        if ws.len() == 0 {
            assert(text_of(m) =~= seq!['/']);
            assert(seq!['/'] =~= Seq::<char>::empty().push('/'));
            assert(seq!['/'].drop_last() =~= Seq::<char>::empty());
            assert(seq!['/'].last() == '/');
            assert(split_slash(Seq::<char>::empty()) =~= seq![Seq::<char>::empty()]);
            assert(split_slash(seq!['/']) =~= seq![Seq::<char>::empty(), Seq::<char>::empty()]);
            assert(dot().len() == 1);
            let ps = seq![Seq::<char>::empty(), Seq::<char>::empty()];
            assert(ps.drop_last() =~= seq![Seq::<char>::empty()]);
            let one = seq![Seq::<char>::empty()];
            assert(one.drop_last() =~= Seq::<Seq<char>>::empty());
            assert(one.last() =~= Seq::<char>::empty());
            assert(ps.last() =~= Seq::<char>::empty());
            assert(!keeps(Seq::<char>::empty(), true));
            assert(!keeps(Seq::<char>::empty(), false));
            assert(kept(Seq::<Seq<char>>::empty()) =~= Seq::<Seq<char>>::empty());
            assert(kept(one) == kept(one.drop_last()));
            assert(kept(ps) == kept(ps.drop_last()));
            assert(kept(ps) =~= ws);
        } else {
            lemma_split_join(ws);
            lemma_kept_after_root(ws);
        }
        assert(text_of(m)[0] == '/');
    } else {
        assert forall|i: int| 0 <= i < ws.len() implies keeps(#[trigger] ws[i], i == 0) by {
            assert(valid_parts(m.0, m.1));
        }
        if ws.len() == 0 {
            assert(text_of(m) =~= Seq::<char>::empty());
            assert(kept(seq![Seq::<char>::empty()]) =~= ws) by {
                assert(seq![Seq::<char>::empty()].drop_last() =~= Seq::<Seq<char>>::empty());
                assert(dot().len() == 1);
                assert(!keeps(Seq::<char>::empty(), true));
                assert(kept(Seq::<Seq<char>>::empty()) =~= Seq::<Seq<char>>::empty());
            }
            assert(split_slash(Seq::<char>::empty()) =~= seq![Seq::<char>::empty()]);
        } else {
            lemma_split_join(ws);
            lemma_kept_keeps_all(ws);
            if text_of(m).len() > 0 {
                assert(text_of(m)[0] != '/') by {
                    lemma_join_first(ws);
                }
            }
        }
    }
}

proof fn lemma_join_first(ws: Seq<Seq<char>>)
    requires
        ws.len() >= 1,
        ws[0].len() > 0,
    ensures
        join_slash(ws).len() > 0,
        join_slash(ws)[0] == ws[0][0],
    decreases ws.len(),
{
    if ws.len() > 1 {
        let init = ws.drop_last();
        assert(init[0] == ws[0]);
        lemma_join_first(init);
    }
}

impl PathParts {
    #[verifier::type_invariant]
    closed spec fn inv(self) -> bool {
        valid(self@)
    }

    /// The empty relative path (`Path::new("")`).
    pub fn empty() -> (p: PathParts)
        ensures
            p@ == (false, Seq::<Seq<char>>::empty()),
    {
        let parts: Vec<String> = Vec::new();
        assert(views(parts@) =~= Seq::<Seq<char>>::empty());
        PathParts { absolute: false, parts }
    }

    /// The components of the text `s` (`Path::new(s).components()`).
    pub fn parse(s: &str) -> (p: PathParts)
        ensures
            p@ == components(s@),
            valid(p@),
    {
        let v = chars_of(s);
        let absolute = v.len() > 0 && v[0] == '/';
        let mut parts: Vec<String> = Vec::new();
        let mut cur: Vec<char> = Vec::new();
        let mut first = true;
        let mut i: usize = 0;
        while i < v.len()
            invariant
                v@ == s@,
                i <= v@.len(),
                split_slash(v@.take(i as int)).len() >= 1,
                cur@ == split_slash(v@.take(i as int)).last(),
                first == (split_slash(v@.take(i as int)).len() == 1),
                views(parts@) == kept(split_slash(v@.take(i as int)).drop_last()),
            decreases v@.len() - i,
        {
            let ghost p = split_slash(v@.take(i as int));
            assert(v@.take(i + 1).drop_last() =~= v@.take(i as int));
            assert(v@.take(i + 1).last() == v@[i as int]);
            proof {
                lemma_split_slash_len(v@.take(i as int));
            }
            let ch = v[i];
            if ch == '/' {
                let ghost np = split_slash(v@.take(i + 1));
                assert(np == p.push(Seq::empty()));
                assert(np.drop_last() =~= p);
                assert(p =~= p.drop_last().push(p.last()));
                let is_dot = cur.len() == 1 && cur[0] == '.';
                proof {
                    lemma_is_dot(cur@, is_dot);
                }
                if (first && is_dot) || (cur.len() > 0 && !is_dot) {
                    let piece = string_of(&cur);
                    proof {
                        lemma_views_push(parts@, piece);
                    }
                    parts.push(piece);
                }
                cur = Vec::new();
                first = false;
                assert(np.last() =~= Seq::<char>::empty());
            } else {
                let ghost np = split_slash(v@.take(i + 1));
                assert(np == p.update(p.len() - 1, p.last().push(ch)));
                assert(np.drop_last() =~= p.drop_last());
                cur.push(ch);
            }
            i = i + 1;
        }
        assert(v@.take(i as int) =~= v@);
        let ghost p = split_slash(v@);
        proof {
            lemma_split_slash_len(v@);
        }
        assert(p =~= p.drop_last().push(p.last()));
        let is_dot = cur.len() == 1 && cur[0] == '.';
        proof {
            lemma_is_dot(cur@, is_dot);
        }
        if (first && is_dot) || (cur.len() > 0 && !is_dot) {
            let piece = string_of(&cur);
            proof {
                lemma_views_push(parts@, piece);
            }
            parts.push(piece);
        }
        proof {
            lemma_kept_valid(p, absolute);
        }
        PathParts { absolute, parts }
    }

    pub fn is_absolute(&self) -> (b: bool)
        ensures
            b == self@.0,
    {
        self.absolute
    }

    /// The number of components other than the root.
    pub fn len(&self) -> (n: usize)
        ensures
            n == self@.1.len(),
    {
        self.parts.len()
    }

    /// The component at `i`.
    pub fn part(&self, i: usize) -> (s: &String)
        requires
            i < self@.1.len(),
        ensures
            s@ == self@.1[i as int],
    {
        &self.parts[i]
    }

    /// The path made of the root, if any, and the first `n` components.
    pub fn prefix(&self, n: usize) -> (p: PathParts)
        requires
            n <= self@.1.len(),
        ensures
            p@ == (self@.0, self@.1.take(n as int)),
    {
        proof {
            use_type_invariant(self);
        }
        let mut parts: Vec<String> = Vec::new();
        let mut i: usize = 0;
        while i < n
            invariant
                i <= n <= self.parts@.len(),
                views(parts@) == views(self.parts@).take(i as int),
            decreases n - i,
        {
            let piece = self.parts[i].clone();
            proof {
                lemma_views_push(parts@, piece);
            }
            parts.push(piece);
            assert(views(self.parts@).take(i + 1) =~= views(self.parts@).take(i as int).push(
                self.parts@[i as int]@,
            ));
            i = i + 1;
        }
        proof {
            let m = (self.absolute, views(parts@));
            assert forall|k: int| 0 <= k < m.1.len() implies {
                &&& (#[trigger] m.1[k]).len() > 0
                &&& forall|j: int| 0 <= j < m.1[k].len() ==> m.1[k][j] != '/'
                &&& (m.1[k] == dot() ==> k == 0 && !m.0)
            } by {
                assert(m.1[k] == self@.1[k]);
            }
        }
        assert(valid((self.absolute, views(parts@))));
        let p = PathParts { absolute: self.absolute, parts };
        assert(p@ == (self@.0, self@.1.take(n as int)));
        p
    }

    /// `Path::parent`.
    pub fn parent(&self) -> (r: Option<PathParts>)
        ensures
            r matches Some(p) ==> parent_of(self@) == Some(p@),
            r is None ==> parent_of(self@) is None,
    {
        if self.parts.len() == 0 {
            None
        } else {
            let p = self.prefix(self.parts.len() - 1);
            assert(self@.1.take(self@.1.len() - 1) =~= self@.1.drop_last());
            Some(p)
        }
    }

    /// This path with one more normal component (`Path::join` of a name).
    pub fn child(&self, name: &str) -> (p: PathParts)
        requires
            is_name(name@),
        ensures
            p@ == (self@.0, self@.1.push(name@)),
    {
        proof {
            use_type_invariant(self);
        }
        let mut parts = self.parts.clone();
        let piece = name.to_owned();
        proof {
            lemma_views_push(parts@, piece);
        }
        parts.push(piece);
        assert(valid((self.absolute, views(parts@)))) by {
            let m = (self.absolute, views(parts@));
            assert forall|i: int| 0 <= i < m.1.len() implies {
                &&& (#[trigger] m.1[i]).len() > 0
                &&& forall|j: int| 0 <= j < m.1[i].len() ==> m.1[i][j] != '/'
                &&& (m.1[i] == dot() ==> i == 0 && !m.0)
            } by {
                if i < self@.1.len() {
                    assert(m.1[i] == self@.1[i]);
                }
            }
        }
        let p = PathParts { absolute: self.absolute, parts };
        p
    }

    /// `Path::join`.
    pub fn join(&self, other: &PathParts) -> (p: PathParts)
        ensures
            p@ == join_of(self@, other@),
    {
        proof {
            use_type_invariant(self);
            use_type_invariant(other);
        }
        if other.absolute || (!self.absolute && self.parts.len() == 0) {
            return other.clone_path();
        }
        let skip: usize = if other.parts.len() > 0 && is_dot_text(&other.parts[0]) {
            1
        } else {
            0
        };
        let mut parts = self.parts.clone();
        let ghost base = views(parts@);
        let mut i: usize = skip;
        while i < other.parts.len()
            invariant
                skip <= i <= other.parts@.len(),
                views(parts@) == base + views(other.parts@).subrange(skip as int, i as int),
            decreases other.parts@.len() - i,
        {
            let piece = other.parts[i].clone();
            proof {
                lemma_views_push(parts@, piece);
            }
            parts.push(piece);
            assert(views(other.parts@).subrange(skip as int, i + 1) =~= views(
                other.parts@,
            ).subrange(skip as int, i as int).push(other.parts@[i as int]@));
            i = i + 1;
        }
        proof {
            let o = views(other.parts@);
            if skip == 1 {
                assert(o.subrange(1, o.len() as int) =~= o.drop_first());
            } else {
                assert(o.subrange(0, o.len() as int) =~= o);
            }
            let m = (self.absolute, views(parts@));
            assert(m == join_of(self@, other@));
            assert forall|k: int| 0 <= k < m.1.len() implies {
                &&& (#[trigger] m.1[k]).len() > 0
                &&& forall|j: int| 0 <= j < m.1[k].len() ==> m.1[k][j] != '/'
                &&& (m.1[k] == dot() ==> k == 0 && !m.0)
            } by {
                if k < self@.1.len() {
                    assert(m.1[k] == self@.1[k]);
                } else {
                    assert(m.1[k] == o[k - self@.1.len() + skip]);
                }
            }
            assert(valid(m));
        }
        PathParts { absolute: self.absolute, parts }
    }

    /// A copy of this path.
    pub fn clone_path(&self) -> (p: PathParts)
        ensures
            p@ == self@,
    {
        proof {
            use_type_invariant(self);
        }
        PathParts { absolute: self.absolute, parts: self.parts.clone() }
    }

    /// `Path::file_name`, as text.
    pub fn file_name(&self) -> (r: Option<String>)
        ensures
            r matches Some(s) ==> file_name_of(self@) == Some(s@),
            r is None ==> file_name_of(self@) is None,
    {
        let n = self.parts.len();
        if n == 0 {
            return None;
        }
        let last = &self.parts[n - 1];
        if is_dot_text(last) || is_dot_dot_text(last) {
            None
        } else {
            assert(self@.1.last() == last@);
            Some(last.clone())
        }
    }

    /// Whether both paths have the same components (`Path`'s `==`).
    pub fn same_as(&self, other: &PathParts) -> (b: bool)
        ensures
            b == (self@ == other@),
    {
        if self.absolute != other.absolute || self.parts.len() != other.parts.len() {
            assert(views(self.parts@).len() == self.parts@.len());
            assert(views(other.parts@).len() == other.parts@.len());
            return false;
        }
        let mut i: usize = 0;
        while i < self.parts.len()
            invariant
                i <= self.parts@.len(),
                self.parts@.len() == other.parts@.len(),
                forall|k: int| 0 <= k < i ==> self.parts@[k]@ == other.parts@[k]@,
            decreases self.parts@.len() - i,
        {
            if self.parts[i] != other.parts[i] {
                assert(views(self.parts@)[i as int] != views(other.parts@)[i as int]);
                return false;
            }
            i = i + 1;
        }
        assert(views(self.parts@) =~= views(other.parts@));
        true
    }

    /// The text of this path: the root, then the components joined by `/`.
    pub fn display(&self) -> (s: String)
        ensures
            s@ == text_of(self@),
            components(s@) == self@,
    {
        proof {
            use_type_invariant(self);
            law_parse_text_round_trip(self@);
        }
        let mut s = String::new();
        if self.absolute {
            push_char(&mut s, '/');
        }
        let ghost head = s@;
        let mut i: usize = 0;
        while i < self.parts.len()
            invariant
                i <= self.parts@.len(),
                s@ == head + join_slash(views(self.parts@).take(i as int)),
            decreases self.parts@.len() - i,
        {
            let ghost ws = views(self.parts@).take(i + 1);
            assert(ws.drop_last() =~= views(self.parts@).take(i as int));
            if i > 0 {
                push_char(&mut s, '/');
            }
            s.append(self.parts[i].as_str());
            proof {
                if i == 0 {
                    assert(s@ =~= head + ws[0]);
                } else {
                    assert(s@ =~= head + (join_slash(ws.drop_last()) + seq!['/'] + ws.last()));
                }
            }
            i = i + 1;
        }
        assert(views(self.parts@).take(self.parts@.len() as int) =~= views(self.parts@));
        proof {
            if !self.absolute {
                assert(head =~= Seq::<char>::empty());
                assert(s@ =~= join_slash(views(self.parts@)));
            }
        }
        s
    }
}

impl Clone for PathParts {
    fn clone(&self) -> (p: PathParts)
        ensures
            p@ == self@,
    {
        self.clone_path()
    }
}

fn is_dot_text(s: &String) -> (b: bool)
    ensures
        b == (s@ == dot()),
{
    let v = chars_of(s.as_str());
    let b = v.len() == 1 && v[0] == '.';
    proof {
        if v@.len() == 1 {
            assert(b == (v@ =~= dot()));
        }
    }
    b
}

fn is_dot_dot_text(s: &String) -> (b: bool)
    ensures
        b == (s@ == dot_dot()),
{
    let v = chars_of(s.as_str());
    let b = v.len() == 2 && v[0] == '.' && v[1] == '.';
    proof {
        if v@.len() == 2 {
            assert(b == (v@ =~= dot_dot()));
        }
    }
    b
}

} // verus!
