//! Variable scopes of a running script: a stack of frames, innermost last.
//! A name is looked up from the innermost frame outwards; assigning to a
//! name updates it where it is already bound, or binds it in the innermost
//! frame.
use vstd::prelude::*;

use crate::text::str_eq;

verus! {

/// One frame: names with their values, each name at most once.
pub type FrameView<V> = Seq<(Seq<char>, V)>;

/// Whether frame `f` binds `n`.
pub open spec fn binds<V>(f: FrameView<V>, n: Seq<char>) -> bool {
    exists|j: int| 0 <= j < f.len() && (#[trigger] f[j]).0 == n
}

/// The value `f` binds to `n` (the first binding).
pub open spec fn frame_get<V>(f: FrameView<V>, n: Seq<char>) -> Option<V>
    decreases f.len(),
{
    if f.len() == 0 {
        None
    } else if f[0].0 == n {
        Some(f[0].1)
    } else {
        frame_get(f.drop_first(), n)
    }
}

/// `f` with `n` rebound to `v`.
pub open spec fn frame_set<V>(f: FrameView<V>, n: Seq<char>, v: V) -> FrameView<V> {
    f.map_values(|p: (Seq<char>, V)| if p.0 == n { (n, v) } else { p })
}

/// `f` with `n` bound to `v`, replacing an earlier binding or adding one.
pub open spec fn frame_insert<V>(f: FrameView<V>, n: Seq<char>, v: V) -> FrameView<V> {
    if binds(f, n) {
        frame_set(f, n, v)
    } else {
        f.push((n, v))
    }
}

/// The index of the innermost frame among `fs[..i]` that binds `n`, or -1.
pub open spec fn innermost<V>(fs: Seq<FrameView<V>>, n: Seq<char>, i: int) -> int
    decreases i,
{
    if i <= 0 {
        -1
    } else if binds(fs[i - 1], n) {
        i - 1
    } else {
        innermost(fs, n, i - 1)
    }
}

/// What looking `n` up gives.
pub open spec fn lookup_spec<V>(fs: Seq<FrameView<V>>, n: Seq<char>) -> Option<V> {
    let k = innermost(fs, n, fs.len() as int);
    if k < 0 {
        None
    } else {
        frame_get(fs[k], n)
    }
}

/// The frames after assigning `v` to `n`: rebound in the innermost frame
/// that binds it, else bound in the innermost frame (no frame, no change).
pub open spec fn assign_spec<V>(fs: Seq<FrameView<V>>, n: Seq<char>, v: V) -> Seq<FrameView<V>> {
    let k = innermost(fs, n, fs.len() as int);
    if k >= 0 {
        fs.update(k, frame_set(fs[k], n, v))
    } else if fs.len() > 0 {
        fs.update(fs.len() - 1, fs.last().push((n, v)))
    } else {
        fs
    }
}

/// The frames after binding `n` to `v` in the innermost frame.
pub open spec fn define_spec<V>(fs: Seq<FrameView<V>>, n: Seq<char>, v: V) -> Seq<FrameView<V>> {
    if fs.len() > 0 {
        fs.update(fs.len() - 1, frame_insert(fs.last(), n, v))
    } else {
        fs
    }
}

/// No frame binds a name twice.
pub open spec fn unique_names<V>(f: FrameView<V>) -> bool {
    forall|a: int, b: int| 0 <= a < b < f.len() ==> (#[trigger] f[a]).0 != (#[trigger] f[b]).0
}

pub open spec fn frame_view<V>(f: Vec<(String, V)>) -> FrameView<V> {
    f@.map_values(|p: (String, V)| (p.0@, p.1))
}


// ---------------------------------------------------------------- facts about frames
proof fn lemma_frame_set_binds<V>(f: FrameView<V>, n: Seq<char>, v: V, m: Seq<char>)
    ensures
        binds(frame_set(f, n, v), m) == binds(f, m),
        frame_set(f, n, v).len() == f.len(),
{
    let g = frame_set(f, n, v);
    if binds(f, m) {
        let j = choose|j: int| 0 <= j < f.len() && (#[trigger] f[j]).0 == m;
        assert(g[j].0 == m);
    }
    if binds(g, m) {
        let j = choose|j: int| 0 <= j < g.len() && (#[trigger] g[j]).0 == m;
        assert(f[j].0 == m);
    }
}

proof fn lemma_frame_get_set<V>(f: FrameView<V>, n: Seq<char>, v: V, m: Seq<char>)
    ensures
        binds(f, n) ==> frame_get(frame_set(f, n, v), n) == Some(v),
        m != n ==> frame_get(frame_set(f, n, v), m) == frame_get(f, m),
    decreases f.len(),
{
    if f.len() > 0 {
        let g = frame_set(f, n, v);
        assert(g.drop_first() =~= frame_set(f.drop_first(), n, v));
        lemma_frame_get_set(f.drop_first(), n, v, m);
        if binds(f, n) && f[0].0 != n {
            let j = choose|j: int| 0 <= j < f.len() && (#[trigger] f[j]).0 == n;
            assert(f.drop_first()[j - 1].0 == n);
        }
    }
}

proof fn lemma_frame_get_push<V>(f: FrameView<V>, n: Seq<char>, v: V, m: Seq<char>)
    ensures
        !binds(f, n) ==> frame_get(f.push((n, v)), n) == Some(v),
        m != n ==> frame_get(f.push((n, v)), m) == frame_get(f, m),
        binds(f.push((n, v)), m) == (binds(f, m) || m == n),
    decreases f.len(),
{
    let g = f.push((n, v));
    if f.len() > 0 {
        assert(g.drop_first() =~= f.drop_first().push((n, v)));
        assert(g[0] == f[0]);
        lemma_frame_get_push(f.drop_first(), n, v, m);
        if !binds(f, n) {
            assert forall|j: int| 0 <= j < f.drop_first().len() implies (#[trigger] f.drop_first()[j]).0
                != n by {
                assert(f.drop_first()[j] == f[j + 1]);
            }
            assert(f[0].0 != n);
        }
    } else {
        assert(g[0] == (n, v));
        assert(g.drop_first() =~= Seq::<(Seq<char>, V)>::empty());
        assert(frame_get(g.drop_first(), m) is None);
        assert(frame_get(f, m) is None);
    }
    if binds(g, m) {
        let j = choose|j: int| 0 <= j < g.len() && (#[trigger] g[j]).0 == m;
        if j < f.len() {
            assert(f[j] == g[j]);
        }
    }
    if binds(f, m) {
        let j = choose|j: int| 0 <= j < f.len() && (#[trigger] f[j]).0 == m;
        assert(g[j] == f[j]);
    }
    if m == n {
        assert(g[f.len() as int].0 == n);
    }
}

proof fn lemma_innermost_bounds<V>(fs: Seq<FrameView<V>>, n: Seq<char>, i: int)
    requires
        i <= fs.len(),
    ensures
        -1 <= innermost(fs, n, i) < i || (i <= 0 && innermost(fs, n, i) == -1),
        innermost(fs, n, i) >= 0 ==> binds(fs[innermost(fs, n, i)], n),
        forall|j: int| innermost(fs, n, i) < j < i ==> !binds(#[trigger] fs[j], n),
    decreases i,
{
    if i > 0 && !binds(fs[i - 1], n) {
        lemma_innermost_bounds(fs, n, i - 1);
    }
}

/// When two stacks agree on which frames bind `n`, they agree on the
/// innermost one.
proof fn lemma_innermost_same<V>(fs: Seq<FrameView<V>>, gs: Seq<FrameView<V>>, n: Seq<char>, i: int)
    requires
        fs.len() == gs.len(),
        i <= fs.len(),
        forall|j: int| 0 <= j < fs.len() ==> binds(#[trigger] fs[j], n) == binds(gs[j], n),
    ensures
        innermost(fs, n, i) == innermost(gs, n, i),
    decreases i,
{
    if i > 0 {
        assert(binds(fs[i - 1], n) == binds(gs[i - 1], n));
        lemma_innermost_same(fs, gs, n, i - 1);
    }
}

proof fn lemma_unique_set<V>(f: FrameView<V>, n: Seq<char>, v: V, j: int)
    requires
        unique_names(f),
        0 <= j < f.len(),
        f[j].0 == n,
    ensures
        frame_set(f, n, v) == f.update(j, (n, v)),
        unique_names(f.update(j, (n, v))),
{
    assert(frame_set(f, n, v) =~= f.update(j, (n, v)));
    let g = f.update(j, (n, v));
    assert forall|a: int, b: int| 0 <= a < b < g.len() implies (#[trigger] g[a]).0 != (#[trigger] g[b]).0 by {
        assert(f[a].0 != f[b].0);
    }
}

proof fn lemma_unique_push<V>(f: FrameView<V>, n: Seq<char>, v: V)
    requires
        unique_names(f),
        !binds(f, n),
    ensures
        unique_names(f.push((n, v))),
{
    let g = f.push((n, v));
    assert forall|a: int, b: int| 0 <= a < b < g.len() implies (#[trigger] g[a]).0 != (#[trigger] g[b]).0 by {
        if b == f.len() {
            assert(g[a] == f[a]);
        } else {
            assert(g[a] == f[a] && g[b] == f[b]);
        }
    }
}

/// Reading a name right after assigning it gives the assigned value.
pub proof fn law_lookup_after_assign<V>(fs: Seq<FrameView<V>>, n: Seq<char>, v: V)
    requires
        fs.len() > 0,
    ensures
        lookup_spec(assign_spec(fs, n, v), n) == Some(v),
{
    let k = innermost(fs, n, fs.len() as int);
    lemma_innermost_bounds(fs, n, fs.len() as int);
    let gs = assign_spec(fs, n, v);
    if k >= 0 {
        assert forall|j: int| 0 <= j < fs.len() implies binds(#[trigger] fs[j], n) == binds(gs[j], n) by {
            lemma_frame_set_binds(fs[k], n, v, n);
        }
        lemma_innermost_same(fs, gs, n, fs.len() as int);
        lemma_frame_get_set(fs[k], n, v, n);
    } else {
        let l = fs.len() - 1;
        lemma_frame_get_push(fs[l], n, v, n);
        assert(gs[l] == fs[l].push((n, v)));
        assert(binds(gs[l], n));
    }
}

/// Assigning one name leaves what every other name reads unchanged.
pub proof fn law_assign_keeps_other_names<V>(fs: Seq<FrameView<V>>, n: Seq<char>, v: V, m: Seq<char>)
    requires
        m != n,
    ensures
        lookup_spec(assign_spec(fs, n, v), m) == lookup_spec(fs, m),
{
    let k = innermost(fs, n, fs.len() as int);
    lemma_innermost_bounds(fs, n, fs.len() as int);
    let km = innermost(fs, m, fs.len() as int);
    lemma_innermost_bounds(fs, m, fs.len() as int);
    let gs = assign_spec(fs, n, v);
    if k >= 0 {
        assert forall|j: int| 0 <= j < fs.len() implies binds(#[trigger] fs[j], m) == binds(gs[j], m) by {
            lemma_frame_set_binds(fs[k], n, v, m);
        }
        lemma_innermost_same(fs, gs, m, fs.len() as int);
        lemma_frame_get_set(fs[k], n, v, m);
        if km >= 0 && km != k {
            assert(gs[km] == fs[km]);
        }
    } else if fs.len() > 0 {
        let l = fs.len() - 1;
        assert forall|j: int| 0 <= j < fs.len() implies binds(#[trigger] fs[j], m) == binds(gs[j], m) by {
            lemma_frame_get_push(fs[l], n, v, m);
        }
        lemma_innermost_same(fs, gs, m, fs.len() as int);
        lemma_frame_get_push(fs[l], n, v, m);
        if km >= 0 && km != l {
            assert(gs[km] == fs[km]);
        }
    }
}

proof fn lemma_innermost_prefix<V>(fs: Seq<FrameView<V>>, hs: Seq<FrameView<V>>, n: Seq<char>, i: int)
    requires
        i <= fs.len(),
        i <= hs.len(),
        forall|j: int| 0 <= j < i ==> #[trigger] fs[j] == hs[j],
    ensures
        innermost(fs, n, i) == innermost(hs, n, i),
    decreases i,
{
    if i > 0 {
        assert(fs[i - 1] == hs[i - 1]);
        lemma_innermost_prefix(fs, hs, n, i - 1);
    }
}

/// Assigning to a name that an enclosing scope binds, and the innermost one
/// does not, updates that enclosing binding instead of creating a new one:
/// the innermost frame is left as it was, and once it is closed the name
/// reads the assigned value.
pub proof fn law_assign_updates_enclosing_binding<V>(fs: Seq<FrameView<V>>, n: Seq<char>, v: V)
    requires
        fs.len() >= 2,
        !binds(fs.last(), n),
        lookup_spec(fs.drop_last(), n) is Some,
    ensures
        assign_spec(fs, n, v).len() == fs.len(),
        assign_spec(fs, n, v).last() == fs.last(),
        lookup_spec(assign_spec(fs, n, v).drop_last(), n) == Some(v),
{
    let l = fs.len() - 1;
    let outer = fs.drop_last();
    let ko = innermost(outer, n, l);
    lemma_innermost_bounds(outer, n, l);
    lemma_innermost_prefix(fs, outer, n, l);
    assert(fs[l] == fs.last());
    assert(innermost(fs, n, fs.len() as int) == ko);
    let gs = assign_spec(fs, n, v);
    assert(gs == fs.update(ko, frame_set(fs[ko], n, v)));
    let hs = gs.drop_last();
    assert forall|j: int| 0 <= j < outer.len() implies binds(#[trigger] outer[j], n) == binds(hs[j], n) by {
        lemma_frame_set_binds(fs[ko], n, v, n);
    }
    lemma_innermost_same(outer, hs, n, l);
    assert(outer[ko] == fs[ko]);
    lemma_frame_get_set(fs[ko], n, v, n);
    assert(hs[ko] == frame_set(fs[ko], n, v));
}

/// Binding a name in the innermost frame makes it read back, shadowing any
/// outer binding.
pub proof fn law_lookup_after_define<V>(fs: Seq<FrameView<V>>, n: Seq<char>, v: V)
    requires
        fs.len() > 0,
    ensures
        lookup_spec(define_spec(fs, n, v), n) == Some(v),
{
    let gs = define_spec(fs, n, v);
    let l = fs.len() - 1;
    if binds(fs[l], n) {
        lemma_frame_set_binds(fs[l], n, v, n);
        lemma_frame_get_set(fs[l], n, v, n);
    } else {
        lemma_frame_get_push(fs[l], n, v, n);
    }
    assert(gs[l] == frame_insert(fs[l], n, v));
    assert(binds(gs[l], n));
}

/// Opening a frame and closing it again leaves the scopes as they were.
pub proof fn law_pop_undoes_push<V>(fs: Seq<FrameView<V>>)
    ensures
        fs.push(Seq::<(Seq<char>, V)>::empty()).drop_last() == fs,
{
    assert(fs.push(Seq::<(Seq<char>, V)>::empty()).drop_last() =~= fs);
}

/// The variable scopes.
pub struct Scopes<V> {
    pub frames: Vec<Vec<(String, V)>>,
}

impl<V> Scopes<V> {
    pub open spec fn view(&self) -> Seq<FrameView<V>> {
        self.frames@.map_values(|f: Vec<(String, V)>| frame_view(f))
    }

    /// Every frame binds each of its names once.
    pub open spec fn wf(&self) -> bool {
        forall|i: int| 0 <= i < self.view().len() ==> unique_names(#[trigger] self.view()[i])
    }

    /// One empty frame, the global one.
    pub fn new() -> (r: Self)
        ensures
            r.wf(),
            r.view() == seq![Seq::<(Seq<char>, V)>::empty()],
    {
        let mut frames: Vec<Vec<(String, V)>> = Vec::new();
        frames.push(Vec::new());
        let r = Scopes { frames };
        assert(frame_view(r.frames@[0]) =~= Seq::<(Seq<char>, V)>::empty());
        assert(r.view() =~= seq![Seq::<(Seq<char>, V)>::empty()]);
        r
    }

    /// Opens a new innermost frame.
    pub fn push_frame(&mut self)
        requires
            old(self).wf(),
        ensures
            final(self).wf(),
            final(self).view() == old(self).view().push(Seq::<(Seq<char>, V)>::empty()),
    {
        self.frames.push(Vec::new());
        assert(frame_view(self.frames@[self.frames@.len() - 1]) =~= Seq::<(Seq<char>, V)>::empty());
        assert(self.view() =~= old(self).view().push(Seq::<(Seq<char>, V)>::empty()));
    }

    /// Closes the innermost frame, if any.
    pub fn pop_frame(&mut self)
        requires
            old(self).wf(),
        ensures
            final(self).wf(),
            final(self).view() == if old(self).view().len() > 0 {
                old(self).view().drop_last()
            } else {
                old(self).view()
            },
    {
        if self.frames.len() > 0 {
            self.frames.pop();
            assert(self.view() =~= old(self).view().drop_last());
        }
    }

    /// Index of the binding of `name` in frame `i`, if any.
    fn find_in(&self, i: usize, name: &str) -> (r: Option<usize>)
        requires
            i < self.view().len(),
            unique_names(self.view()[i as int]),
        ensures
            match r {
                Some(j) => j < self.view()[i as int].len() && self.view()[i as int][j as int].0 == name@
                    && frame_get(self.view()[i as int], name@) == Some(self.view()[i as int][j as int].1),
                None => !binds(self.view()[i as int], name@) && frame_get(self.view()[i as int], name@)
                    is None,
            },
    {
        let f = &self.frames[i];
        let ghost fv = self.view()[i as int];
        assert(fv == frame_view(*f));
        let mut j: usize = 0;
        assert(fv.skip(0) =~= fv);
        while j < f.len()
            invariant
                fv == frame_view(*f),
                i < self.view().len(),
                fv == self.view()[i as int],
                j <= f@.len(),
                forall|k: int| 0 <= k < j ==> (#[trigger] fv[k]).0 != name@,
                frame_get(fv, name@) == frame_get(fv.skip(j as int), name@),
            decreases f@.len() - j,
        {
            assert(fv.skip(j as int).drop_first() =~= fv.skip(j + 1));
            if str_eq(f[j].0.as_str(), name) {
                assert(fv[j as int].0 == name@);
                assert(fv.skip(j as int)[0] == fv[j as int]);
                return Some(j);
            }
            j += 1;
        }
        assert(fv.skip(j as int) =~= Seq::<(Seq<char>, V)>::empty());
        None
    }

    /// The value bound to `name` in the innermost frame that binds it.
    pub fn lookup(&self, name: &str) -> (r: Option<&V>)
        requires
            self.wf(),
        ensures
            match (r, lookup_spec(self.view(), name@)) {
                (Some(a), Some(b)) => *a == b,
                (None, None) => true,
                _ => false,
            },
    {
        let mut i = self.frames.len();
        while i > 0
            invariant
                self.wf(),
                i <= self.view().len(),
                innermost(self.view(), name@, self.view().len() as int) == innermost(
                    self.view(),
                    name@,
                    i as int,
                ),
            decreases i,
        {
            match self.find_in(i - 1, name) {
                Some(j) => {
                    return Some(&self.frames[i - 1][j].1);
                },
                None => {},
            }
            i -= 1;
        }
        None
    }

    /// Rebinds `name` (bound at position `j` of frame `i`) to `value`.
    fn rebind(&mut self, i: usize, j: usize, name: String, value: V)
        requires
            old(self).wf(),
            i < old(self).view().len(),
            j < old(self).view()[i as int].len(),
            old(self).view()[i as int][j as int].0 == name@,
        ensures
            final(self).wf(),
            final(self).view() == old(self).view().update(
                i as int,
                frame_set(old(self).view()[i as int], name@, value),
            ),
    {
        let ghost fs = self.view();
        let ghost fi = fs[i as int];
        proof {
            lemma_unique_set(fi, name@, value, j as int);
        }
        let mut f = self.frames.remove(i);
        assert(frame_view(f) == fi);
        let ghost nv = name@;
        f.set(j, (name, value));
        assert(frame_view(f) =~= fi.update(j as int, (nv, value)));
        self.frames.insert(i, f);
        assert(self.view() =~= fs.update(i as int, frame_set(fi, nv, value)));
        assert forall|k: int| 0 <= k < self.view().len() implies unique_names(#[trigger] self.view()[k]) by {
            if k != i {
                assert(self.view()[k] == fs[k]);
            }
        }
    }

    /// Binds `name` to `value` at the end of the innermost frame, which must
    /// not bind it yet.
    fn bind_last(&mut self, name: String, value: V)
        requires
            old(self).wf(),
            old(self).view().len() > 0,
            !binds(old(self).view().last(), name@),
        ensures
            final(self).wf(),
            final(self).view() == old(self).view().update(
                old(self).view().len() - 1,
                old(self).view().last().push((name@, value)),
            ),
    {
        let ghost fs = self.view();
        let ghost l = fs.len() - 1;
        let ghost nv = name@;
        proof {
            lemma_unique_push(fs[l], nv, value);
        }
        let mut f = self.frames.pop().unwrap();
        assert(frame_view(f) == fs[l]);
        f.push((name, value));
        assert(frame_view(f) =~= fs[l].push((nv, value)));
        self.frames.push(f);
        assert(self.view() =~= fs.update(l, fs[l].push((nv, value))));
        assert forall|k: int| 0 <= k < self.view().len() implies unique_names(#[trigger] self.view()[k]) by {
            if k != l {
                assert(self.view()[k] == fs[k]);
            }
        }
    }

    /// Assigns `value` to `name`: in the innermost frame that binds it, or
    /// else as a new binding in the innermost frame.
    pub fn set_var(&mut self, name: String, value: V)
        requires
            old(self).wf(),
        ensures
            final(self).wf(),
            final(self).view() == assign_spec(old(self).view(), name@, value),
    {
        let ghost fs = self.view();
        proof {
            lemma_innermost_bounds(fs, name@, fs.len() as int);
        }
        let mut i = self.frames.len();
        while i > 0
            invariant
                self.wf(),
                self.view() == fs,
                fs == old(self).view(),
                i <= fs.len(),
                innermost(fs, name@, fs.len() as int) == innermost(fs, name@, i as int),
            decreases i,
        {
            match self.find_in(i - 1, name.as_str()) {
                Some(j) => {
                    self.rebind(i - 1, j, name, value);
                    return;
                },
                None => {},
            }
            i -= 1;
        }
        if self.frames.len() > 0 {
            proof {
                let l = fs.len() - 1;
                assert(!binds(fs[l], name@));
            }
            self.bind_last(name, value);
        }
    }

    /// Binds `name` to `value` in the innermost frame (a parameter or loop
    /// variable), replacing a binding of the same name there.
    pub fn define(&mut self, name: String, value: V)
        requires
            old(self).wf(),
        ensures
            final(self).wf(),
            final(self).view() == define_spec(old(self).view(), name@, value),
    {
        let n = self.frames.len();
        if n == 0 {
            return;
        }
        match self.find_in(n - 1, name.as_str()) {
            Some(j) => {
                self.rebind(n - 1, j, name, value);
            },
            None => {
                self.bind_last(name, value);
            },
        }
    }

}

} // verus!
