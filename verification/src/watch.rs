//! The decision of the wallpaper watcher: retheme when the displayed
//! wallpaper is not the one last themed. Paths are compared the way std
//! compares `Path`s: by their components, so repeated separators, a trailing
//! separator and inner `.` parts make no difference.

use vstd::prelude::*;
use crate::text::{chars_of, sub_vec};

verus! {

/// `s` cut at every `/` (empty pieces included).
pub open spec fn split_slash(s: Seq<char>) -> Seq<Seq<char>>
    decreases s.len(),
{
    if s.len() == 0 {
        seq![seq![]]
    } else {
        let init = split_slash(s.drop_last());
        if s.last() == '/' {
            init.push(seq![])
        } else {
            init.update(init.len() - 1, init.last().push(s.last()))
        }
    }
}

proof fn lemma_split_slash_len(s: Seq<char>)
    ensures
        split_slash(s).len() >= 1,
    decreases s.len(),
{
    if s.len() > 0 {
        lemma_split_slash_len(s.drop_last());
    }
}

/// A piece of a path that names a directory or file: not empty, not `.`.
pub open spec fn normal_part(p: Seq<char>) -> bool {
    p.len() > 0 && p != seq!['.']
}

/// `Path::components` of a Unix path: the root (as `/`) when the path starts
/// with one, a leading `.` of a relative path that starts with one, then
/// every piece between separators that is neither empty nor `.`.
pub open spec fn path_components(s: Seq<char>) -> Seq<Seq<char>> {
    let root = s.len() > 0 && s[0] == '/';
    let parts = split_slash(s);
    let cur = !root && parts[0] == seq!['.'];
    (if root {
        seq![seq!['/']]
    } else {
        seq![]
    }) + (if cur {
        seq![seq!['.']]
    } else {
        seq![]
    }) + normal_parts(parts)
}

/// The pieces of `parts` that are `normal_part`s, in order.
pub open spec fn normal_parts(parts: Seq<Seq<char>>) -> Seq<Seq<char>> {
    parts.filter(|p: Seq<char>| normal_part(p))
}

/// `Path` equality: the same components.
pub open spec fn same_path(a: Seq<char>, b: Seq<char>) -> bool {
    path_components(a) == path_components(b)
}

pub open spec fn views(v: Seq<Vec<char>>) -> Seq<Seq<char>> {
    v.map_values(|x: Vec<char>| x@)
}

fn split_slash_chars(cs: &Vec<char>) -> (parts: Vec<Vec<char>>)
    ensures
        views(parts@) == split_slash(cs@),
{
    let mut parts: Vec<Vec<char>> = Vec::new();
    let mut current: Vec<char> = Vec::new();
    let n = cs.len();
    assert(cs@.take(0) =~= Seq::<char>::empty());
    assert(views(parts@).push(current@) =~= split_slash(cs@.take(0)));
    for i in 0..n
        invariant
            n == cs.len(),
            views(parts@).push(current@) == split_slash(cs@.take(i as int)),
    {
        let ghost before = views(parts@).push(current@);
        assert(cs@.take(i + 1).drop_last() == cs@.take(i as int));
        assert(cs@.take(i + 1).last() == cs@[i as int]);
        if cs[i] == '/' {
            let done = current;
            parts.push(done);
            current = Vec::new();
            assert(views(parts@).push(current@) =~= before.push(seq![]));
        } else {
            current.push(cs[i]);
            assert(views(parts@).push(current@) =~= before.update(
                before.len() - 1,
                before.last().push(cs@[i as int]),
            ));
        }
    }
    assert(cs@.take(n as int) == cs@);
    parts.push(current);
    parts
}

/// The components of `s`, as `path_components` describes them.
pub fn components(s: &str) -> (c: Vec<Vec<char>>)
    ensures
        views(c@) == path_components(s@),
{
    let cs = chars_of(s);
    let parts = split_slash_chars(&cs);
    proof {
        lemma_split_slash_len(cs@);
    }
    let root = cs.len() > 0 && cs[0] == '/';
    let cur = !root && parts[0].len() == 1 && parts[0][0] == '.';
    assert(cur == (!root && parts@[0]@ == seq!['.'])) by {
        if parts@[0]@ == seq!['.'] {
            assert(parts@[0]@[0] == '.');
        }
        if !root && parts[0].len() == 1 && parts[0][0] == '.' {
            assert(parts@[0]@ =~= seq!['.']);
        }
    }
    let mut c: Vec<Vec<char>> = Vec::new();
    if root {
        let mut r: Vec<char> = Vec::new();
        r.push('/');
        c.push(r);
    }
    if cur {
        let mut d: Vec<char> = Vec::new();
        d.push('.');
        c.push(d);
    }
    let ghost head = views(c@);
    assert(head =~= (if root {
        seq![seq!['/']]
    } else {
        seq![]
    }) + (if cur {
        seq![seq!['.']]
    } else {
        seq![]
    }));
    let ghost pv = views(parts@);
    let m = parts.len();
    assert(pv.take(0) =~= Seq::<Seq<char>>::empty());
    assert(normal_parts(pv.take(0)) =~= Seq::<Seq<char>>::empty()) by {
        reveal_with_fuel(Seq::<Seq<char>>::filter, 1);
    }
    for j in 0..m
        invariant
            m == parts.len(),
            pv == views(parts@),
            views(c@) == head + normal_parts(pv.take(j as int)),
    {
        assert(pv.take(j + 1).drop_last() == pv.take(j as int));
        assert(pv.take(j + 1).last() == parts@[j as int]@);
        let p = &parts[j];
        let normal = p.len() > 0 && !(p.len() == 1 && p[0] == '.');
        assert(normal == normal_part(p@)) by {
            if p@ == seq!['.'] {
                assert(p@[0] == '.');
            }
            if p.len() == 1 && p[0] == '.' {
                assert(p@ =~= seq!['.']);
            }
        }
        let ghost old_c = views(c@);
        if normal {
            let q = sub_vec(p, 0, p.len());
            assert(q@ == p@);
            c.push(q);
            assert(views(c@) =~= old_c.push(p@));
        } else {
            assert(views(c@) == old_c);
        }
        let ghost prev = pv.take(j as int);
        let ghost next = pv.take(j + 1);
        assert(normal_parts(next) == if normal_part(next.last()) {
            normal_parts(next.drop_last()).push(next.last())
        } else {
            normal_parts(next.drop_last())
        }) by {
            reveal_with_fuel(Seq::<Seq<char>>::filter, 1);
        }
        assert(normal_parts(next) == if normal_part(next.last()) {
            normal_parts(next.drop_last()).push(next.last())
        } else {
            normal_parts(next.drop_last())
        });
        assert(views(c@) =~= head + normal_parts(pv.take(j + 1)));
    }
    assert(pv.take(m as int) == pv);
    c
}

fn same_chars(a: &Vec<char>, b: &Vec<char>) -> (r: bool)
    ensures
        r == (a@ == b@),
{
    if a.len() != b.len() {
        return false;
    }
    let n = a.len();
    for i in 0..n
        invariant
            n == a.len() == b.len(),
            forall|j: int| 0 <= j < i ==> a@[j] == b@[j],
    {
        if a[i] != b[i] {
            return false;
        }
    }
    assert(a@ =~= b@);
    true
}

/// Whether two paths are equal the way std compares `Path`s.
pub fn paths_equal(a: &str, b: &str) -> (r: bool)
    ensures
        r == same_path(a@, b@),
{
    let ca = components(a);
    let cb = components(b);
    if ca.len() != cb.len() {
        assert(views(ca@).len() != views(cb@).len());
        return false;
    }
    let n = ca.len();
    for i in 0..n
        invariant
            n == ca.len() == cb.len(),
            views(ca@) == path_components(a@),
            views(cb@) == path_components(b@),
            forall|j: int| 0 <= j < i ==> ca@[j]@ == cb@[j]@,
    {
        if !same_chars(&ca[i], &cb[i]) {
            assert(views(ca@)[i as int] != views(cb@)[i as int]);
            return false;
        }
    }
    assert(views(ca@) =~= views(cb@));
    true
}

/// The watcher's memory: the wallpaper it last themed.
pub struct Watcher {
    last: Option<String>,
}

impl Watcher {
    pub closed spec fn last_themed(&self) -> Option<Seq<char>> {
        match self.last {
            Some(s) => Some(s@),
            None => None,
        }
    }

    /// A watcher that has themed nothing yet.
    pub fn new() -> (w: Watcher)
        ensures
            w.last_themed() is None,
    {
        Watcher { last: None }
    }

    /// Whether `current` differs from the wallpaper last themed (so that,
    /// when it exists, it is themed now).
    pub fn is_new(&self, current: &str) -> (b: bool)
        ensures
            b == match self.last_themed() {
                Some(l) => !same_path(l, current@),
                None => true,
            },
    {
        match &self.last {
            Some(l) => !paths_equal(l.as_str(), current),
            None => true,
        }
    }

    /// Records that `current` was themed (whether or not theming succeeded).
    pub fn themed(&mut self, current: &str)
        ensures
            final(self).last_themed() == Some(current@),
    {
        self.last = Some(String::from_str(current));
    }
}

/// Path equality is an equivalence, so a wallpaper that was just themed is
/// not new when it is reported again, whichever spelling of it comes back.
pub proof fn law_same_path_is_equivalence(a: Seq<char>, b: Seq<char>, c: Seq<char>)
    ensures
        same_path(a, a),
        same_path(a, b) == same_path(b, a),
        same_path(a, b) && same_path(b, c) ==> same_path(a, c),
{
}

} // verus!
