//! The files a ledger includes.
use vstd::prelude::*;
use std::collections::VecDeque;
use crate::line::{parse_line, spec_parse_line, Line, LineParts};
use crate::options::chars_eq_str;
use crate::text::{chars_of, push_str, spec_lines, split_lines, views};

verus! {

/// The paths of the `include` lines among the first `k` lines, in order.
pub open spec fn includes_upto(ls: Seq<Seq<char>>, k: int) -> Seq<Seq<char>>
    decreases k,
{
    if k <= 0 {
        seq![]
    } else {
        let before = includes_upto(ls, k - 1);
        match spec_parse_line(ls[k - 1]) {
            LineParts::Include { path } => before.push(path),
            _ => before,
        }
    }
}

/// The paths of the `include` directives of a ledger, as written, in order.
pub open spec fn spec_include_paths(content: Seq<char>) -> Seq<Seq<char>> {
    includes_upto(spec_lines(content), spec_lines(content).len() as int)
}

/// The paths named by the `include` lines of `content`, as written (glob
/// patterns included), in order.
pub fn include_paths(content: &str) -> (r: Vec<String>)
    ensures
        views(r@) == spec_include_paths(content@),
{
    let lines = split_lines(content);
    let ghost ls = views(lines@);
    let mut r: Vec<String> = Vec::new();
    let mut k: usize = 0;
    while k < lines.len()
        invariant
            k <= lines@.len(),
            ls == views(lines@),
            views(r@) == includes_upto(ls, k as int),
        decreases lines@.len() - k,
    {
        assert(ls[k as int] == lines@[k as int]@);
        let p = parse_line(lines[k].as_str());
        let ghost before = views(r@);
        match p {
            Line::Include { path } => {
                let mut s = String::new();
                push_str(&mut s, path);
                r.push(s);
                assert(views(r@) =~= before.push(s@));
            },
            _ => {},
        }
        k = k + 1;
    }
    r
}


// ---------------------------------------------------------------------------
// The breadth-first walk over included files
// ---------------------------------------------------------------------------

/// The state of the walk over a ledger and the files it includes: the files
/// still to visit, first in first out, and every file ever queued. Paths are
/// canonical, so equal texts are the same file.
pub struct IncludeWalk {
    pub queue: VecDeque<String>,
    pub visited: Vec<String>,
}

/// The walk after `found[..k]` has been offered: each path not yet seen is
/// appended to both lists, in order, once.
pub open spec fn offer(queue: Seq<Seq<char>>, visited: Seq<Seq<char>>, found: Seq<Seq<char>>, k: int) -> (
    Seq<Seq<char>>,
    Seq<Seq<char>>,
)
    decreases k,
{
    if k <= 0 {
        (queue, visited)
    } else {
        let (q, v) = offer(queue, visited, found, k - 1);
        if v.contains(found[k - 1]) {
            (q, v)
        } else {
            (q.push(found[k - 1]), v.push(found[k - 1]))
        }
    }
}

/// No path occurs twice.
pub open spec fn distinct(s: Seq<Seq<char>>) -> bool {
    forall|i: int, j: int| 0 <= i < j < s.len() ==> s[i] != s[j]
}

/// The walk's invariant: no file is seen twice, and every queued file has
/// been seen.
pub open spec fn walk_ok(queue: Seq<Seq<char>>, visited: Seq<Seq<char>>) -> bool {
    &&& distinct(visited)
    &&& distinct(queue)
    &&& forall|i: int| 0 <= i < queue.len() ==> visited.contains(#[trigger] queue[i])
}

impl IncludeWalk {
    pub open spec fn wf(&self) -> bool {
        walk_ok(views(self.queue@), views(self.visited@))
    }
}

proof fn lemma_offer(queue: Seq<Seq<char>>, visited: Seq<Seq<char>>, found: Seq<Seq<char>>, k: int)
    requires
        0 <= k <= found.len(),
        walk_ok(queue, visited),
    ensures
        walk_ok(offer(queue, visited, found, k).0, offer(queue, visited, found, k).1),
        forall|x: Seq<char>|
            #[trigger] offer(queue, visited, found, k).1.contains(x) <==> (visited.contains(x) || found.take(
                k,
            ).contains(x)),
    decreases k,
{
    if k > 0 {
        lemma_offer(queue, visited, found, k - 1);
        let (q, v) = offer(queue, visited, found, k - 1);
        let x = found[k - 1];
        let ft = found.take(k);
        let ft1 = found.take(k - 1);
        assert(ft =~= ft1.push(x));
        assert forall|y: Seq<char>| #[trigger] offer(queue, visited, found, k).1.contains(y) <==> (
            visited.contains(y) || found.take(k).contains(y)) by {
            if ft.contains(y) && !ft1.contains(y) {
                assert(y == x) by {
                    let i = choose|i: int| 0 <= i < ft.len() && ft[i] == y;
                    if i < k - 1 {
                        assert(ft1[i] == y);
                    }
                }
            }
            if !v.contains(x) {
                let vx = v.push(x);
                if vx.contains(y) && y != x {
                    let i = choose|i: int| 0 <= i < vx.len() && vx[i] == y;
                    assert(v[i] == y);
                }
                if v.contains(y) {
                    let i = choose|i: int| 0 <= i < v.len() && v[i] == y;
                    assert(v.push(x)[i] == y);
                }
                if y == x {
                    assert(v.push(x)[v.len() as int] == x);
                }
            }
            if ft1.contains(y) {
                let i = choose|i: int| 0 <= i < ft1.len() && ft1[i] == y;
                assert(ft[i] == y);
            }
            if y == x {
                assert(ft[k - 1] == x);
            }
        }
        if !v.contains(x) {
            let q2 = q.push(x);
            let v2 = v.push(x);
            assert forall|i: int| 0 <= i < q2.len() implies v2.contains(#[trigger] q2[i]) by {
                if i < q.len() {
                    assert(v.contains(q[i]));
                    let j = choose|j: int| 0 <= j < v.len() && v[j] == q[i];
                    assert(v2[j] == q2[i]);
                } else {
                    assert(v2[v.len() as int] == x);
                }
            }
            assert forall|i: int, j: int| 0 <= i < j < q2.len() implies q2[i] != q2[j] by {
                if j == q.len() {
                    assert(v.contains(q[i]));
                }
            }
            assert forall|i: int, j: int| 0 <= i < j < v2.len() implies v2[i] != v2[j] by {
                if j == v.len() {
                    assert(v2[i] == v[i]);
                }
            }
        }
    }
}

fn contains_path(v: &Vec<String>, p: &str) -> (r: bool)
    ensures
        r == views(v@).contains(p@),
{
    let mut k: usize = 0;
    while k < v.len()
        invariant
            k <= v@.len(),
            forall|i: int| 0 <= i < k ==> v@[i]@ != p@,
        decreases v@.len() - k,
    {
        if chars_eq_str(&chars_of(v[k].as_str()), p) {
            assert(views(v@)[k as int] == p@);
            return true;
        }
        k = k + 1;
    }
    proof {
        if views(v@).contains(p@) {
            let i = choose|i: int| 0 <= i < views(v@).len() && views(v@)[i] == p@;
            assert(v@[i]@ == p@);
        }
    }
    false
}

/// Starts the walk at the root ledger: it is queued and seen.
pub fn walk_start(root: String) -> (w: IncludeWalk)
    ensures
        w.wf(),
        views(w.queue@) == seq![root@],
        views(w.visited@) == seq![root@],
{
    let mut queue: VecDeque<String> = VecDeque::new();
    let mut visited: Vec<String> = Vec::new();
    let mut copy = String::new();
    push_str(&mut copy, root.as_str());
    queue.push_back(root);
    visited.push(copy);
    let w = IncludeWalk { queue, visited };
    assert(views(w.queue@) =~= seq![w.queue@[0]@]);
    assert(views(w.visited@) =~= seq![w.visited@[0]@]);
    w
}

/// The next file to visit, first in first out; `None` when the walk is over.
pub fn walk_next(w: &mut IncludeWalk) -> (r: Option<String>)
    requires
        old(w).wf(),
    ensures
        final(w).wf(),
        views(old(w).queue@).len() == 0 ==> r is None && views(final(w).queue@) == views(old(w).queue@),
        views(old(w).queue@).len() > 0 ==> (r matches Some(p) && p@ == views(old(w).queue@)[0]
            && views(final(w).queue@) == views(old(w).queue@).drop_first()),
        views(final(w).visited@) == views(old(w).visited@),
{
    let ghost q0 = views(w.queue@);
    let ghost old_q = w.queue@;
    match w.queue.pop_front() {
        None => {
            assert(views(w.queue@) =~= q0);
            None
        },
        Some(p) => {
            assert(w.queue@ =~= old_q.drop_first());
            assert(views(w.queue@) =~= q0.drop_first());
            proof {
                let q = views(w.queue@);
                assert forall|i: int| 0 <= i < q.len() implies views(w.visited@).contains(#[trigger] q[i]) by {
                    assert(q[i] == q0[i + 1]);
                }
                assert forall|i: int, j: int| 0 <= i < j < q.len() implies q[i] != q[j] by {
                    assert(q[i] == q0[i + 1] && q[j] == q0[j + 1]);
                }
            }
            Some(p)
        },
    }
}

/// Offers the files a visited ledger includes: each one not seen before is
/// queued and marked seen, in the order given, once.
pub fn walk_found(w: &mut IncludeWalk, found: Vec<String>)
    requires
        old(w).wf(),
    ensures
        final(w).wf(),
        (views(final(w).queue@), views(final(w).visited@)) == offer(
            views(old(w).queue@),
            views(old(w).visited@),
            views(found@),
            found@.len() as int,
        ),
        forall|x: Seq<char>|
            #[trigger] views(final(w).visited@).contains(x) <==> (views(old(w).visited@).contains(x)
                || views(found@).contains(x)),
{
    let ghost q0 = views(w.queue@);
    let ghost v0 = views(w.visited@);
    let ghost f = views(found@);
    let mut k: usize = 0;
    while k < found.len()
        invariant
            k <= found@.len(),
            f == views(found@),
            (views(w.queue@), views(w.visited@)) == offer(q0, v0, f, k as int),
            walk_ok(q0, v0),
        decreases found@.len() - k,
    {
        let p = found[k].as_str();
        assert(f[k as int] == p@);
        if !contains_path(&w.visited, p) {
            let mut a = String::new();
            push_str(&mut a, p);
            let mut b = String::new();
            push_str(&mut b, p);
            let ghost q1 = views(w.queue@);
            let ghost v1 = views(w.visited@);
            w.queue.push_back(a);
            w.visited.push(b);
            assert(views(w.queue@) =~= q1.push(p@));
            assert(views(w.visited@) =~= v1.push(p@));
        }
        k = k + 1;
    }
    proof {
        lemma_offer(q0, v0, f, f.len() as int);
        assert(f.take(f.len() as int) =~= f);
    }
}

} // verus!
