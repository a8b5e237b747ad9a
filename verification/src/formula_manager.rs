//! The dependency graph between formula cells: which vertex feeds which,
//! which vertices sit on cycles, and in what order a dirty set must be
//! recomputed.

use crate::base::{CellId, SheetId};
use vstd::prelude::*;

verus! {

/// A vertex of the dependency graph.
pub type Vertex = (SheetId, CellId);

/// An edge `(a, b)` means `a`'s value feeds into `b`'s formula.
pub open spec fn has_edge(g: Seq<(Vertex, Vertex)>, a: Vertex, b: Vertex) -> bool {
    g.contains((a, b))
}

/// Some member of the set feeds the vertex.
pub open spec fn has_pred_in(g: Seq<(Vertex, Vertex)>, rest: Seq<Vertex>, v: Vertex) -> bool {
    exists|u: Vertex| rest.contains(u) && #[trigger] has_edge(g, u, v)
}

/// A walk along edges, at least one edge long.
pub open spec fn is_path(g: Seq<(Vertex, Vertex)>, p: Seq<Vertex>) -> bool {
    p.len() >= 2 && forall|i: int| 0 <= i < p.len() - 1 ==> has_edge(g, #[trigger] p[i], p[i + 1])
}

/// `b` can be reached from `a` along at least one edge.
pub open spec fn reaches(g: Seq<(Vertex, Vertex)>, a: Vertex, b: Vertex) -> bool {
    exists|p: Seq<Vertex>| is_path(g, p) && p.first() == a && p.last() == b
}

/// No vertex lies on a cycle.
pub open spec fn spec_acyclic(g: Seq<(Vertex, Vertex)>) -> bool {
    forall|v: Vertex| !reaches(g, v, v)
}

/// Joining a path with a following edge is a path.
proof fn lemma_path_extend(g: Seq<(Vertex, Vertex)>, p: Seq<Vertex>, c: Vertex)
    requires
        is_path(g, p),
        has_edge(g, p.last(), c),
    ensures
        is_path(g, p.push(c)),
        p.push(c).first() == p.first(),
        p.push(c).last() == c,
{
    let q = p.push(c);
    assert forall|i: int| 0 <= i < q.len() - 1 implies has_edge(g, #[trigger] q[i], q[i + 1]) by {
        if i < p.len() - 1 {
            assert(q[i] == p[i] && q[i + 1] == p[i + 1]);
        } else {
            assert(q[i] == p.last() && q[i + 1] == c);
        }
    }
}

/// Membership scan.
fn vec_contains_vertex(v: &Vec<Vertex>, x: &Vertex) -> (r: bool)
    ensures
        r == v@.contains(*x),
{
    let n = v.len();
    let mut i: usize = 0;
    while i < n
        invariant
            i <= n,
            n == v@.len(),
            forall|j: int| 0 <= j < i ==> v@[j] != *x,
        decreases n - i,
    {
        if v[i].0 == x.0 && v[i].1 == x.1 {
            proof {
                assert(v@[i as int] == *x);
            }
            return true;
        }
        i = i + 1;
    }
    false
}

/// Appending a fresh element keeps a sequence duplicate-free.
proof fn lemma_push_no_dup(s: Seq<Vertex>, x: Vertex)
    requires
        s.no_duplicates(),
        !s.contains(x),
    ensures
        s.push(x).no_duplicates(),
{
    let t = s.push(x);
    assert forall|i: int, j: int| 0 <= i < j < t.len() implies t[i] != t[j] by {
        if j < t.len() - 1 {
            assert(t[i] == s[i] && t[j] == s[j]);
        } else {
            assert(t[i] == s[i]);
            if s[i] == x {
                assert(s.contains(x));
            }
        }
    }
}

/// A duplicate-free sequence whose members are all edge targets is no
/// longer than the edge list.
proof fn lemma_targets_bound(r: Seq<Vertex>, edges: Seq<(Vertex, Vertex)>)
    requires
        r.no_duplicates(),
        forall|x: Vertex| #[trigger] r.contains(x) ==> exists|j: int|
            0 <= j < edges.len() && (#[trigger] edges[j]).1 == x,
    ensures
        r.len() <= edges.len(),
{
    broadcast use vstd::seq_lib::group_seq_properties;
    broadcast use vstd::set_lib::group_set_properties;
    broadcast use vstd::set::group_set_axioms;
    broadcast use vstd::seq_lib::seq_to_set_is_finite;

    r.unique_seq_to_set();
    let targets = edges.map_values(|e: (Vertex, Vertex)| e.1);
    assert(r.to_set().subset_of(targets.to_set())) by {
        assert forall|x: Vertex| r.to_set().contains(x) implies targets.to_set().contains(x) by {
            assert(r.contains(x));
            let j = choose|j: int| 0 <= j < edges.len() && (#[trigger] edges[j]).1 == x;
            assert(targets[j] == x);
            assert(targets.contains(x));
        }
    }
    targets.lemma_cardinality_of_set();
    vstd::set_lib::lemma_len_subset(r.to_set(), targets.to_set());
}

/// Every vertex reachable from `a` along at least one edge.  The result is
/// exactly the reachable set over the edge list, without duplicates.
pub fn reach_from(edges: &Vec<(Vertex, Vertex)>, a: Vertex) -> (r: Vec<Vertex>)
    ensures
        forall|b: Vertex| #[trigger] r@.contains(b) <==> reaches(edges@, a, b),
        r@.no_duplicates(),
{
    let mut r: Vec<Vertex> = Vec::new();
    let mut work: Vec<Vertex> = Vec::new();
    let n = edges.len();
    let mut i: usize = 0;
    while i < n
        invariant
            i <= n,
            n == edges@.len(),
            r@.no_duplicates(),
            forall|x: Vertex| #[trigger] r@.contains(x) ==> exists|j: int|
                0 <= j < edges@.len() && (#[trigger] edges@[j]).1 == x,
            forall|b: Vertex| #[trigger] r@.contains(b) ==> reaches(edges@, a, b),
            forall|j: int|
                0 <= j < i && (#[trigger] edges@[j]).0 == a ==> r@.contains(edges@[j].1),
            work@ == r@,
        decreases n - i,
    {
        let e0 = edges[i].0;
        let e1 = edges[i].1;
        if e0.0 == a.0 && e0.1 == a.1 {
            proof {
                assert(edges@[i as int].0 == a);
            }
            if !vec_contains_vertex(&r, &e1) {
                let ghost pre = r@;
                r.push(e1);
                work.push(e1);
                proof {
                    crate::container::lemma_push_contains(pre, e1);
                    lemma_push_no_dup(pre, e1);
                    let p = seq![a, e1];
                    assert(edges@[i as int] == (a, e1));
                    assert(is_path(edges@, p) && p.first() == a && p.last() == e1);
                    assert(r@[r@.len() - 1] == e1 && edges@[i as int].1 == e1);
                }
            }
        }
        i = i + 1;
    }
    loop
        invariant
            n == edges@.len(),
            r@.no_duplicates(),
            forall|x: Vertex| #[trigger] r@.contains(x) ==> exists|j: int|
                0 <= j < edges@.len() && (#[trigger] edges@[j]).1 == x,
            forall|b: Vertex| #[trigger] r@.contains(b) ==> reaches(edges@, a, b),
            forall|j: int|
                0 <= j < edges@.len() && (#[trigger] edges@[j]).0 == a ==> r@.contains(
                    edges@[j].1,
                ),
            forall|w: Vertex| #[trigger] work@.contains(w) ==> r@.contains(w),
            forall|w: Vertex, j: int|
                #![trigger r@.contains(w), edges@[j]]
                r@.contains(w) && !work@.contains(w) && 0 <= j < edges@.len() && edges@[j].0 == w
                    ==> r@.contains(edges@[j].1),
        ensures
            forall|b: Vertex| #[trigger] r@.contains(b) ==> reaches(edges@, a, b),
            forall|j: int|
                0 <= j < edges@.len() && (#[trigger] edges@[j]).0 == a ==> r@.contains(
                    edges@[j].1,
                ),
            forall|w: Vertex, j: int|
                #![trigger r@.contains(w), edges@[j]]
                r@.contains(w) && 0 <= j < edges@.len() && edges@[j].0 == w ==> r@.contains(
                    edges@[j].1,
                ),
            r@.no_duplicates(),
        decreases edges@.len() + 1 - r@.len(), work@.len(),
    {
        proof {
            lemma_targets_bound(r@, edges@);
        }
        let ghost owork = work@;
        let w = match work.pop() {
            Some(w) => w,
            None => {
                break ;
            },
        };
        proof {
            assert(owork.len() >= 1 && owork[owork.len() - 1] == w);
            assert(owork.contains(w));
            assert forall|x: Vertex| owork.contains(x) && x != w implies work@.contains(x) by {
                let idx = choose|idx: int| 0 <= idx < owork.len() && owork[idx] == x;
                assert(idx < owork.len() - 1);
                assert(work@[idx] == x);
            }
            assert forall|x: Vertex| work@.contains(x) implies owork.contains(x) by {
                let idx = choose|idx: int| 0 <= idx < work@.len() && work@[idx] == x;
                assert(owork[idx] == x);
            }
            assert forall|x: Vertex, jj: int|
                #![trigger r@.contains(x), edges@[jj]]
                r@.contains(x) && !work@.contains(x) && x != w && 0 <= jj < edges@.len()
                    && edges@[jj].0 == x implies r@.contains(edges@[jj].1) by {
                if owork.contains(x) {
                    assert(work@.contains(x));
                }
            }
            assert forall|x: Vertex| #[trigger] work@.contains(x) implies r@.contains(x) by {
                assert(owork.contains(x));
            }
        }
        let ghost work_snap = work@;
        let ghost r_snap = r@;
        let mut j: usize = 0;
        while j < n
            invariant
                j <= n,
                n == edges@.len(),
                r@.contains(w),
                r@.no_duplicates(),
                forall|x: Vertex| #[trigger] r@.contains(x) ==> exists|jj: int|
                    0 <= jj < edges@.len() && (#[trigger] edges@[jj]).1 == x,
                forall|b: Vertex| #[trigger] r@.contains(b) ==> reaches(edges@, a, b),
                forall|jj: int|
                    0 <= jj < edges@.len() && (#[trigger] edges@[jj]).0 == a ==> r@.contains(
                        edges@[jj].1,
                    ),
                forall|x: Vertex| #[trigger] work@.contains(x) ==> r@.contains(x),
                forall|x: Vertex, jj: int|
                    #![trigger r@.contains(x), edges@[jj]]
                    r@.contains(x) && !work@.contains(x) && x != w && 0 <= jj < edges@.len()
                        && edges@[jj].0 == x ==> r@.contains(edges@[jj].1),
                forall|jj: int|
                    0 <= jj < j && (#[trigger] edges@[jj]).0 == w ==> r@.contains(edges@[jj].1),
                work@.len() - work_snap.len() == r@.len() - r_snap.len(),
                r_snap.len() <= r@.len(),
            decreases n - j,
        {
            let e0 = edges[j].0;
            let e1 = edges[j].1;
            if e0.0 == w.0 && e0.1 == w.1 {
                proof {
                    assert(edges@[j as int].0 == w);
                }
                if !vec_contains_vertex(&r, &e1) {
                    let ghost pre = r@;
                    let ghost prew = work@;
                    r.push(e1);
                    work.push(e1);
                    proof {
                        crate::container::lemma_push_contains(pre, e1);
                        crate::container::lemma_push_contains(prew, e1);
                        lemma_push_no_dup(pre, e1);
                        assert(reaches(edges@, a, w));
                        let p = choose|p: Seq<Vertex>|
                            is_path(edges@, p) && p.first() == a && p.last() == w;
                        assert(edges@[j as int] == (w, e1));
                        lemma_path_extend(edges@, p, e1);
                        assert(edges@[j as int].1 == e1);
                    }
                }
            }
            j = j + 1;
        }
        proof {
            lemma_targets_bound(r@, edges@);
            if r@.len() == r_snap.len() {
                assert(work@.len() == work_snap.len());
            }
        }
    }
    proof {
        assert forall|b: Vertex| reaches(edges@, a, b) implies #[trigger] r@.contains(b) by {
            let p = choose|p: Seq<Vertex>|
                is_path(edges@, p) && p.first() == a && p.last() == b;
            lemma_closed_contains_path(edges@, r@, a, p);
        }
    }
    r
}

/// The vertices of the wanted set that lie on a cycle: exactly those that
/// reach themselves.
pub fn detect_cycles(edges: &Vec<(Vertex, Vertex)>, vertices: &Vec<Vertex>) -> (r: Vec<Vertex>)
    ensures
        forall|v: Vertex| #[trigger] r@.contains(v) <==> (vertices@.contains(v) && reaches(
            edges@,
            v,
            v,
        )),
{
    let mut out: Vec<Vertex> = Vec::new();
    let n = vertices.len();
    let mut i: usize = 0;
    while i < n
        invariant
            i <= n,
            n == vertices@.len(),
            forall|v: Vertex| #[trigger] out@.contains(v) ==> (vertices@.contains(v) && reaches(
                edges@,
                v,
                v,
            )),
            forall|j: int|
                0 <= j < i && reaches(edges@, #[trigger] vertices@[j], vertices@[j])
                    ==> out@.contains(vertices@[j]),
        decreases n - i,
    {
        let v = vertices[i];
        let rs = reach_from(edges, v);
        if vec_contains_vertex(&rs, &v) {
            let ghost pre = out@;
            out.push(v);
            proof {
                crate::container::lemma_push_contains(pre, v);
                assert(vertices@.contains(v)) by {
                    assert(vertices@[i as int] == v);
                }
            }
        }
        i = i + 1;
    }
    proof {
        assert forall|v: Vertex|
            vertices@.contains(v) && reaches(edges@, v, v) implies #[trigger] out@.contains(v) by {
            let j = choose|j: int| 0 <= j < vertices@.len() && vertices@[j] == v;
            assert(reaches(edges@, vertices@[j], vertices@[j]));
        }
    }
    out
}

/// Law: the dependency graph is acyclic exactly when the cycle scan over a
/// vertex set covering every edge source comes back empty.
pub proof fn lemma_acyclic_iff_no_cycle_found(g: Seq<(Vertex, Vertex)>, vs: Seq<Vertex>)
    requires
        forall|j: int| 0 <= j < g.len() ==> vs.contains((#[trigger] g[j]).0),
    ensures
        spec_acyclic(g) <==> (forall|v: Vertex|
            !(vs.contains(v) && #[trigger] reaches(g, v, v))),
{
    if forall|v: Vertex| !(vs.contains(v) && #[trigger] reaches(g, v, v)) {
        assert forall|v: Vertex| !(#[trigger] reaches(g, v, v)) by {
            if reaches(g, v, v) {
                let p = choose|p: Seq<Vertex>|
                    is_path(g, p) && p.first() == v && p.last() == v;
                assert(has_edge(g, p[0], p[1]));
                let j = choose|j: int| 0 <= j < g.len() && g[j] == (p[0], p[1]);
                assert(vs.contains(v));
            }
        }
    }
}

/// In a duplicate-free stuck set, where every member has a precedent inside
/// the set, some member lies on a cycle.
proof fn lemma_stuck_has_cycle(g: Seq<(Vertex, Vertex)>, s: Seq<Vertex>)
    requires
        s.len() >= 1,
        s.no_duplicates(),
        forall|v: Vertex| #[trigger] s.contains(v) ==> exists|u: Vertex|
            s.contains(u) && #[trigger] has_edge(g, u, v),
    ensures
        exists|v: Vertex| s.contains(v) && #[trigger] reaches(g, v, v),
{
    let w0 = seq![s[0]];
    assert(s.contains(s[0]));
    let w = lemma_grow_walk(g, s, w0);
    assert(!w.no_duplicates());
    let (i, j) = choose|i: int, j: int| 0 <= i < j < w.len() && w[i] == w[j];
    let p = Seq::new((j - i + 1) as nat, |t: int| w[j - t]);
    assert(is_path(g, p)) by {
        assert forall|t: int| 0 <= t < p.len() - 1 implies has_edge(g, #[trigger] p[t], p[t + 1]) by {
            assert(p[t] == w[j - t] && p[t + 1] == w[j - t - 1]);
            assert(has_edge(g, w[(j - t - 1) + 1], w[j - t - 1]));
        }
    }
    assert(p.first() == w[j] && p.last() == w[i]);
    assert(s.contains(w[i]));
    assert(reaches(g, w[i], w[i]));
}

/// Grows a backwards precedent chain inside the stuck set until it must
/// repeat a member.
#[verifier::rlimit(100)]
proof fn lemma_grow_walk(g: Seq<(Vertex, Vertex)>, s: Seq<Vertex>, w: Seq<Vertex>) -> (r: Seq<
    Vertex,
>)
    requires
        s.no_duplicates(),
        1 <= w.len(),
        forall|m: int| 0 <= m < w.len() ==> s.contains(#[trigger] w[m]),
        forall|m: int| 0 <= m < w.len() - 1 ==> has_edge(g, #[trigger] w[m + 1], w[m]),
        forall|v: Vertex| #[trigger] s.contains(v) ==> exists|u: Vertex|
            s.contains(u) && #[trigger] has_edge(g, u, v),
    ensures
        !r.no_duplicates(),
        forall|m: int| 0 <= m < r.len() ==> s.contains(#[trigger] r[m]),
        forall|m: int| 0 <= m < r.len() - 1 ==> has_edge(g, #[trigger] r[m + 1], r[m]),
    decreases s.len() + 2 - w.len(),
{
    if !w.no_duplicates() {
        w
    } else {
        assert(w.len() <= s.len()) by {
            broadcast use vstd::seq_lib::group_seq_properties;
            broadcast use vstd::set_lib::group_set_properties;
            broadcast use vstd::set::group_set_axioms;
            broadcast use vstd::seq_lib::seq_to_set_is_finite;

            w.unique_seq_to_set();
            s.unique_seq_to_set();
            assert(w.to_set().subset_of(s.to_set())) by {
                assert forall|x: Vertex| w.to_set().contains(x) implies s.to_set().contains(x) by {
                    assert(w.contains(x));
                    let m = choose|m: int| 0 <= m < w.len() && w[m] == x;
                    assert(s.contains(w[m]));
                }
            }
            vstd::set_lib::lemma_len_subset(w.to_set(), s.to_set());
        }
        let last = w[w.len() - 1];
        assert(s.contains(last));
        let u = choose|u: Vertex| s.contains(u) && #[trigger] has_edge(g, u, last);
        let w2 = w.push(u);
        assert(forall|m: int| 0 <= m < w2.len() - 1 ==> has_edge(g, #[trigger] w2[m + 1], w2[m]))
            by {
            assert forall|m: int| 0 <= m < w2.len() - 1 implies has_edge(
                g,
                #[trigger] w2[m + 1],
                w2[m],
            ) by {
                if m < w.len() - 1 {
                    assert(w2[m] == w[m] && w2[m + 1] == w[m + 1]);
                } else {
                    assert(w2[m] == last && w2[m + 1] == u);
                }
            }
        }
        lemma_grow_walk(g, s, w2)
    }
}

/// The dirty vertices in evaluation order: the edited vertices and every
/// vertex their values feed, directly or transitively; when the graph is
/// acyclic no vertex comes before a precedent of it that is also listed.
pub fn dirty_set(edges: &Vec<(Vertex, Vertex)>, edits: &Vec<Vertex>) -> (out: Vec<Vertex>)
    ensures
        forall|v: Vertex| #[trigger] out@.contains(v) <==> (edits@.contains(v) || exists|e: Vertex|
            edits@.contains(e) && #[trigger] reaches(edges@, e, v)),
        out@.no_duplicates(),
        spec_acyclic(edges@) ==> forall|i: int, j: int|
            0 <= i < j < out@.len() ==> !has_edge(edges@, #[trigger] out@[j], #[trigger] out@[i]),
{
    let mut closure: Vec<Vertex> = Vec::new();
    let ne = edits.len();
    let mut i: usize = 0;
    while i < ne
        invariant
            i <= ne,
            ne == edits@.len(),
            closure@.no_duplicates(),
            forall|v: Vertex| #[trigger] closure@.contains(v) ==> (edits@.contains(v) || exists|
                e: Vertex,
            | edits@.contains(e) && #[trigger] reaches(edges@, e, v)),
            forall|j: int| 0 <= j < i ==> closure@.contains(#[trigger] edits@[j]),
            forall|j: int, v: Vertex|
                0 <= j < i && #[trigger] reaches(edges@, #[trigger] edits@[j], v)
                    ==> closure@.contains(v),
        decreases ne - i,
    {
        let e = edits[i];
        if !vec_contains_vertex(&closure, &e) {
            let ghost pre = closure@;
            closure.push(e);
            proof {
                crate::container::lemma_push_contains(pre, e);
                lemma_push_no_dup(pre, e);
                assert(edits@.contains(e)) by {
                    assert(edits@[i as int] == e);
                }
            }
        }
        let rs = reach_from(edges, e);
        let nr = rs.len();
        let mut k: usize = 0;
        while k < nr
            invariant
                k <= nr,
                nr == rs@.len(),
                closure@.no_duplicates(),
                forall|b: Vertex| #[trigger] rs@.contains(b) <==> reaches(edges@, e, b),
                edits@.contains(e),
                forall|v: Vertex| #[trigger] closure@.contains(v) ==> (edits@.contains(v)
                    || exists|e2: Vertex|
                    edits@.contains(e2) && #[trigger] reaches(edges@, e2, v)),
                forall|j: int| 0 <= j < i ==> closure@.contains(#[trigger] edits@[j]),
                closure@.contains(e),
                forall|j: int, v: Vertex|
                    0 <= j < i && #[trigger] reaches(edges@, #[trigger] edits@[j], v)
                        ==> closure@.contains(v),
                forall|j: int| 0 <= j < k ==> closure@.contains(#[trigger] rs@[j]),
            decreases nr - k,
        {
            let b = rs[k];
            if !vec_contains_vertex(&closure, &b) {
                let ghost pre = closure@;
                closure.push(b);
                proof {
                    crate::container::lemma_push_contains(pre, b);
                    lemma_push_no_dup(pre, b);
                    assert(rs@.contains(b)) by {
                        assert(rs@[k as int] == b);
                    }
                    assert(reaches(edges@, e, b));
                }
            }
            proof {
                assert(closure@.contains(rs@[k as int]));
            }
            k = k + 1;
        }
        proof {
            assert forall|v: Vertex| reaches(edges@, e, v) implies closure@.contains(v) by {
                assert(rs@.contains(v));
                let j = choose|j: int| 0 <= j < rs@.len() && rs@[j] == v;
            }
            assert(closure@.contains(edits@[i as int]));
        }
        i = i + 1;
    }
    proof {
        assert forall|v: Vertex|
            (edits@.contains(v) || exists|e: Vertex|
                edits@.contains(e) && #[trigger] reaches(edges@, e, v)) implies #[trigger] closure@
            .contains(v) by {
            if edits@.contains(v) {
                let j = choose|j: int| 0 <= j < edits@.len() && edits@[j] == v;
            } else {
                let e = choose|e: Vertex|
                    edits@.contains(e) && #[trigger] reaches(edges@, e, v);
                let j = choose|j: int| 0 <= j < edits@.len() && edits@[j] == e;
                assert(reaches(edges@, edits@[j], v));
            }
        }
    }
    topo_order(edges, closure)
}

/// Concatenating disjoint duplicate-free sequences: members and freedom
/// from duplicates.
proof fn lemma_concat_members(a: Seq<Vertex>, b: Seq<Vertex>)
    requires
        a.no_duplicates(),
        b.no_duplicates(),
        forall|v: Vertex| #[trigger] b.contains(v) ==> !a.contains(v),
    ensures
        (a + b).no_duplicates(),
        forall|v: Vertex| #[trigger] (a + b).contains(v) <==> (a.contains(v) || b.contains(v)),
{
    let c = a + b;
    assert forall|v: Vertex| #[trigger] c.contains(v) implies (a.contains(v) || b.contains(
        v,
    )) by {
        let x = choose|x: int| 0 <= x < c.len() && c[x] == v;
        if x < a.len() {
            assert(a[x] == v);
        } else {
            assert(b[x - a.len()] == v);
        }
    }
    assert forall|v: Vertex| (a.contains(v) || b.contains(v)) implies #[trigger] c.contains(
        v,
    ) by {
        if a.contains(v) {
            let x = choose|x: int| 0 <= x < a.len() && a[x] == v;
            assert(c[x] == v);
        } else {
            let x = choose|x: int| 0 <= x < b.len() && b[x] == v;
            assert(c[a.len() + x] == v);
        }
    }
    assert forall|i: int, j: int| 0 <= i < j < c.len() implies c[i] != c[j] by {
        if j < a.len() {
            assert(c[i] == a[i] && c[j] == a[j]);
        } else if i >= a.len() {
            assert(c[i] == b[i - a.len()] && c[j] == b[j - a.len()]);
        } else {
            assert(c[i] == a[i] && c[j] == b[j - a.len()]);
            if c[i] == c[j] {
                assert(b.contains(c[j])) by {
                    assert(b[j - a.len()] == c[j]);
                }
                assert(a.contains(c[i])) by {
                    assert(a[i] == c[i]);
                }
            }
        }
    }
}

/// Removing one position drops exactly that member of a duplicate-free
/// sequence.
proof fn lemma_remove_props(orest: Seq<Vertex>, pick: int)
    requires
        orest.no_duplicates(),
        0 <= pick < orest.len(),
    ensures
        orest.remove(pick).no_duplicates(),
        forall|x: Vertex| #[trigger] orest.remove(pick).contains(x) <==> (orest.contains(x) && x
            != orest[pick]),
{
    let rest = orest.remove(pick);
    let v = orest[pick];
    assert forall|x: Vertex| #[trigger] rest.contains(x) implies (orest.contains(x) && x != v) by {
        let t = choose|t: int| 0 <= t < rest.len() && rest[t] == x;
        if t < pick {
            assert(orest[t] == x);
        } else {
            assert(orest[t + 1] == x);
        }
        if x == v {
            if t < pick {
                assert(orest[t] == orest[pick]);
            } else {
                assert(orest[t + 1] == orest[pick]);
            }
        }
    }
    assert forall|x: Vertex| (orest.contains(x) && x != v) implies #[trigger] rest.contains(x) by {
        let t = choose|t: int| 0 <= t < orest.len() && orest[t] == x;
        if t < pick {
            assert(rest[t] == x);
        } else {
            assert(t != pick);
            assert(rest[t - 1] == x);
        }
    }
    assert forall|a: int, b: int| 0 <= a < b < rest.len() implies rest[a] != rest[b] by {
        let a2: int = if a < pick {
            a
        } else {
            a + 1
        };
        let b2: int = if b < pick {
            b
        } else {
            b + 1
        };
        assert(rest[a] == orest[a2] && rest[b] == orest[b2]);
    }
}

/// The members a vertex pool started with.
pub open spec fn old_pool_view(s: Seq<Vertex>) -> Seq<Vertex> {
    s
}

/// Orders the vertices so that, in an acyclic graph, no vertex comes before
/// a listed precedent of it.
#[verifier::rlimit(100)]
fn topo_order(edges: &Vec<(Vertex, Vertex)>, pool: Vec<Vertex>) -> (out: Vec<Vertex>)
    requires
        pool@.no_duplicates(),
    ensures
        forall|v: Vertex| #[trigger] out@.contains(v) <==> pool@.contains(v),
        out@.no_duplicates(),
        spec_acyclic(edges@) ==> forall|i: int, j: int|
            0 <= i < j < out@.len() ==> !has_edge(edges@, #[trigger] out@[j], #[trigger] out@[i]),
{
    let mut rest = pool;
    let ghost gpool = old_pool_view(rest@);
    proof {
        assert(gpool == pool@);
    }
    let mut out: Vec<Vertex> = Vec::new();
    loop
        invariant
            rest@.no_duplicates(),
            out@.no_duplicates(),
            forall|v: Vertex| #[trigger] rest@.contains(v) ==> !out@.contains(v),
            forall|v: Vertex| #[trigger] out@.contains(v) ==> gpool.contains(v),
            forall|v: Vertex| #[trigger] rest@.contains(v) ==> gpool.contains(v),
            forall|v: Vertex| #[trigger] gpool.contains(v) ==> out@.contains(v) || rest@.contains(
                v,
            ),
            spec_acyclic(edges@) ==> forall|i: int, u: Vertex|
                0 <= i < out@.len() && #[trigger] has_edge(edges@, u, #[trigger] out@[i])
                    && gpool.contains(u) ==> exists|k: int| 0 <= k < i && out@[k] == u,
        ensures
            forall|v: Vertex| #[trigger] gpool.contains(v) ==> out@.contains(v),
            forall|v: Vertex| #[trigger] out@.contains(v) ==> gpool.contains(v),
            out@.no_duplicates(),
            spec_acyclic(edges@) ==> forall|i: int, u: Vertex|
                0 <= i < out@.len() && #[trigger] has_edge(edges@, u, #[trigger] out@[i])
                    && gpool.contains(u) ==> exists|k: int| 0 <= k < i && out@[k] == u,
        decreases rest@.len(),
    {
        if rest.len() == 0 {
            proof {
                assert(forall|v: Vertex| !rest@.contains(v));
            }
            break ;
        }
        let nrest = rest.len();
        let mut pick: usize = 0;
        let mut found = false;
        let mut scan: usize = 0;
        while scan < nrest
            invariant_except_break
                scan <= nrest,
                nrest == rest@.len(),
                !found,
                forall|t: int| 0 <= t < scan ==> has_pred_in(edges@, rest@, #[trigger] rest@[t]),
            ensures
                nrest == rest@.len(),
                found ==> pick < nrest && !has_pred_in(edges@, rest@, rest@[pick as int]),
                !found ==> forall|t: int|
                    0 <= t < nrest ==> has_pred_in(edges@, rest@, #[trigger] rest@[t]),
            decreases nrest - scan,
        {
            let cand = rest[scan];
            let mut has_pred = false;
            let mut q: usize = 0;
            let nedge = edges.len();
            while q < nedge
                invariant_except_break
                    q <= nedge,
                    nedge == edges@.len(),
                    nrest == rest@.len(),
                    scan < nrest,
                    cand == rest@[scan as int],
                    !has_pred,
                    forall|t: int|
                        0 <= t < q ==> !(rest@.contains((#[trigger] edges@[t]).0) && edges@[t].1
                            == cand),
                ensures
                    nrest == rest@.len(),
                    scan < nrest,
                    cand == rest@[scan as int],
                    has_pred ==> has_pred_in(edges@, rest@, cand),
                    !has_pred ==> !has_pred_in(edges@, rest@, cand),
                decreases nedge - q,
            {
                let src = edges[q].0;
                let dst = edges[q].1;
                if dst.0 == cand.0 && dst.1 == cand.1 {
                    if vec_contains_vertex(&rest, &src) {
                        proof {
                            assert(edges@[q as int] == (src, cand));
                            assert(has_edge(edges@, src, cand));
                        }
                        has_pred = true;
                        break ;
                    }
                }
                q = q + 1;
            }
            proof {
                if !has_pred {
                    if has_pred_in(edges@, rest@, cand) {
                        let u = choose|u: Vertex|
                            rest@.contains(u) && #[trigger] has_edge(edges@, u, cand);
                        let t = choose|t: int| 0 <= t < edges@.len() && edges@[t] == (u, cand);
                    }
                }
            }
            if !has_pred {
                pick = scan;
                found = true;
                break ;
            }
            scan = scan + 1;
        }
        if !found {
            proof {
                assert forall|v: Vertex| #[trigger] rest@.contains(v) implies exists|u: Vertex|
                    rest@.contains(u) && #[trigger] has_edge(edges@, u, v) by {
                    let t = choose|t: int| 0 <= t < rest@.len() && rest@[t] == v;
                    assert(has_pred_in(edges@, rest@, rest@[t]));
                }
                lemma_stuck_has_cycle(edges@, rest@);
                assert(!spec_acyclic(edges@));
            }
            let ghost preo0 = out@;
            let nr2 = rest.len();
            let mut t2: usize = 0;
            while t2 < nr2
                invariant
                    t2 <= nr2,
                    nr2 == rest@.len(),
                    out@ == preo0 + rest@.subrange(0, t2 as int),
                    preo0.no_duplicates(),
                    rest@.no_duplicates(),
                    forall|v: Vertex| #[trigger] rest@.contains(v) ==> !preo0.contains(v),
                    forall|v: Vertex| #[trigger] preo0.contains(v) ==> gpool.contains(v),
                    forall|v: Vertex| #[trigger] rest@.contains(v) ==> gpool.contains(v),
                    forall|v: Vertex| #[trigger] gpool.contains(v) ==> preo0.contains(v)
                        || rest@.contains(v),
                    !spec_acyclic(edges@),
                decreases nr2 - t2,
            {
                let v = rest[t2];
                out.push(v);
                proof {
                    assert(out@ =~= preo0 + rest@.subrange(0, t2 as int + 1));
                }
                t2 = t2 + 1;
            }
            proof {
                assert(rest@.subrange(0, nr2 as int) =~= rest@);
                assert(out@ == preo0 + rest@);
                lemma_concat_members(preo0, rest@);
                assert forall|v: Vertex| #[trigger] out@.contains(v) implies gpool.contains(
                    v,
                ) by {
                    assert(out@.contains(v) <==> (preo0.contains(v) || rest@.contains(v)));
                }
                assert forall|v: Vertex| #[trigger] gpool.contains(v) implies out@.contains(
                    v,
                ) by {
                    assert(out@.contains(v) <==> (preo0.contains(v) || rest@.contains(v)));
                }
            }
            rest = Vec::new();
            break ;
        }
        let ghost orest = rest@;
        let ghost preo = out@;
        let v = rest.remove(pick);
        out.push(v);
        proof {
            assert(v == orest[pick as int]);
            assert(orest.contains(v)) by {
                assert(orest[pick as int] == v);
            }
            assert(!preo.contains(v));
            crate::container::lemma_push_contains(preo, v);
            lemma_push_no_dup(preo, v);
            assert(rest@ == orest.remove(pick as int));
            lemma_remove_props(orest, pick as int);
            if spec_acyclic(edges@) {
                assert forall|i: int, u: Vertex|
                    0 <= i < out@.len() && #[trigger] has_edge(edges@, u, #[trigger] out@[i])
                        && gpool.contains(u) implies exists|k: int|
                    0 <= k < i && out@[k] == u by {
                    if i < out@.len() - 1 {
                        assert(out@[i] == preo[i]);
                        let k = choose|k: int| 0 <= k < i && preo[k] == u;
                        assert(out@[k] == u);
                    } else {
                        assert(out@[i] == v);
                        assert(!orest.contains(u)) by {
                            if orest.contains(u) {
                                assert(has_pred_in(edges@, orest, v));
                            }
                        }
                        assert(preo.contains(u));
                        let k = choose|k: int| 0 <= k < preo.len() && preo[k] == u;
                        assert(out@[k] == u);
                    }
                }
            }
        }
    }
    proof {
        if spec_acyclic(edges@) {
            assert forall|i: int, j: int| 0 <= i < j < out@.len() implies !has_edge(
                edges@,
                #[trigger] out@[j],
                #[trigger] out@[i],
            ) by {
                if has_edge(edges@, out@[j], out@[i]) {
                    assert(gpool.contains(out@[j])) by {
                        assert(out@.contains(out@[j]));
                    }
                    let k = choose|k: int| 0 <= k < i && out@[k] == out@[j];
                }
            }
        }
    }
    out
}

/// A set that holds every direct successor of `a` and is closed under
/// successors holds the end of every path out of `a`.
proof fn lemma_closed_contains_path(
    g: Seq<(Vertex, Vertex)>,
    r: Seq<Vertex>,
    a: Vertex,
    p: Seq<Vertex>,
)
    requires
        is_path(g, p),
        p.first() == a,
        forall|j: int| 0 <= j < g.len() && (#[trigger] g[j]).0 == a ==> r.contains(g[j].1),
        forall|w: Vertex, j: int|
            #![trigger r.contains(w), g[j]]
            r.contains(w) && 0 <= j < g.len() && g[j].0 == w ==> r.contains(g[j].1),
    ensures
        r.contains(p.last()),
    decreases p.len(),
{
    if p.len() == 2 {
        assert(has_edge(g, p[0], p[1]));
        let j = choose|j: int| 0 <= j < g.len() && g[j] == (p[0], p[1]);
        assert(r.contains(g[j].1));
    } else {
        let q = p.drop_last();
        assert(is_path(g, q)) by {
            assert(forall|i: int| 0 <= i < q.len() ==> #[trigger] q[i] == p[i]);
            assert forall|i: int| 0 <= i < q.len() - 1 implies has_edge(
                g,
                #[trigger] q[i],
                q[i + 1],
            ) by {
                assert(q[i] == p[i] && q[i + 1] == p[i + 1]);
            }
        }
        assert(q.first() == a);
        lemma_closed_contains_path(g, r, a, q);
        assert(has_edge(g, p[p.len() - 2], p[p.len() - 1]));
        let j = choose|j: int| 0 <= j < g.len() && g[j] == (p[p.len() - 2], p[p.len() - 1]);
        assert(q.last() == p[p.len() - 2]);
        assert(r.contains(g[j].1));
    }
}

} // verus!
