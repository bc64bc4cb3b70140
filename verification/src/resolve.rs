//! The resolution engine: a backtracking search that enumerates every
//! binding of the distinct variables of a pattern to distinct points of a
//! graph such that all adjacency constraints of the pattern hold.
//!
//! A point is a candidate for a variable only if its out-degree (counted
//! with multiplicity) is at least the variable's number of adjacency
//! obligations (an occurrence count).  Variables are resolved in ascending
//! order of candidate-set size, ties broken by first-seen order; the search
//! extends a partial binding one variable at a time, checks every adjacency
//! constraint against the already-bound variables, and backtracks.

use vstd::prelude::*;

use crate::graph::Graph;
use crate::rule::Variable;
use crate::rule::appears;
use crate::rule::chains_view;
use crate::rule::contains_var;
use crate::rule::distinct_variables_of;
use crate::rule::distinct_vars;
use crate::rule::lemma_contains_push;
use crate::rule::lemma_distinct_vars_ensures;
use crate::rule::lemma_pattern_succs_members;
use crate::rule::pattern_succs;
use crate::rule::requires_adjacency;
use crate::rule::successor_list;

verus! {

broadcast use vstd::seq_lib::group_seq_properties;

/// The mapping that a list of (variable, point) entries stands for; a later
/// entry for the same variable wins.
pub open spec fn map_of(entries: Seq<(Variable, usize)>) -> Map<Variable, usize>
    decreases entries.len(),
{
    if entries.len() == 0 {
        Map::empty()
    } else {
        map_of(entries.drop_last()).insert(entries.last().0, entries.last().1)
    }
}

/// One complete resolution of a pattern: a mapping from each distinct
/// variable of the pattern to the point it is bound to.
pub struct Binding {
    entries: Vec<(Variable, usize)>,
}

impl View for Binding {
    type V = Map<Variable, usize>;

    closed spec fn view(&self) -> Map<Variable, usize> {
        map_of(self.entries@)
    }
}

/// A variable is in the domain of `map_of(entries)` iff some entry names it.
pub proof fn lemma_map_of_dom(entries: Seq<(Variable, usize)>, v: Variable)
    ensures
        map_of(entries).dom().contains(v) <==> exists|k: int|
            0 <= k < entries.len() && entries[k].0 == v,
    decreases entries.len(),
{
    if entries.len() == 0 {
    } else {
        lemma_map_of_dom(entries.drop_last(), v);
        if exists|k: int| 0 <= k < entries.len() && entries[k].0 == v {
            let k = choose|k: int| 0 <= k < entries.len() && entries[k].0 == v;
            if k < entries.len() - 1 {
                assert(entries.drop_last()[k].0 == v);
            }
            assert(map_of(entries).dom().contains(v));
        }
        if map_of(entries).dom().contains(v) && v != entries.last().0 {
            let k = choose|k: int|
                0 <= k < entries.drop_last().len() && entries.drop_last()[k].0 == v;
            assert(entries[k].0 == v);
        }
    }
}

/// With pairwise-distinct keys, `map_of` maps each entry's key to its value.
pub proof fn lemma_map_of_index(entries: Seq<(Variable, usize)>, k: int)
    requires
        0 <= k < entries.len(),
        forall|k1: int, k2: int|
            0 <= k1 < k2 < entries.len() ==> entries[k1].0 != entries[k2].0,
    ensures
        map_of(entries).dom().contains(entries[k].0),
        map_of(entries)[entries[k].0] == entries[k].1,
    decreases entries.len(),
{
    if k == entries.len() - 1 {
    } else {
        lemma_map_of_index(entries.drop_last(), k);
        assert(entries.drop_last()[k] == entries[k]);
        assert(entries.last().0 != entries[k].0);
    }
}

impl Binding {
    /// The point bound to `v`, if the binding covers `v`.
    pub fn get(&self, v: Variable) -> (r: Option<usize>)
        ensures
            r == if self@.dom().contains(v) {
                Some(self@[v])
            } else {
                None::<usize>
            },
    {
        let n = self.entries.len();
        proof {
            assert(self.entries@.take(n as int) =~= self.entries@);
        }
        let mut i: usize = n;
        while i > 0
            invariant
                0 <= i <= n,
                n == self.entries@.len(),
                map_of(self.entries@).dom().contains(v) == map_of(
                    self.entries@.take(i as int),
                ).dom().contains(v),
                map_of(self.entries@.take(i as int)).dom().contains(v) ==> map_of(
                    self.entries@.take(i as int),
                )[v] == map_of(self.entries@)[v],
            decreases i,
        {
            i -= 1;
            let ghost t1 = self.entries@.take(i as int + 1);
            proof {
                assert(t1.drop_last() =~= self.entries@.take(i as int));
                assert(t1.last() == self.entries@[i as int]);
            }
            if self.entries[i].0 == v {
                proof {
                    assert(map_of(t1).dom().contains(v));
                    assert(map_of(t1)[v] == self.entries@[i as int].1);
                }
                return Some(self.entries[i].1);
            }
        }
        proof {
            assert(self.entries@.take(0) =~= Seq::<(Variable, usize)>::empty());
        }
        None
    }
}

/// Copies a list of binding entries.
fn clone_entries(src: &Vec<(Variable, usize)>) -> (r: Vec<(Variable, usize)>)
    ensures
        r@ == src@,
{
    let n = src.len();
    let mut r: Vec<(Variable, usize)> = Vec::new();
    let mut i: usize = 0;
    while i < n
        invariant
            0 <= i <= n,
            n == src@.len(),
            r@ == src@.take(i as int),
        decreases n - i,
    {
        r.push(src[i]);
        proof {
            assert(src@.take(i as int + 1) =~= src@.take(i as int).push(src@[i as int]));
        }
        i += 1;
    }
    proof {
        assert(src@.take(n as int) =~= src@);
    }
    r
}

/// The rows of a vector of vectors of points, as sequences.
pub open spec fn grid_view(p: Seq<Vec<usize>>) -> Seq<Seq<usize>> {
    p.map_values(|c: Vec<usize>| c@)
}

// ----------------------------------------------------------------------
// What a resolution is, stated against the pattern itself.
// ----------------------------------------------------------------------

/// `m` is a match of the pattern `chains` against the graph `g`: it binds
/// exactly the variables of the pattern, to registered points, distinct
/// variables to distinct points, and for every adjacency demand of the
/// pattern the bound points are adjacent.
pub open spec fn is_match(
    g: Seq<Seq<usize>>,
    chains: Seq<Seq<Variable>>,
    m: Map<Variable, usize>,
) -> bool {
    &&& forall|v: Variable|
        #![trigger m.dom().contains(v)]
        #![trigger appears(chains, v)]
        (m.dom().contains(v) <==> appears(chains, v))
    &&& forall|v: Variable| #[trigger] m.dom().contains(v) ==> m[v] < g.len()
    &&& forall|v1: Variable, v2: Variable|
        m.dom().contains(v1) && m.dom().contains(v2) && v1 != v2 ==> m[v1] != m[v2]
    &&& forall|v: Variable, w: Variable|
        #[trigger] requires_adjacency(chains, v, w) ==> g[m[v] as int].contains(m[w])
}

/// Every bound point has out-degree (with multiplicity) at least the bound
/// variable's number of adjacency obligations (an occurrence count): the
/// engine's candidate pre-filter.
pub open spec fn passes_degree_filter(
    g: Seq<Seq<usize>>,
    chains: Seq<Seq<Variable>>,
    m: Map<Variable, usize>,
) -> bool {
    forall|v: Variable|
        #[trigger] m.dom().contains(v) ==> g[m[v] as int].len() >= pattern_succs(chains, v).len()
}

/// Exactly the bindings the engine emits: matches that pass the degree
/// pre-filter.
pub open spec fn is_valid_resolution(
    g: Seq<Seq<usize>>,
    chains: Seq<Seq<Variable>>,
    m: Map<Variable, usize>,
) -> bool {
    is_match(g, chains, m) && passes_degree_filter(g, chains, m)
}

// ----------------------------------------------------------------------
// The search's view of the pattern: a duplicate-free variable list in
// search order, the obligation list of each variable, and each variable's
// candidate points.
// ----------------------------------------------------------------------

/// The variable list is duplicate-free and every obligation names a listed
/// variable.
pub open spec fn vars_reqs_wf(vs: Seq<Variable>, rq: Seq<Seq<Variable>>) -> bool {
    &&& rq.len() == vs.len()
    &&& vs.no_duplicates()
    &&& forall|k: int, j: int|
        0 <= k < rq.len() && 0 <= j < rq[k].len() ==> vs.contains(#[trigger] rq[k][j])
}

/// Each candidate list holds, without duplicates, exactly the registered
/// points whose out-degree reaches the variable's obligation count.
pub open spec fn cands_wf(g: Seq<Seq<usize>>, rq: Seq<Seq<Variable>>, cd: Seq<Seq<usize>>) -> bool {
    &&& cd.len() == rq.len()
    &&& forall|k: int| 0 <= k < cd.len() ==> (#[trigger] cd[k]).no_duplicates()
    &&& forall|k: int, t: int|
        0 <= k < cd.len() && 0 <= t < cd[k].len() ==> (#[trigger] cd[k][t]) < g.len()
            && g[cd[k][t] as int].len() >= rq[k].len()
    &&& forall|k: int, x: usize|
        0 <= k < cd.len() && x < g.len() && g[x as int].len() >= rq[k].len()
            ==> #[trigger] cd[k].contains(x)
}

/// `m` is a total assignment for the variable list `vs` with obligations
/// `rq`: it binds exactly the members of `vs`, to registered points of
/// sufficient out-degree, injectively, and adjacently to every obligation.
pub open spec fn assignment_ok(
    g: Seq<Seq<usize>>,
    vs: Seq<Variable>,
    rq: Seq<Seq<Variable>>,
    m: Map<Variable, usize>,
) -> bool {
    &&& forall|v: Variable|
        #![trigger m.dom().contains(v)]
        #![trigger vs.contains(v)]
        (m.dom().contains(v) <==> vs.contains(v))
    &&& forall|k: int| 0 <= k < vs.len() ==> m[#[trigger] vs[k]] < g.len()
    &&& forall|k: int|
        0 <= k < vs.len() ==> g[m[#[trigger] vs[k]] as int].len() >= rq[k].len()
    &&& forall|k1: int, k2: int|
        0 <= k1 < vs.len() && 0 <= k2 < vs.len() && k1 != k2 ==> m[vs[k1]] != m[vs[k2]]
    &&& forall|k: int, j: int|
        0 <= k < vs.len() && 0 <= j < rq[k].len() ==> g[m[vs[k]] as int].contains(
            m[#[trigger] rq[k][j]],
        )
}

/// The entries of a partial binding are consistent: aligned with the prefix
/// of `vs`, registered, of sufficient out-degree, pairwise distinct, and
/// adjacent wherever an obligation relates two already-bound variables.
pub open spec fn prefix_ok(
    g: Seq<Seq<usize>>,
    vs: Seq<Variable>,
    rq: Seq<Seq<Variable>>,
    p: Seq<(Variable, usize)>,
) -> bool {
    &&& p.len() <= vs.len()
    &&& forall|k: int| 0 <= k < p.len() ==> (#[trigger] p[k]).0 == vs[k]
    &&& forall|k: int|
        0 <= k < p.len() ==> (#[trigger] p[k]).1 < g.len() && g[p[k].1 as int].len()
            >= rq[k].len()
    &&& forall|k1: int, k2: int|
        0 <= k1 < p.len() && 0 <= k2 < p.len() && k1 != k2 ==> p[k1].1 != p[k2].1
    &&& forall|k1: int, k2: int|
        #![trigger rq[k1].contains(vs[k2])]
        (0 <= k1 < p.len() && 0 <= k2 < p.len() && rq[k1].contains(vs[k2]) ==> g[p[
            k1].1 as int].contains(p[k2].1))
}

/// `m` agrees with every entry of the partial binding `p`.
pub open spec fn extends(m: Map<Variable, usize>, p: Seq<(Variable, usize)>) -> bool {
    forall|k: int|
        0 <= k < p.len() ==> m.dom().contains((#[trigger] p[k]).0) && m[p[k].0] == p[k].1
}

/// The incremental consistency checks for binding the next variable
/// `vs[p.len()]` to the point `n`, against a consistent prefix `p`.
pub open spec fn ext_ok(
    g: Seq<Seq<usize>>,
    vs: Seq<Variable>,
    rq: Seq<Seq<Variable>>,
    p: Seq<(Variable, usize)>,
    n: usize,
) -> bool {
    let d = p.len() as int;
    &&& forall|k: int| 0 <= k < d ==> (#[trigger] p[k]).1 != n
    &&& forall|k: int|
        0 <= k < d && rq[d].contains(#[trigger] vs[k]) ==> g[n as int].contains(p[k].1)
    &&& forall|k: int|
        0 <= k < d && rq[k].contains(vs[d]) ==> g[(#[trigger] p[k]).1 as int].contains(n)
    &&& (rq[d].contains(vs[d]) ==> g[n as int].contains(n))
}

/// Extending a consistent prefix is consistent exactly when the incremental
/// checks pass.
proof fn lemma_prefix_push(
    g: Seq<Seq<usize>>,
    vs: Seq<Variable>,
    rq: Seq<Seq<Variable>>,
    p: Seq<(Variable, usize)>,
    n: usize,
)
    requires
        vars_reqs_wf(vs, rq),
        prefix_ok(g, vs, rq, p),
        p.len() < vs.len(),
        n < g.len(),
        g[n as int].len() >= rq[p.len() as int].len(),
    ensures
        prefix_ok(g, vs, rq, p.push((vs[p.len() as int], n))) <==> ext_ok(g, vs, rq, p, n),
{
    let d = p.len() as int;
    let p2 = p.push((vs[d], n));
    assert(forall|k: int| 0 <= k < d ==> p2[k] == p[k]);
    assert(p2[d] == (vs[d], n));
    if ext_ok(g, vs, rq, p, n) {
        assert forall|k1: int, k2: int|
            0 <= k1 < p2.len() && 0 <= k2 < p2.len() && k1 != k2 implies p2[k1].1 != p2[k2].1 by {
            if k1 == d {
                assert(p[k2].1 != n);
            } else if k2 == d {
                assert(p[k1].1 != n);
            }
        }
        assert forall|k1: int, k2: int|
            0 <= k1 < p2.len() && 0 <= k2 < p2.len() && rq[k1].contains(vs[k2])
            implies g[p2[k1].1 as int].contains(p2[k2].1) by {
            if k1 == d && k2 == d {
            } else if k1 == d {
                assert(g[n as int].contains(p[k2].1));
            } else if k2 == d {
                assert(g[p[k1].1 as int].contains(n));
            }
        }
        assert(prefix_ok(g, vs, rq, p2));
    }
    if prefix_ok(g, vs, rq, p2) {
        assert forall|k: int| 0 <= k < d implies p[k].1 != n by {
            assert(p2[k].1 == p[k].1);
            assert(p2[d].1 == n);
        }
        assert forall|k: int| 0 <= k < d && rq[d].contains(vs[k]) implies g[n as int].contains(
            p[k].1,
        ) by {
            assert(g[p2[d].1 as int].contains(p2[k].1));
        }
        assert forall|k: int| 0 <= k < d && rq[k].contains(vs[d])
            implies g[p[k].1 as int].contains(n) by {
            assert(g[p2[k].1 as int].contains(p2[d].1));
        }
        assert(ext_ok(g, vs, rq, p, n));
    }
}

/// A total consistent assignment agreeing with a prefix passes the
/// incremental checks for its own next value.
proof fn lemma_assignment_ext_ok(
    g: Seq<Seq<usize>>,
    vs: Seq<Variable>,
    rq: Seq<Seq<Variable>>,
    p: Seq<(Variable, usize)>,
    m: Map<Variable, usize>,
)
    requires
        vars_reqs_wf(vs, rq),
        assignment_ok(g, vs, rq, m),
        p.len() < vs.len(),
        forall|k: int| 0 <= k < p.len() ==> (#[trigger] p[k]).0 == vs[k],
        extends(m, p),
    ensures
        ext_ok(g, vs, rq, p, m[vs[p.len() as int]]),
{
    let d = p.len() as int;
    let n = m[vs[d]];
    assert(forall|k: int| 0 <= k < d ==> p[k].1 == m[vs[k]]);
    assert forall|k: int| 0 <= k < d implies p[k].1 != n by {
        assert(m[vs[k]] != m[vs[d]]);
    }
    assert forall|k: int| 0 <= k < d && rq[d].contains(vs[k]) implies g[n as int].contains(
        p[k].1,
    ) by {
        let j = choose|j: int| 0 <= j < rq[d].len() && rq[d][j] == vs[k];
        assert(g[m[vs[d]] as int].contains(m[rq[d][j]]));
    }
    assert forall|k: int| 0 <= k < d && rq[k].contains(vs[d]) implies g[p[k].1 as int].contains(
        n,
    ) by {
        let j = choose|j: int| 0 <= j < rq[k].len() && rq[k][j] == vs[d];
        assert(g[m[vs[k]] as int].contains(m[rq[k][j]]));
    }
    if rq[d].contains(vs[d]) {
        let j = choose|j: int| 0 <= j < rq[d].len() && rq[d][j] == vs[d];
        assert(g[m[vs[d]] as int].contains(m[rq[d][j]]));
    }
}

/// A full consistent prefix denotes a consistent total assignment.
proof fn lemma_full_prefix(
    g: Seq<Seq<usize>>,
    vs: Seq<Variable>,
    rq: Seq<Seq<Variable>>,
    p: Seq<(Variable, usize)>,
)
    requires
        vars_reqs_wf(vs, rq),
        prefix_ok(g, vs, rq, p),
        p.len() == vs.len(),
    ensures
        assignment_ok(g, vs, rq, map_of(p)),
        extends(map_of(p), p),
{
    let m = map_of(p);
    assert forall|k1: int, k2: int| 0 <= k1 < k2 < p.len() implies p[k1].0 != p[k2].0 by {
        assert(vs[k1] != vs[k2]);
    }
    assert forall|k: int| 0 <= k < p.len()
        implies m.dom().contains(p[k].0) && m[p[k].0] == p[k].1 by {
        lemma_map_of_index(p, k);
    }
    assert forall|v: Variable| m.dom().contains(v) <==> vs.contains(v) by {
        lemma_map_of_dom(p, v);
        if vs.contains(v) {
            let k = choose|k: int| 0 <= k < vs.len() && vs[k] == v;
            assert(p[k].0 == v);
        }
        if exists|k: int| 0 <= k < p.len() && p[k].0 == v {
            let k = choose|k: int| 0 <= k < p.len() && p[k].0 == v;
            assert(vs[k] == v);
        }
    }
    assert forall|k: int| 0 <= k < vs.len() implies m[vs[k]] < g.len() && g[m[
        vs[k]] as int].len() >= rq[k].len() by {
        assert(p[k].0 == vs[k]);
        assert(m[p[k].0] == p[k].1);
    }
    assert forall|k1: int, k2: int|
        0 <= k1 < vs.len() && 0 <= k2 < vs.len() && k1 != k2 implies m[vs[k1]] != m[vs[k2]] by {
        assert(p[k1].0 == vs[k1]);
        assert(p[k2].0 == vs[k2]);
        assert(m[vs[k1]] == p[k1].1);
        assert(m[vs[k2]] == p[k2].1);
    }
    assert forall|k: int, j: int| 0 <= k < vs.len() && 0 <= j < rq[k].len()
        implies g[m[vs[k]] as int].contains(m[rq[k][j]]) by {
        let w = rq[k][j];
        assert(vs.contains(w));
        let k2 = choose|k2: int| 0 <= k2 < vs.len() && vs[k2] == w;
        assert(rq[k].contains(vs[k2]));
        assert(g[p[k].1 as int].contains(p[k2].1));
        assert(m[vs[k]] == p[k].1);
        assert(m[w] == p[k2].1);
    }
}

/// A consistent total assignment agreeing with a full prefix is the
/// prefix's own assignment.
proof fn lemma_extension_unique(
    g: Seq<Seq<usize>>,
    vs: Seq<Variable>,
    rq: Seq<Seq<Variable>>,
    p: Seq<(Variable, usize)>,
    m: Map<Variable, usize>,
)
    requires
        vars_reqs_wf(vs, rq),
        prefix_ok(g, vs, rq, p),
        p.len() == vs.len(),
        assignment_ok(g, vs, rq, m),
        extends(m, p),
    ensures
        m == map_of(p),
{
    lemma_full_prefix(g, vs, rq, p);
    let mp = map_of(p);
    assert forall|v: Variable| m.dom().contains(v) <==> mp.dom().contains(v) by {}
    assert forall|v: Variable| #[trigger] m.dom().contains(v) implies m[v] == mp[v] by {
        let k = choose|k: int| 0 <= k < vs.len() && vs[k] == v;
        assert(p[k].0 == v);
        assert(m[v] == p[k].1);
        assert(mp[p[k].0] == p[k].1);
    }
    assert(m =~= mp);
}

/// The registered points whose out-degree (with multiplicity) is at least
/// `need`, each once.
#[verifier::loop_isolation(false)]
fn collect_candidates(g: &Graph, need: usize) -> (r: Vec<usize>)
    ensures
        r@.no_duplicates(),
        forall|x: usize|
            #[trigger] r@.contains(x) ==> x < g@.len() && g@[x as int].len() >= need,
        forall|x: usize|
            x < g@.len() && g@[x as int].len() >= need ==> #[trigger] r@.contains(x),
{
    let num = g.num_points();
    let mut r: Vec<usize> = Vec::new();
    let mut p: usize = 0;
    while p < num
        invariant
            0 <= p <= num,
            forall|i: int, j: int| 0 <= i < j < r@.len() ==> r@[i] < r@[j],
            forall|i: int| 0 <= i < r@.len() ==> r@[i] < p,
            forall|x: usize|
                #[trigger] r@.contains(x) ==> x < g@.len() && g@[x as int].len() >= need,
            forall|x: usize|
                x < p && g@[x as int].len() >= need ==> #[trigger] r@.contains(x),
        decreases num - p,
    {
        let ghost r0 = r@;
        let d = g.out_degree(p);
        if d >= need {
            r.push(p);
        }
        proof {
            if d >= need {
                assert forall|x: usize|
                    x < p + 1 && g@[x as int].len() >= need implies #[trigger] r@.contains(x) by {
                    lemma_contains_push_usize(r0, p, x);
                }
                assert forall|x: usize|
                    #[trigger] r@.contains(x) implies x < g@.len() && g@[x as int].len()
                    >= need by {
                    lemma_contains_push_usize(r0, p, x);
                }
            } else {
                assert forall|x: usize|
                    x < p + 1 && g@[x as int].len() >= need implies #[trigger] r@.contains(x) by {
                    assert(x != p);
                }
            }
        }
        p += 1;
    }
    proof {
        assert forall|i: int, j: int|
            0 <= i < r@.len() && 0 <= j < r@.len() && i != j implies r@[i] != r@[j] by {}
    }
    r
}

/// Membership after a push, for point lists.
proof fn lemma_contains_push_usize(s: Seq<usize>, x: usize, v: usize)
    ensures
        s.push(x).contains(v) <==> (s.contains(v) || v == x),
{
    lemma_contains_push(s, x, v);
}

/// Runs the incremental consistency checks for binding `vs[partial.len()]`
/// to the point `n` against the current partial binding: distinctness, and
/// adjacency in both directions for every obligation relating the new
/// variable to a bound one (or to itself).
#[verifier::loop_isolation(false)]
fn check_candidate(
    g: &Graph,
    vars: &Vec<Variable>,
    reqs: &Vec<Vec<Variable>>,
    partial: &Vec<(Variable, usize)>,
    n: usize,
) -> (r: bool)
    requires
        reqs@.len() == vars@.len(),
        partial@.len() < vars@.len(),
        n < g@.len(),
        forall|k: int| 0 <= k < partial@.len() ==> (#[trigger] partial@[k]).1 < g@.len(),
    ensures
        r == ext_ok(g@, vars@, chains_view(reqs@), partial@, n),
{
    let ghost rq = chains_view(reqs@);
    let d = partial.len();
    proof {
        assert(rq[d as int] == reqs@[d as int]@);
    }
    if contains_var(&reqs[d], vars[d]) {
        if !g.is_adjacent(n, n) {
            return false;
        }
    }
    let mut k: usize = 0;
    while k < d
        invariant
            0 <= k <= d,
            rq[d as int].contains(vars@[d as int]) ==> g@[n as int].contains(n),
            forall|k2: int| 0 <= k2 < k ==> (#[trigger] partial@[k2]).1 != n,
            forall|k2: int|
                0 <= k2 < k && rq[d as int].contains(#[trigger] vars@[k2]) ==> g@[
                    n as int].contains(partial@[k2].1),
            forall|k2: int|
                0 <= k2 < k && rq[k2].contains(vars@[d as int]) ==> g@[(#[trigger] partial@[
                    k2]).1 as int].contains(n),
        decreases d - k,
    {
        let nw = partial[k].1;
        if nw == n {
            return false;
        }
        proof {
            assert(rq[k as int] == reqs@[k as int]@);
        }
        if contains_var(&reqs[d], vars[k]) {
            if !g.is_adjacent(n, nw) {
                return false;
            }
        }
        if contains_var(&reqs[k], vars[d]) {
            if !g.is_adjacent(nw, n) {
                return false;
            }
        }
        k += 1;
    }
    true
}

/// The backtracking search.  Appends to `results` exactly the consistent
/// total assignments that agree with the entry partial binding, one entry
/// each, and restores the partial binding.
#[verifier::loop_isolation(false)]
fn search(
    g: &Graph,
    vars: &Vec<Variable>,
    reqs: &Vec<Vec<Variable>>,
    cands: &Vec<Vec<usize>>,
    partial: &mut Vec<(Variable, usize)>,
    results: &mut Vec<Binding>,
)
    requires
        vars_reqs_wf(vars@, chains_view(reqs@)),
        cands_wf(g@, chains_view(reqs@), grid_view(cands@)),
        old(partial)@.len() <= vars@.len(),
        prefix_ok(g@, vars@, chains_view(reqs@), old(partial)@),
    ensures
        final(partial)@ == old(partial)@,
        final(results)@.len() >= old(results)@.len(),
        forall|i: int| 0 <= i < old(results)@.len() ==> final(results)@[i] == old(results)@[i],
        forall|i: int|
            old(results)@.len() <= i < final(results)@.len() ==> assignment_ok(
                g@,
                vars@,
                chains_view(reqs@),
                #[trigger] final(results)@[i]@,
            ) && extends(final(results)@[i]@, old(partial)@),
        forall|m: Map<Variable, usize>|
            #![trigger assignment_ok(g@, vars@, chains_view(reqs@), m)]
            (assignment_ok(g@, vars@, chains_view(reqs@), m) && extends(m, old(partial)@)
                ==> exists|i: int|
                old(results)@.len() <= i < final(results)@.len() && final(results)@[i]@ == m),
        forall|i: int, j: int|
            old(results)@.len() <= i < j < final(results)@.len() ==> final(results)@[i]@
                != final(results)@[j]@,
    decreases vars@.len() - old(partial)@.len(),
{
    let ghost rq = chains_view(reqs@);
    let ghost cd = grid_view(cands@);
    let ghost p0 = old(partial)@;
    let ghost r0 = old(results)@;
    let d = partial.len();
    if d == vars.len() {
        let entries = clone_entries(partial);
        proof {
            lemma_full_prefix(g@, vars@, rq, p0);
        }
        let b = Binding { entries };
        proof {
            assert(b@ == map_of(p0));
        }
        results.push(b);
        proof {
            assert(results@[r0.len() as int]@ == map_of(p0));
            assert forall|m: Map<Variable, usize>|
                assignment_ok(g@, vars@, rq, m) && extends(m, p0) implies exists|i: int|
                r0.len() <= i < results@.len() && results@[i]@ == m by {
                lemma_extension_unique(g@, vars@, rq, p0, m);
                assert(results@[r0.len() as int]@ == m);
            }
        }
        return;
    }
    let num = cands[d].len();
    let ghost cdd = cd[d as int];
    proof {
        assert(cdd.take(0) =~= Seq::<usize>::empty());
    }
    let mut t: usize = 0;
    while t < num
        invariant
            0 <= t <= num,
            partial@ == p0,
            results@.len() >= r0.len(),
            forall|i: int| 0 <= i < r0.len() ==> results@[i] == r0[i],
            forall|i: int|
                r0.len() <= i < results@.len() ==> assignment_ok(
                    g@,
                    vars@,
                    rq,
                    #[trigger] results@[i]@,
                ) && extends(results@[i]@, p0) && results@[i]@.dom().contains(vars@[d as int])
                    && cdd.take(t as int).contains(results@[i]@[vars@[d as int]]),
            forall|m: Map<Variable, usize>|
                #![trigger assignment_ok(g@, vars@, rq, m)]
                (assignment_ok(g@, vars@, rq, m) && extends(m, p0) && cdd.take(t as int).contains(
                    m[vars@[d as int]],
                ) ==> exists|i: int| r0.len() <= i < results@.len() && results@[i]@ == m),
            forall|i: int, j: int|
                r0.len() <= i < j < results@.len() ==> results@[i]@ != results@[j]@,
        decreases num - t,
    {
        let n = cands[d][t];
        proof {
            assert(cdd[t as int] == n);
            assert(n < g@.len() && g@[n as int].len() >= rq[d as int].len());
        }
        let ok = check_candidate(g, vars, reqs, partial, n);
        let ghost r1 = results@;
        let ghost e = (vars@[d as int], n);
        let ghost p1 = p0.push(e);
        if ok {
            proof {
                lemma_prefix_push(g@, vars@, rq, p0, n);
            }
            let v = vars[d];
            partial.push((v, n));
            search(g, vars, reqs, cands, partial, results);
            let _ = partial.pop();
            proof {
                assert(partial@ =~= p0);
            }
        }
        proof {
            assert(cdd.take(t as int + 1) =~= cdd.take(t as int).push(n));
            // Soundness and value bookkeeping for everything new so far.
            assert forall|i: int| r0.len() <= i < results@.len() implies assignment_ok(
                g@,
                vars@,
                rq,
                #[trigger] results@[i]@,
            ) && extends(results@[i]@, p0) && results@[i]@.dom().contains(vars@[d as int])
                && cdd.take(t as int + 1).contains(results@[i]@[vars@[d as int]]) by {
                if i < r1.len() {
                    assert(results@[i] == r1[i]);
                    lemma_contains_push_usize(
                        cdd.take(t as int),
                        n,
                        r1[i]@[vars@[d as int]],
                    );
                } else {
                    // added by the recursive call under the extended prefix
                    assert(extends(results@[i]@, p1));
                    assert(p1[p0.len() as int] == e);
                    assert(results@[i]@.dom().contains(vars@[d as int]) && results@[i]@[vars@[
                        d as int]] == n);
                    assert(extends(results@[i]@, p0)) by {
                        assert forall|k: int|
                            0 <= k < p0.len() implies results@[i]@.dom().contains(
                            (#[trigger] p0[k]).0,
                        ) && results@[i]@[p0[k].0] == p0[k].1 by {
                            assert(p1[k] == p0[k]);
                        }
                    }
                    lemma_contains_push_usize(cdd.take(t as int), n, n);
                }
            }
            // Completeness up to candidate t+1.
            assert forall|m: Map<Variable, usize>|
                assignment_ok(g@, vars@, rq, m) && extends(m, p0) && cdd.take(
                    t as int + 1,
                ).contains(m[vars@[d as int]]) implies exists|i: int|
                r0.len() <= i < results@.len() && results@[i]@ == m by {
                lemma_contains_push_usize(cdd.take(t as int), n, m[vars@[d as int]]);
                if cdd.take(t as int).contains(m[vars@[d as int]]) {
                    let i = choose|i: int| r0.len() <= i < r1.len() && r1[i]@ == m;
                    assert(results@[i] == r1[i]);
                    assert(results@[i]@ == m);
                } else {
                    assert(m[vars@[d as int]] == n);
                    assert(vars@.contains(vars@[d as int]));
                    assert(m.dom().contains(vars@[d as int]));
                    if ok {
                        assert(extends(m, p1)) by {
                            assert forall|k: int| 0 <= k < p1.len() implies m.dom().contains(
                                (#[trigger] p1[k]).0,
                            ) && m[p1[k].0] == p1[k].1 by {
                                if k < p0.len() {
                                    assert(p1[k] == p0[k]);
                                } else {
                                    assert(p1[k] == e);
                                }
                            }
                        }
                    } else {
                        lemma_assignment_ext_ok(g@, vars@, rq, p0, m);
                        assert(false);
                    }
                }
            }
            // No two new results denote the same assignment.
            assert forall|i: int, j: int|
                r0.len() <= i < j < results@.len() implies results@[i]@ != results@[j]@ by {
                if i < r1.len() && j >= r1.len() {
                    assert(results@[i] == r1[i]);
                    assert(cdd.take(t as int).contains(results@[i]@[vars@[d as int]]));
                    assert(results@[j]@[vars@[d as int]] == n);
                    if cdd.take(t as int).contains(n) {
                        let s = choose|s: int|
                            0 <= s < t && cdd.take(t as int)[s] == n;
                        assert(cdd[s] == cdd[t as int]);
                        assert(cdd.no_duplicates());
                        assert(false);
                    }
                    assert(results@[i]@[vars@[d as int]] != results@[j]@[vars@[d as int]]);
                }
            }
        }
        t += 1;
    }
    proof {
        assert(cdd.take(num as int) =~= cdd);
        assert forall|m: Map<Variable, usize>|
            assignment_ok(g@, vars@, rq, m) && extends(m, p0) implies exists|i: int|
            r0.len() <= i < results@.len() && results@[i]@ == m by {
            assert(vars@.contains(vars@[d as int]));
            assert(m[vars@[d as int]] < g@.len());
            assert(g@[m[vars@[d as int]] as int].len() >= rq[d as int].len());
            assert(cd[d as int].contains(m[vars@[d as int]]));
        }
    }
}

/// The order the variables are resolved in: ascending candidate count,
/// ties broken by first-seen index.
pub open spec fn key_le(a: (usize, usize, Variable), b: (usize, usize, Variable)) -> bool {
    a.0 < b.0 || (a.0 == b.0 && a.1 <= b.1)
}

/// `v` is the variable of some item.
pub open spec fn var_present(s: Seq<(usize, usize, Variable)>, v: Variable) -> bool {
    exists|t: int| 0 <= t < s.len() && (#[trigger] s[t]).2 == v
}

/// No two items carry the same variable.
pub open spec fn item_vars_distinct(s: Seq<(usize, usize, Variable)>) -> bool {
    forall|t1: int, t2: int|
        0 <= t1 < s.len() && 0 <= t2 < s.len() && t1 != t2 ==> s[t1].2 != s[t2].2
}

/// Sorts the items ascending by (candidate count, first-seen index) by
/// selecting the least remaining key: the most constrained variable comes
/// first.
#[verifier::loop_isolation(false)]
fn sort_by_key(items: &mut Vec<(usize, usize, Variable)>)
    ensures
        final(items)@.len() == old(items)@.len(),
        forall|t1: int, t2: int|
            0 <= t1 < t2 < final(items)@.len() ==> key_le(
                #[trigger] final(items)@[t1],
                #[trigger] final(items)@[t2],
            ),
        forall|v: Variable| var_present(final(items)@, v) <==> var_present(old(items)@, v),
        item_vars_distinct(old(items)@) ==> item_vars_distinct(final(items)@),
{
    let len = items.len();
    let mut i: usize = 0;
    while i < len
        invariant
            0 <= i <= len,
            items@.len() == len,
            forall|t1: int, t2: int|
                0 <= t1 < t2 < i ==> key_le(#[trigger] items@[t1], #[trigger] items@[t2]),
            forall|t1: int, t2: int|
                0 <= t1 < i && i <= t2 < len ==> key_le(
                    #[trigger] items@[t1],
                    #[trigger] items@[t2],
                ),
            forall|v: Variable| var_present(items@, v) <==> var_present(old(items)@, v),
            item_vars_distinct(old(items)@) ==> item_vars_distinct(items@),
        decreases len - i,
    {
        let mut mi: usize = i;
        let mut j: usize = i + 1;
        while j < len
            invariant
                i <= mi < len,
                i + 1 <= j <= len,
                mi < j,
                forall|t: int| i <= t < j ==> key_le(items@[mi as int], #[trigger] items@[t]),
            decreases len - j,
        {
            let a = items[j];
            let b = items[mi];
            if a.0 < b.0 || (a.0 == b.0 && a.1 < b.1) {
                mi = j;
            }
            j += 1;
        }
        let ghost s0 = items@;
        if mi != i {
            let vi = items[i];
            let vm = items[mi];
            items.set(i, vm);
            items.set(mi, vi);
        }
        proof {
            assert(items@ =~= s0.update(i as int, s0[mi as int]).update(mi as int, s0[i as int]));
            assert(forall|t: int| 0 <= t < len && t != i && t != mi ==> items@[t] == s0[t]);
            assert(items@[i as int] == s0[mi as int]);
            assert(items@[mi as int] == s0[i as int]);
            assert forall|t1: int, t2: int| 0 <= t1 < t2 < i + 1 implies key_le(
                #[trigger] items@[t1],
                #[trigger] items@[t2],
            ) by {
                if t2 == i {
                    assert(items@[t1] == s0[t1]);
                    assert(key_le(s0[t1], s0[mi as int]));
                }
            }
            assert forall|t1: int, t2: int| 0 <= t1 < i + 1 && i + 1 <= t2 < len implies key_le(
                #[trigger] items@[t1],
                #[trigger] items@[t2],
            ) by {
                if t1 < i {
                    if t2 == mi {
                        assert(key_le(s0[t1], s0[i as int]));
                    } else {
                        assert(key_le(s0[t1], s0[t2]));
                    }
                } else {
                    assert(items@[t1] == s0[mi as int]);
                    if t2 == mi {
                        assert(key_le(s0[mi as int], s0[i as int]));
                    } else {
                        assert(key_le(s0[mi as int], s0[t2]));
                    }
                }
            }
            assert forall|v: Variable| var_present(items@, v) <==> var_present(s0, v) by {
                if var_present(items@, v) {
                    let t = choose|t: int| 0 <= t < items@.len() && items@[t].2 == v;
                    if t == i {
                        assert(s0[mi as int].2 == v);
                    } else if t == mi {
                        assert(s0[i as int].2 == v);
                    } else {
                        assert(s0[t].2 == v);
                    }
                }
                if var_present(s0, v) {
                    let t = choose|t: int| 0 <= t < s0.len() && s0[t].2 == v;
                    if t == i {
                        assert(items@[mi as int].2 == v);
                    } else if t == mi {
                        assert(items@[i as int].2 == v);
                    } else {
                        assert(items@[t].2 == v);
                    }
                }
            }
            if item_vars_distinct(s0) {
                assert forall|t1: int, t2: int|
                    0 <= t1 < items@.len() && 0 <= t2 < items@.len() && t1 != t2 implies items@[
                    t1].2 != items@[t2].2 by {
                    let s1: int = if t1 == i { mi as int } else if t1 == mi { i as int } else { t1 };
                    let s2: int = if t2 == i { mi as int } else if t2 == mi { i as int } else { t2 };
                    assert(items@[t1] == s0[s1]);
                    assert(items@[t2] == s0[s2]);
                    assert(s1 != s2);
                }
            }
        }
        i += 1;
    }
}

/// Ties the search's order-applied variable list, obligation lists and
/// candidate lists back to the pattern itself: a total assignment is
/// consistent for the search exactly when it is a valid resolution of the
/// pattern.
proof fn lemma_bridge(
    g: Seq<Seq<usize>>,
    cs: Seq<Seq<Variable>>,
    vs: Seq<Variable>,
    rq: Seq<Seq<Variable>>,
    m: Map<Variable, usize>,
)
    requires
        vs.no_duplicates(),
        rq.len() == vs.len(),
        forall|k: int| 0 <= k < vs.len() ==> rq[k] == pattern_succs(cs, #[trigger] vs[k]),
        forall|v: Variable| vs.contains(v) <==> appears(cs, v),
    ensures
        assignment_ok(g, vs, rq, m) <==> is_valid_resolution(g, cs, m),
{
    if assignment_ok(g, vs, rq, m) {
        assert forall|v: Variable| #[trigger] m.dom().contains(v) implies m[v] < g.len() && g[
            m[v] as int].len() >= pattern_succs(cs, v).len() by {
            assert(vs.contains(v));
            let k = choose|k: int| 0 <= k < vs.len() && vs[k] == v;
            assert(m[vs[k]] < g.len());
            assert(g[m[vs[k]] as int].len() >= rq[k].len());
        }
        assert forall|v1: Variable, v2: Variable|
            m.dom().contains(v1) && m.dom().contains(v2) && v1 != v2 implies m[v1] != m[v2] by {
            let k1 = choose|k: int| 0 <= k < vs.len() && vs[k] == v1;
            let k2 = choose|k: int| 0 <= k < vs.len() && vs[k] == v2;
            assert(m[vs[k1]] != m[vs[k2]]);
        }
        assert forall|v: Variable, w: Variable|
            #[trigger] requires_adjacency(cs, v, w) implies g[m[v] as int].contains(m[w]) by {
            lemma_pattern_succs_members(cs, v, w);
            assert(vs.contains(v));
            let k = choose|k: int| 0 <= k < vs.len() && vs[k] == v;
            assert(rq[k] == pattern_succs(cs, v));
            let j = choose|j: int| 0 <= j < rq[k].len() && rq[k][j] == w;
            assert(g[m[vs[k]] as int].contains(m[rq[k][j]]));
        }
        assert(is_valid_resolution(g, cs, m));
    }
    if is_valid_resolution(g, cs, m) {
        assert forall|k: int| 0 <= k < vs.len() implies m[#[trigger] vs[k]] < g.len() && g[m[
            vs[k]] as int].len() >= rq[k].len() by {
            assert(vs.contains(vs[k]));
            assert(m.dom().contains(vs[k]));
            assert(rq[k] == pattern_succs(cs, vs[k]));
        }
        assert forall|k1: int, k2: int|
            0 <= k1 < vs.len() && 0 <= k2 < vs.len() && k1 != k2 implies m[vs[k1]] != m[
            vs[k2]] by {
            assert(vs.contains(vs[k1]));
            assert(vs.contains(vs[k2]));
            assert(vs[k1] != vs[k2]);
        }
        assert forall|k: int, j: int| 0 <= k < vs.len() && 0 <= j < rq[k].len() implies g[m[
            vs[k]] as int].contains(m[#[trigger] rq[k][j]]) by {
            assert(rq[k] == pattern_succs(cs, vs[k]));
            assert(pattern_succs(cs, vs[k]).contains(rq[k][j]));
            assert(requires_adjacency(cs, vs[k], rq[k][j]));
        }
        assert(assignment_ok(g, vs, rq, m));
    }
}

impl Graph {
    /// Every way of binding the distinct variables of `find_pattern` to
    /// distinct points of this graph such that, for each chain of the
    /// pattern, every variable's point has a relation to the next
    /// variable's point.  The result holds each such binding exactly once
    /// (among those whose points pass the engine's out-degree pre-filter,
    /// which every binding of a duplicate-free requirements list passes);
    /// an empty result is the normal outcome when nothing matches.
    pub fn get_possible_variable_resolutions(&self, find_pattern: &Vec<Vec<Variable>>) -> (results:
        Vec<Binding>)
        ensures
            forall|i: int|
                0 <= i < results@.len() ==> is_valid_resolution(
                    self@,
                    chains_view(find_pattern@),
                    #[trigger] results@[i]@,
                ),
            forall|m: Map<Variable, usize>|
                #[trigger] is_valid_resolution(self@, chains_view(find_pattern@), m)
                    ==> exists|i: int| 0 <= i < results@.len() && results@[i]@ == m,
            forall|i: int, j: int|
                0 <= i < j < results@.len() ==> results@[i]@ != results@[j]@,
            is_complete_resolution_set(
                self@,
                chains_view(find_pattern@),
                binding_views(results@),
            ),
    {
        let ghost cs = chains_view(find_pattern@);
        let vars0 = distinct_variables_of(find_pattern);
        proof {
            lemma_distinct_vars_ensures(cs);
        }
        let nv = vars0.len();
        let mut items: Vec<(usize, usize, Variable)> = Vec::new();
        let mut i: usize = 0;
        while i < nv
            invariant
                0 <= i <= nv,
                nv == vars0@.len(),
                cs == chains_view(find_pattern@),
                vars0@ == distinct_vars(cs),
                items@.len() == i,
                forall|t: int|
                    0 <= t < i ==> (#[trigger] items@[t]).2 == vars0@[t] && items@[t].1 == t,
            decreases nv - i,
        {
            let v = vars0[i];
            let succs = successor_list(find_pattern, v);
            let cand = collect_candidates(self, succs.len());
            items.push((cand.len(), i, v));
            i += 1;
        }
        proof {
            assert(item_vars_distinct(items@)) by {
                assert forall|t1: int, t2: int|
                    0 <= t1 < items@.len() && 0 <= t2 < items@.len() && t1 != t2 implies items@[
                    t1].2 != items@[t2].2 by {
                    assert(vars0@.no_duplicates());
                }
            }
            assert forall|v: Variable| var_present(items@, v) <==> appears(cs, v) by {
                if var_present(items@, v) {
                    let t = choose|t: int| 0 <= t < items@.len() && items@[t].2 == v;
                    assert(vars0@[t] == v);
                    assert(vars0@.contains(v));
                }
                if appears(cs, v) {
                    assert(vars0@.contains(v));
                    let t = choose|t: int| 0 <= t < vars0@.len() && vars0@[t] == v;
                    assert(items@[t].2 == v);
                }
            }
        }
        let ghost items0 = items@;
        sort_by_key(&mut items);
        let nn = items.len();
        let mut vars: Vec<Variable> = Vec::new();
        let mut reqs: Vec<Vec<Variable>> = Vec::new();
        let mut cands: Vec<Vec<usize>> = Vec::new();
        let mut t: usize = 0;
        while t < nn
            invariant
                0 <= t <= nn,
                nn == items@.len(),
                cs == chains_view(find_pattern@),
                vars@.len() == t,
                reqs@.len() == t,
                cands@.len() == t,
                forall|k: int| 0 <= k < t ==> (#[trigger] vars@[k]) == items@[k].2,
                forall|k: int|
                    0 <= k < t ==> (#[trigger] chains_view(reqs@)[k]) == pattern_succs(
                        cs,
                        vars@[k],
                    ),
                forall|k: int| 0 <= k < t ==> (#[trigger] grid_view(cands@)[k]).no_duplicates(),
                forall|k: int, s: int|
                    0 <= k < t && 0 <= s < grid_view(cands@)[k].len() ==> (#[trigger] grid_view(
                        cands@,
                    )[k][s]) < self@.len() && self@[grid_view(cands@)[k][s] as int].len()
                        >= chains_view(reqs@)[k].len(),
                forall|k: int, x: usize|
                    0 <= k < t && x < self@.len() && self@[x as int].len() >= chains_view(
                        reqs@,
                    )[k].len() ==> #[trigger] grid_view(cands@)[k].contains(x),
            decreases nn - t,
        {
            let v = items[t].2;
            let rv = successor_list(find_pattern, v);
            let need = rv.len();
            let cv = collect_candidates(self, need);
            let ghost vars_0 = vars@;
            let ghost reqs_0 = reqs@;
            let ghost cands_0 = cands@;
            let ghost rvv = rv@;
            let ghost cvv = cv@;
            vars.push(v);
            reqs.push(rv);
            cands.push(cv);
            proof {
                assert forall|k: int| 0 <= k < t + 1 implies (#[trigger] chains_view(reqs@)[k])
                    == pattern_succs(cs, vars@[k]) by {
                    if k < t {
                        assert(reqs@[k] == reqs_0[k]);
                        assert(chains_view(reqs_0)[k] == reqs_0[k]@);
                        assert(vars@[k] == vars_0[k]);
                    } else {
                        assert(chains_view(reqs@)[k] == rvv);
                        assert(vars@[k] == v);
                    }
                }
                assert forall|k: int| 0 <= k < t + 1 implies (#[trigger] grid_view(
                    cands@,
                )[k]).no_duplicates() by {
                    if k < t {
                        assert(cands@[k] == cands_0[k]);
                        assert(grid_view(cands_0)[k] == cands_0[k]@);
                    } else {
                        assert(grid_view(cands@)[k] == cvv);
                    }
                }
                assert forall|k: int, s: int|
                    0 <= k < t + 1 && 0 <= s < grid_view(cands@)[k].len() implies (
                #[trigger] grid_view(cands@)[k][s]) < self@.len() && self@[grid_view(cands@)[
                    k][s] as int].len() >= chains_view(reqs@)[k].len() by {
                    if k < t {
                        assert(grid_view(cands@)[k] == grid_view(cands_0)[k]);
                        assert(chains_view(reqs@)[k] == chains_view(reqs_0)[k]);
                    } else {
                        assert(grid_view(cands@)[k] == cvv);
                        assert(cvv.contains(cvv[s]));
                        assert(chains_view(reqs@)[k] == rvv);
                    }
                }
                assert forall|k: int, x: usize|
                    0 <= k < t + 1 && x < self@.len() && self@[x as int].len() >= chains_view(
                        reqs@,
                    )[k].len() implies #[trigger] grid_view(cands@)[k].contains(x) by {
                    if k < t {
                        assert(grid_view(cands@)[k] == grid_view(cands_0)[k]);
                        assert(chains_view(reqs@)[k] == chains_view(reqs_0)[k]);
                    } else {
                        assert(chains_view(reqs@)[k] == rvv);
                        assert(cvv.contains(x));
                        assert(grid_view(cands@)[k] == cvv);
                    }
                }
            }
            t += 1;
        }
        proof {
            assert(vars_reqs_wf(vars@, chains_view(reqs@))) by {
                assert(vars@.no_duplicates()) by {
                    assert forall|k1: int, k2: int|
                        0 <= k1 < vars@.len() && 0 <= k2 < vars@.len() && k1 != k2 implies vars@[
                        k1] != vars@[k2] by {
                        assert(item_vars_distinct(items@));
                    }
                }
                assert forall|k: int, j: int|
                    0 <= k < chains_view(reqs@).len() && 0 <= j < chains_view(reqs@)[k].len()
                    implies vars@.contains(#[trigger] chains_view(reqs@)[k][j]) by {
                    let w = chains_view(reqs@)[k][j];
                    assert(pattern_succs(cs, vars@[k]).contains(w));
                    lemma_pattern_succs_members(cs, vars@[k], w);
                    assert(var_present(items0, w));
                    assert(var_present(items@, w));
                    let s = choose|s: int| 0 <= s < items@.len() && items@[s].2 == w;
                    assert(vars@[s] == w);
                    assert(vars@.contains(w));
                }
            }
            assert(cands_wf(self@, chains_view(reqs@), grid_view(cands@)));
            assert forall|v: Variable| vars@.contains(v) <==> appears(cs, v) by {
                if vars@.contains(v) {
                    let k = choose|k: int| 0 <= k < vars@.len() && vars@[k] == v;
                    assert(items@[k].2 == v);
                    assert(var_present(items@, v));
                    assert(var_present(items0, v));
                }
                if appears(cs, v) {
                    assert(var_present(items0, v));
                    assert(var_present(items@, v));
                    let s = choose|s: int| 0 <= s < items@.len() && items@[s].2 == v;
                    assert(vars@[s] == v);
                }
            }
        }
        let mut partial: Vec<(Variable, usize)> = Vec::new();
        let mut results: Vec<Binding> = Vec::new();
        proof {
            assert(prefix_ok(self@, vars@, chains_view(reqs@), partial@));
        }
        search(self, &vars, &reqs, &cands, &mut partial, &mut results);
        proof {
            assert forall|i: int| 0 <= i < results@.len() implies is_valid_resolution(
                self@,
                cs,
                #[trigger] results@[i]@,
            ) by {
                lemma_bridge(self@, cs, vars@, chains_view(reqs@), results@[i]@);
            }
            assert forall|m: Map<Variable, usize>|
                #[trigger] is_valid_resolution(self@, cs, m) implies exists|i: int|
                0 <= i < results@.len() && results@[i]@ == m by {
                lemma_bridge(self@, cs, vars@, chains_view(reqs@), m);
                assert(extends(m, Seq::<(Variable, usize)>::empty()));
            }
            assert(is_complete_resolution_set(self@, cs, binding_views(results@))) by {
                let ms = binding_views(results@);
                assert forall|i: int| 0 <= i < ms.len() implies is_valid_resolution(
                    self@,
                    cs,
                    #[trigger] ms[i],
                ) by {
                    assert(ms[i] == results@[i]@);
                }
                assert forall|m: Map<Variable, usize>|
                    #[trigger] is_valid_resolution(self@, cs, m) implies ms.contains(m) by {
                    let i = choose|i: int| 0 <= i < results@.len() && results@[i]@ == m;
                    assert(ms[i] == m);
                }
                assert forall|i: int, j: int| 0 <= i < j < ms.len() implies ms[i] != ms[j] by {
                    assert(ms[i] == results@[i]@);
                    assert(ms[j] == results@[j]@);
                }
            }
        }
        results
    }
}

// ----------------------------------------------------------------------
// The laws of the engine.
// ----------------------------------------------------------------------

/// The mappings that a list of bindings denotes.
pub open spec fn binding_views(rs: Seq<Binding>) -> Seq<Map<Variable, usize>> {
    rs.map_values(|b: Binding| b@)
}

/// A complete, duplicate-free resolution set of a graph and a pattern:
/// exactly the valid resolutions, one entry each.  The engine's result
/// denotes such a set.
pub open spec fn is_complete_resolution_set(
    g: Seq<Seq<usize>>,
    chains: Seq<Seq<Variable>>,
    ms: Seq<Map<Variable, usize>>,
) -> bool {
    &&& forall|i: int| 0 <= i < ms.len() ==> is_valid_resolution(g, chains, #[trigger] ms[i])
    &&& forall|m: Map<Variable, usize>|
        #[trigger] is_valid_resolution(g, chains, m) ==> ms.contains(m)
    &&& forall|i: int, j: int| 0 <= i < j < ms.len() ==> ms[i] != ms[j]
}

/// Determinism: for a fixed graph and pattern, any two complete resolution
/// sets hold the same bindings; so repeated runs of the engine agree as
/// sets, whatever order they emit.
pub proof fn lemma_resolution_deterministic(
    g: Seq<Seq<usize>>,
    chains: Seq<Seq<Variable>>,
    ms1: Seq<Map<Variable, usize>>,
    ms2: Seq<Map<Variable, usize>>,
)
    requires
        is_complete_resolution_set(g, chains, ms1),
        is_complete_resolution_set(g, chains, ms2),
    ensures
        forall|m: Map<Variable, usize>| ms1.contains(m) <==> ms2.contains(m),
        ms1.len() == ms2.len(),
{
    assert forall|m: Map<Variable, usize>| ms1.contains(m) <==> ms2.contains(m) by {
        if ms1.contains(m) {
            let i = choose|i: int| 0 <= i < ms1.len() && ms1[i] == m;
            assert(is_valid_resolution(g, chains, m));
        }
        if ms2.contains(m) {
            let i = choose|i: int| 0 <= i < ms2.len() && ms2[i] == m;
            assert(is_valid_resolution(g, chains, m));
        }
    }
    lemma_distinct_covered_len(ms1, ms2);
    lemma_distinct_covered_len(ms2, ms1);
}

/// A duplicate-free sequence whose members all occur in another sequence is
/// no longer than it.
proof fn lemma_distinct_covered_len(
    ms1: Seq<Map<Variable, usize>>,
    ms2: Seq<Map<Variable, usize>>,
)
    requires
        forall|i: int, j: int| 0 <= i < j < ms1.len() ==> ms1[i] != ms1[j],
        forall|m: Map<Variable, usize>| ms1.contains(m) ==> ms2.contains(m),
    ensures
        ms1.len() <= ms2.len(),
{
    broadcast use vstd::seq_lib::seq_to_set_is_finite;

    assert(ms1.no_duplicates()) by {
        assert forall|i: int, j: int|
            0 <= i < ms1.len() && 0 <= j < ms1.len() && i != j implies ms1[i] != ms1[j] by {}
    }
    ms1.unique_seq_to_set();
    ms2.lemma_cardinality_of_set();
    assert(ms1.to_set().subset_of(ms2.to_set())) by {
        assert forall|m: Map<Variable, usize>|
            ms1.to_set().contains(m) implies ms2.to_set().contains(m) by {}
    }
    vstd::set_lib::lemma_len_subset(ms1.to_set(), ms2.to_set());
}

/// Soundness: an emitted binding covers every chain's variables, and for
/// every consecutive pair of positions in every chain, the point bound to
/// the earlier variable has a relation to the point bound to the later
/// one.
pub proof fn lemma_resolution_sound(
    g: Seq<Seq<usize>>,
    chains: Seq<Seq<Variable>>,
    m: Map<Variable, usize>,
    i: int,
    j: int,
)
    requires
        is_valid_resolution(g, chains, m),
        0 <= i < chains.len(),
        0 <= j,
        j + 1 < chains[i].len(),
    ensures
        m.dom().contains(chains[i][j]),
        m.dom().contains(chains[i][j + 1]),
        g[m[chains[i][j]] as int].contains(m[chains[i][j + 1]]),
{
    crate::rule::lemma_pattern_position_adjacency(chains, i, j);
    lemma_pattern_succs_members(chains, chains[i][j], chains[i][j + 1]);
}

/// Distinctness: no emitted binding maps two different variables to the
/// same point.
pub proof fn lemma_resolution_distinct(
    g: Seq<Seq<usize>>,
    chains: Seq<Seq<Variable>>,
    m: Map<Variable, usize>,
    v1: Variable,
    v2: Variable,
)
    requires
        is_valid_resolution(g, chains, m),
        m.dom().contains(v1),
        m.dom().contains(v2),
        v1 != v2,
    ensures
        m[v1] != m[v2],
{
}

/// A duplicate-free sequence whose members all occur in another sequence is
/// no longer than it.
proof fn lemma_nodup_members_len(s: Seq<usize>, others: Seq<usize>)
    requires
        s.no_duplicates(),
        forall|x: usize| s.contains(x) ==> others.contains(x),
    ensures
        s.len() <= others.len(),
{
    broadcast use vstd::seq_lib::seq_to_set_is_finite;

    s.unique_seq_to_set();
    others.lemma_cardinality_of_set();
    assert(s.to_set().subset_of(others.to_set())) by {
        assert forall|x: usize| s.to_set().contains(x) implies others.to_set().contains(x) by {}
    }
    vstd::set_lib::lemma_len_subset(s.to_set(), others.to_set());
}

/// When no variable's requirements list repeats an entry, every match
/// passes the engine's out-degree pre-filter: a match binds the required
/// successors to pairwise-distinct successors of the variable's point, so
/// the point's out-degree reaches the obligation count.
pub proof fn lemma_match_passes_filter(
    g: Seq<Seq<usize>>,
    chains: Seq<Seq<Variable>>,
    m: Map<Variable, usize>,
)
    requires
        is_match(g, chains, m),
        forall|v: Variable| (#[trigger] pattern_succs(chains, v)).no_duplicates(),
    ensures
        is_valid_resolution(g, chains, m),
{
    assert forall|v: Variable| #[trigger] m.dom().contains(v) implies g[m[v] as int].len()
        >= pattern_succs(chains, v).len() by {
        let reqs = pattern_succs(chains, v);
        let vals = Seq::new(reqs.len(), |j: int| m[reqs[j]]);
        assert forall|j: int| 0 <= j < reqs.len() implies m.dom().contains(#[trigger] reqs[j])
            && g[m[v] as int].contains(m[reqs[j]]) by {
            assert(reqs.contains(reqs[j]));
            assert(requires_adjacency(chains, v, reqs[j]));
            lemma_pattern_succs_members(chains, v, reqs[j]);
        }
        assert(vals.no_duplicates()) by {
            assert forall|j1: int, j2: int|
                0 <= j1 < vals.len() && 0 <= j2 < vals.len() && j1 != j2 implies vals[j1]
                != vals[j2] by {
                assert(reqs[j1] != reqs[j2]);
                assert(m[reqs[j1]] != m[reqs[j2]]);
            }
        }
        assert forall|x: usize| vals.contains(x) implies g[m[v] as int].contains(x) by {
            let j = choose|j: int| 0 <= j < vals.len() && vals[j] == x;
            assert(vals[j] == m[reqs[j]]);
        }
        lemma_nodup_members_len(vals, g[m[v] as int]);
    }
}

/// Completeness: with duplicate-free requirements lists, every injective
/// assignment of registered points that satisfies every chain-adjacency
/// constraint appears in a complete resolution set exactly once.
pub proof fn lemma_resolution_complete(
    g: Seq<Seq<usize>>,
    chains: Seq<Seq<Variable>>,
    ms: Seq<Map<Variable, usize>>,
    m: Map<Variable, usize>,
)
    requires
        is_complete_resolution_set(g, chains, ms),
        is_match(g, chains, m),
        forall|v: Variable| (#[trigger] pattern_succs(chains, v)).no_duplicates(),
    ensures
        ms.contains(m),
        forall|i: int, j: int|
            0 <= i < ms.len() && 0 <= j < ms.len() && ms[i] == m && ms[j] == m ==> i == j,
{
    lemma_match_passes_filter(g, chains, m);
    assert forall|i: int, j: int|
        0 <= i < ms.len() && 0 <= j < ms.len() && ms[i] == m && ms[j] == m implies i == j by {
        if i < j {
            assert(ms[i] != ms[j]);
        } else if j < i {
            assert(ms[j] != ms[i]);
        }
    }
}

/// An assignment that binds exactly the pattern's variables, injectively,
/// to registered points.
pub open spec fn is_injective_assignment(
    g: Seq<Seq<usize>>,
    chains: Seq<Seq<Variable>>,
    m: Map<Variable, usize>,
) -> bool {
    &&& forall|v: Variable|
        #![trigger m.dom().contains(v)]
        #![trigger appears(chains, v)]
        (m.dom().contains(v) <==> appears(chains, v))
    &&& forall|v: Variable| #[trigger] m.dom().contains(v) ==> m[v] < g.len()
    &&& forall|v1: Variable, v2: Variable|
        m.dom().contains(v1) && m.dom().contains(v2) && v1 != v2 ==> m[v1] != m[v2]
}

/// A chain of length at most one imposes no obligation.
proof fn lemma_short_chains_no_succs(chains: Seq<Seq<Variable>>, v: Variable)
    requires
        forall|i: int| 0 <= i < chains.len() ==> (#[trigger] chains[i]).len() <= 1,
    ensures
        pattern_succs(chains, v) == Seq::<Variable>::empty(),
    decreases chains.len(),
{
    if chains.len() == 0 {
    } else {
        assert(chains[0].len() <= 1);
        assert(crate::rule::chain_succs(chains.first(), v) == Seq::<Variable>::empty());
        assert forall|i: int| 0 <= i < chains.drop_first().len() implies (
        #[trigger] chains.drop_first()[i]).len() <= 1 by {
            assert(chains.drop_first()[i] == chains[i + 1]);
        }
        lemma_short_chains_no_succs(chains.drop_first(), v);
        assert(pattern_succs(chains, v) =~= Seq::<Variable>::empty());
    }
}

/// Empty pattern: a pattern with no chains, or with only singleton chains,
/// imposes no adjacency constraint, so its valid resolutions are exactly
/// the injective assignments of registered points to its variables — in
/// particular, with no variables at all, exactly the empty binding.
pub proof fn lemma_empty_pattern(
    g: Seq<Seq<usize>>,
    chains: Seq<Seq<Variable>>,
    m: Map<Variable, usize>,
)
    requires
        forall|i: int| 0 <= i < chains.len() ==> (#[trigger] chains[i]).len() <= 1,
    ensures
        is_valid_resolution(g, chains, m) <==> is_injective_assignment(g, chains, m),
{
    assert forall|v: Variable| #[trigger] pattern_succs(chains, v)
        == Seq::<Variable>::empty() by {
        lemma_short_chains_no_succs(chains, v);
    }
    if is_injective_assignment(g, chains, m) {
        assert forall|v: Variable, w: Variable|
            #[trigger] requires_adjacency(chains, v, w) implies g[m[v] as int].contains(
            m[w],
        ) by {
            assert(pattern_succs(chains, v).contains(w));
            assert(false);
        }
        assert(is_match(g, chains, m));
        assert(passes_degree_filter(g, chains, m));
    }
}

/// A pattern with no variables at all has exactly one valid resolution:
/// the empty binding.
pub proof fn lemma_no_variables_single_empty(
    g: Seq<Seq<usize>>,
    chains: Seq<Seq<Variable>>,
    m: Map<Variable, usize>,
)
    requires
        forall|v: Variable| !appears(chains, v),
    ensures
        is_valid_resolution(g, chains, m) <==> m == Map::<Variable, usize>::empty(),
{
    if m == Map::<Variable, usize>::empty() {
        assert forall|v: Variable, w: Variable|
            #[trigger] requires_adjacency(chains, v, w) implies g[m[v] as int].contains(
            m[w],
        ) by {
            lemma_pattern_succs_members(chains, v, w);
            assert(false);
        }
        assert(is_match(g, chains, m)) by {
            assert(forall|v: Variable| !(#[trigger] m.dom().contains(v)));
        }
        assert(passes_degree_filter(g, chains, m));
    }
    if is_valid_resolution(g, chains, m) {
        assert forall|v: Variable| !(#[trigger] m.dom().contains(v)) by {}
        assert(m =~= Map::<Variable, usize>::empty());
    }
}

} // verus!
