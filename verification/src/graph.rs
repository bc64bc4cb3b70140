//! The graph store: points identified by consecutive integer ids, and a
//! directed adjacency list per point.  Parallel relations (multi-edges)
//! between the same ordered pair of points are permitted.

use vstd::prelude::*;

verus! {

broadcast use vstd::seq_lib::group_seq_properties;

/// The error returned when a relation names a point that is not registered.
#[derive(Clone, Copy, Debug, PartialEq, Eq, Structural)]
pub enum GraphError {
    MissingNode,
}

/// The node registry: issues point ids and holds no other state.  Ids are
/// handed out consecutively, so no two calls of `allocate` ever return the
/// same id, and ids are never reused.
pub struct NodeRegistry {
    next_id: usize,
}

impl NodeRegistry {
    /// The id the next allocation returns.
    pub closed spec fn spec_next_id(self) -> usize {
        self.next_id
    }

    pub fn new() -> (r: NodeRegistry)
        ensures
            r.spec_next_id() == 0,
    {
        NodeRegistry { next_id: 0 }
    }

    /// Issues a fresh id, distinct from the id of every previous call.
    pub fn allocate(&mut self) -> (id: usize)
        requires
            old(self).spec_next_id() < usize::MAX,
        ensures
            id == old(self).spec_next_id(),
            final(self).spec_next_id() == id + 1,
    {
        let id = self.next_id;
        self.next_id += 1;
        id
    }
}

/// A directed multigraph.  Point `i` exists iff `i < self@.len()`, and
/// `self@[i]` is the ordered list of successors of point `i`, duplicates
/// allowed.  The registry owns the id counter; its next id always equals
/// the number of registered points.
pub struct Graph {
    registry: NodeRegistry,
    adj: Vec<Vec<usize>>,
}

/// Every relation's target is a registered point.
pub open spec fn edges_registered(g: Seq<Seq<usize>>) -> bool {
    forall|i: int, j: int|
        0 <= i < g.len() && 0 <= j < g[i].len() ==> g[i][j] < g.len()
}

impl View for Graph {
    type V = Seq<Seq<usize>>;

    closed spec fn view(&self) -> Seq<Seq<usize>> {
        self.adj@.map_values(|row: Vec<usize>| row@)
    }
}

/// The first occurrence of `x` removed from `s`; `s` unchanged if absent.
pub open spec fn remove_first(s: Seq<usize>, x: usize) -> Seq<usize> {
    match s.index_of_first(x) {
        Some(i) => s.remove(i),
        None => s,
    }
}

impl Graph {
    /// Both endpoints of every relation exist in the graph, and the
    /// registry's next id is the number of registered points.
    pub closed spec fn wf(self) -> bool {
        edges_registered(self@) && self.registry.spec_next_id() == self@.len()
    }

    pub fn new() -> (g: Graph)
        ensures
            g@ == Seq::<Seq<usize>>::empty(),
            g.wf(),
    {
        let g = Graph { registry: NodeRegistry::new(), adj: Vec::new() };
        proof {
            assert(g@ =~= Seq::<Seq<usize>>::empty());
        }
        g
    }

    /// The number of registered points.
    pub fn num_points(&self) -> (n: usize)
        ensures
            n == self@.len(),
    {
        self.adj.len()
    }

    /// Registers a fresh point with no outgoing relations and returns its
    /// id, allocated by the registry: the id differs from the id of every
    /// previously registered point.
    pub fn create_point(&mut self) -> (id: usize)
        requires
            old(self).wf(),
            old(self)@.len() < usize::MAX,
        ensures
            final(self).wf(),
            id == old(self)@.len(),
            final(self)@ == old(self)@.push(Seq::<usize>::empty()),
    {
        let id = self.registry.allocate();
        self.adj.push(Vec::new());
        proof {
            assert(self@ =~= old(self)@.push(Seq::<usize>::empty()));
        }
        id
    }

    /// Appends `point2` to the successor list of `point1`, provided both are
    /// registered; duplicates are allowed (multi-edge policy).  If either
    /// endpoint is missing, returns `MissingNode` and leaves the graph
    /// unchanged.
    pub fn create_relation(&mut self, point1: usize, point2: usize) -> (r: Result<(), GraphError>)
        requires
            old(self).wf(),
        ensures
            final(self).wf(),
            r is Ok <==> point1 < old(self)@.len() && point2 < old(self)@.len(),
            r is Ok ==> final(self)@ == old(self)@.update(
                point1 as int,
                old(self)@[point1 as int].push(point2),
            ),
            r is Err ==> r == Result::<(), GraphError>::Err(GraphError::MissingNode)
                && final(self)@ == old(self)@,
    {
        if point1 < self.adj.len() && point2 < self.adj.len() {
            let row = &mut self.adj[point1];
            row.push(point2);
            proof {
                assert(self@ =~= old(self)@.update(
                    point1 as int,
                    old(self)@[point1 as int].push(point2),
                ));
            }
            Ok(())
        } else {
            Err(GraphError::MissingNode)
        }
    }

    /// Removes one occurrence (the first) of `point2` from the successor list
    /// of `point1`; a no-op if the relation does not exist or `point1` is not
    /// registered.
    pub fn remove_relation(&mut self, point1: usize, point2: usize)
        requires
            old(self).wf(),
        ensures
            final(self).wf(),
            point1 < old(self)@.len() ==> final(self)@ == old(self)@.update(
                point1 as int,
                remove_first(old(self)@[point1 as int], point2),
            ),
            point1 >= old(self)@.len() ==> final(self)@ == old(self)@,
    {
        if point1 < self.adj.len() {
            let ghost row = self@[point1 as int];
            let n = self.adj[point1].len();
            let mut j: usize = 0;
            while j < n
                invariant
                    self == old(self),
                    old(self).wf(),
                    point1 < self@.len(),
                    n == self@[point1 as int].len(),
                    row == self@[point1 as int],
                    0 <= j <= n,
                    forall|k: int| 0 <= k < j ==> row[k] != point2,
                decreases n - j,
            {
                if self.adj[point1][j] == point2 {
                    let row_ref = &mut self.adj[point1];
                    row_ref.remove(j);
                    proof {
                        assert(row[j as int] == point2);
                        assert(row.contains(point2));
                        row.index_of_first_ensures(point2);
                        assert(row.index_of_first(point2) == Some(j as int));
                        assert(self@ =~= old(self)@.update(
                            point1 as int,
                            remove_first(row, point2),
                        ));
                        lemma_remove_preserves_registered(old(self)@, point1 as int, j as int);
                    }
                    return;
                }
                j += 1;
            }
            proof {
                assert(!row.contains(point2));
                row.index_of_first_ensures(point2);
                assert(self@ =~= old(self)@.update(point1 as int, remove_first(row, point2)));
            }
        }
    }

    /// All registered point ids.  Callers must not rely on the order.
    pub fn get_points(&self) -> (points: Vec<usize>)
        ensures
            points@.len() == self@.len(),
            forall|i: int| 0 <= i < points@.len() ==> points@[i] == i,
    {
        let n = self.adj.len();
        let mut points: Vec<usize> = Vec::new();
        let mut i: usize = 0;
        while i < n
            invariant
                0 <= i <= n,
                points@.len() == i,
                forall|k: int| 0 <= k < i ==> points@[k] == k,
            decreases n - i,
        {
            points.push(i);
            i += 1;
        }
        points
    }

    /// The outgoing successor list of `point`, empty if `point` has no
    /// outgoing relations or is not registered.
    pub fn get_relations_of_point(&self, point: usize) -> (relations: Vec<usize>)
        ensures
            point < self@.len() ==> relations@ == self@[point as int],
            point >= self@.len() ==> relations@ == Seq::<usize>::empty(),
    {
        let mut relations: Vec<usize> = Vec::new();
        if point < self.adj.len() {
            let n = self.adj[point].len();
            let mut j: usize = 0;
            while j < n
                invariant
                    point < self@.len(),
                    n == self@[point as int].len(),
                    0 <= j <= n,
                    relations@ == self@[point as int].take(j as int),
                decreases n - j,
            {
                relations.push(self.adj[point][j]);
                proof {
                    assert(self@[point as int].take(j + 1) =~= self@[point as int].take(
                        j as int,
                    ).push(self@[point as int][j as int]));
                }
                j += 1;
            }
            proof {
                assert(self@[point as int].take(n as int) =~= self@[point as int]);
            }
        }
        relations
    }

    /// The number of outgoing relations of `point`, counted with
    /// multiplicity; 0 if `point` is not registered.
    pub fn out_degree(&self, point: usize) -> (d: usize)
        ensures
            point < self@.len() ==> d == self@[point as int].len(),
            point >= self@.len() ==> d == 0,
    {
        if point < self.adj.len() {
            self.adj[point].len()
        } else {
            0
        }
    }

    /// True iff `point2` appears at least once in the successor list of
    /// `point1`.
    pub fn is_adjacent(&self, point1: usize, point2: usize) -> (r: bool)
        ensures
            r == (point1 < self@.len() && self@[point1 as int].contains(point2)),
    {
        if point1 >= self.adj.len() {
            return false;
        }
        let n = self.adj[point1].len();
        let mut j: usize = 0;
        while j < n
            invariant
                point1 < self@.len(),
                n == self@[point1 as int].len(),
                0 <= j <= n,
                forall|k: int| 0 <= k < j ==> self@[point1 as int][k] != point2,
            decreases n - j,
        {
            if self.adj[point1][j] == point2 {
                return true;
            }
            j += 1;
        }
        false
    }
}

/// Removing an element from one successor list keeps every relation target
/// registered.
proof fn lemma_remove_preserves_registered(g: Seq<Seq<usize>>, i: int, j: int)
    requires
        edges_registered(g),
        0 <= i < g.len(),
        0 <= j < g[i].len(),
    ensures
        edges_registered(g.update(i, g[i].remove(j))),
{
    let g2 = g.update(i, g[i].remove(j));
    assert forall|a: int, b: int|
        0 <= a < g2.len() && 0 <= b < g2[a].len() implies g2[a][b] < g2.len() by {
        if a == i {
            if b < j {
                assert(g2[a][b] == g[i][b]);
            } else {
                assert(g2[a][b] == g[i][b + 1]);
            }
        } else {
            assert(g2[a][b] == g[a][b]);
        }
    }
}

} // verus!
