use vstd::prelude::*;

verus! {

/// What a neighbour list holds: each neighbour's name and the edge's weight.
pub type NeighbourView = Seq<(Seq<char>, i32)>;

/// What the adjacency table holds: each node's name and its neighbour list, in table order.
pub type TableView = Seq<(Seq<char>, NeighbourView)>;

/// The failure of an operation that needs a node the graph does not hold.
#[derive(Debug, Clone, Copy)]
pub struct NodeNotInGraph;

impl NodeNotInGraph {
    pub fn message(&self) -> (r: String)
        ensures
            r@ == "accessing a node that is not in the graph"@,
    {
        "accessing a node that is not in the graph".to_owned()
    }
}

pub open spec fn neighbours_view(v: Seq<(String, i32)>) -> NeighbourView {
    v.map_values(|p: (String, i32)| (p.0@, p.1))
}

pub open spec fn entry_view(e: (String, Vec<(String, i32)>)) -> (Seq<char>, NeighbourView) {
    (e.0@, neighbours_view(e.1@))
}

/// No two entries of `t` carry the same node.
pub open spec fn keys_unique(t: TableView) -> bool {
    forall|i: int, j: int| 0 <= i < j < t.len() ==> #[trigger] t[i].0 != #[trigger] t[j].0
}

pub open spec fn has_node(t: TableView, k: Seq<char>) -> bool {
    exists|i: int| 0 <= i < t.len() && #[trigger] t[i].0 == k
}

/// `t` with node `k` added, without neighbours, unless it is there already.
pub open spec fn with_node(t: TableView, k: Seq<char>) -> TableView {
    if has_node(t, k) {
        t
    } else {
        t.push((k, Seq::empty()))
    }
}

/// `t` with `x` appended to the neighbour list of node `k`.
pub open spec fn append_at(t: TableView, k: Seq<char>, x: (Seq<char>, i32)) -> TableView {
    t.map_values(
        |e: (Seq<char>, NeighbourView)|
            if e.0 == k {
                (e.0, e.1.push(x))
            } else {
                e
            },
    )
}

/// `t` after the undirected edge `from`–`to` of weight `w` is added.
pub open spec fn with_edge(t: TableView, from: Seq<char>, to: Seq<char>, w: i32) -> TableView {
    let t1 = with_node(with_node(t, from), to);
    append_at(append_at(t1, from, (to, w)), to, (from, w))
}

/// The node names of `t`, in table order.
pub open spec fn node_list(t: TableView) -> Seq<Seq<char>> {
    t.map_values(|e: (Seq<char>, NeighbourView)| e.0)
}

/// Every (node, neighbour, weight) of `t`, node by node in table order.
pub open spec fn edge_list(t: TableView) -> Seq<(Seq<char>, Seq<char>, i32)>
    decreases t.len(),
{
    if t.len() == 0 {
        Seq::empty()
    } else {
        edge_list(t.drop_last()) + t.last().1.map_values(
            |n: (Seq<char>, i32)| (t.last().0, n.0, n.1),
        )
    }
}

proof fn lemma_map_push<A, B>(s: Seq<A>, x: A, f: spec_fn(A) -> B)
    ensures
        s.push(x).map_values(f) == s.map_values(f).push(f(x)),
{
    assert(s.push(x).map_values(f) =~= s.map_values(f).push(f(x)));
}

proof fn lemma_with_node(t: TableView, k: Seq<char>)
    requires
        keys_unique(t),
    ensures
        keys_unique(with_node(t, k)),
        has_node(with_node(t, k), k),
        forall|k2: Seq<char>| has_node(t, k2) ==> has_node(with_node(t, k), k2),
        forall|k2: Seq<char>| has_node(with_node(t, k), k2) ==> has_node(t, k2) || k2 == k,
{
    let u = with_node(t, k);
    if !has_node(t, k) {
        assert forall|k2: Seq<char>| has_node(u, k2) && k2 != k implies has_node(t, k2) by {
            let i = choose|i: int| 0 <= i < u.len() && u[i].0 == k2;
            assert(t[i].0 == k2);
        }
        assert(u[t.len() as int].0 == k);
        assert forall|k2: Seq<char>| has_node(t, k2) implies has_node(u, k2) by {
            let i = choose|i: int| 0 <= i < t.len() && t[i].0 == k2;
            assert(u[i].0 == k2);
        }
    }
}

proof fn lemma_append_at(t: TableView, k: Seq<char>, x: (Seq<char>, i32))
    ensures
        append_at(t, k, x).len() == t.len(),
        forall|i: int| 0 <= i < t.len() ==> #[trigger] append_at(t, k, x)[i].0 == t[i].0,
        keys_unique(t) ==> keys_unique(append_at(t, k, x)),
        forall|k2: Seq<char>| has_node(t, k2) ==> has_node(append_at(t, k, x), k2),
        forall|k2: Seq<char>| has_node(append_at(t, k, x), k2) ==> has_node(t, k2),
{
    let u = append_at(t, k, x);
    assert forall|k2: Seq<char>| has_node(u, k2) implies has_node(t, k2) by {
        let i = choose|i: int| 0 <= i < u.len() && u[i].0 == k2;
        assert(t[i].0 == k2);
    }
    assert forall|k2: Seq<char>| has_node(t, k2) implies has_node(u, k2) by {
        let i = choose|i: int| 0 <= i < t.len() && t[i].0 == k2;
        assert(u[i].0 == k2);
    }
}

/// Node `a` of `t` lists `x` among its neighbours.
pub open spec fn has_neighbour(t: TableView, a: Seq<char>, x: (Seq<char>, i32)) -> bool {
    exists|i: int| 0 <= i < t.len() && t[i].0 == a && #[trigger] t[i].1.contains(x)
}

proof fn lemma_append_at_neighbours(t: TableView, k: Seq<char>, y: (Seq<char>, i32))
    ensures
        forall|a: Seq<char>, x: (Seq<char>, i32)|
            has_neighbour(t, a, x) ==> has_neighbour(append_at(t, k, y), a, x),
        has_node(t, k) ==> has_neighbour(append_at(t, k, y), k, y),
{
    let u = append_at(t, k, y);
    assert forall|a: Seq<char>, x: (Seq<char>, i32)| has_neighbour(t, a, x) implies has_neighbour(
        u,
        a,
        x,
    ) by {
        let i = choose|i: int| 0 <= i < t.len() && t[i].0 == a && #[trigger] t[i].1.contains(x);
        let j = choose|j: int| 0 <= j < t[i].1.len() && t[i].1[j] == x;
        if t[i].0 == k {
            assert(u[i].1[j] == x);
        }
        assert(u[i].1.contains(x));
    }
    if has_node(t, k) {
        let i = choose|i: int| 0 <= i < t.len() && t[i].0 == k;
        assert(u[i].1[u[i].1.len() - 1] == y);
        assert(u[i].1.contains(y));
    }
}

/// Once the edge `u`–`v` of weight `w` is added, each endpoint lists the other with weight
/// `w`.
pub proof fn lemma_edge_symmetric(t: TableView, u: Seq<char>, v: Seq<char>, w: i32)
    requires
        keys_unique(t),
    ensures
        has_neighbour(with_edge(t, u, v, w), u, (v, w)),
        has_neighbour(with_edge(t, u, v, w), v, (u, w)),
{
    let t1 = with_node(with_node(t, u), v);
    lemma_with_node(t, u);
    lemma_with_node(with_node(t, u), v);
    let t2 = append_at(t1, u, (v, w));
    lemma_append_at(t1, u, (v, w));
    lemma_append_at_neighbours(t1, u, (v, w));
    lemma_append_at_neighbours(t2, v, (u, w));
}

/// Adding a node never takes a neighbour entry away.
pub proof fn lemma_add_node_keeps_neighbours(
    t: TableView,
    k: Seq<char>,
    a: Seq<char>,
    x: (Seq<char>, i32),
)
    requires
        has_neighbour(t, a, x),
    ensures
        has_neighbour(with_node(t, k), a, x),
{
    if !has_node(t, k) {
        let i = choose|i: int| 0 <= i < t.len() && t[i].0 == a && #[trigger] t[i].1.contains(x);
        assert(with_node(t, k)[i] == t[i]);
    }
}

/// Adding an edge never takes a neighbour entry away.
pub proof fn lemma_add_edge_keeps_neighbours(
    t: TableView,
    u: Seq<char>,
    v: Seq<char>,
    w: i32,
    a: Seq<char>,
    x: (Seq<char>, i32),
)
    requires
        has_neighbour(t, a, x),
    ensures
        has_neighbour(with_edge(t, u, v, w), a, x),
{
    lemma_add_node_keeps_neighbours(t, u, a, x);
    lemma_add_node_keeps_neighbours(with_node(t, u), v, a, x);
    let t1 = with_node(with_node(t, u), v);
    lemma_append_at_neighbours(t1, u, (v, w));
    lemma_append_at_neighbours(append_at(t1, u, (v, w)), v, (u, w));
}

/// The first addition of an absent node reports `true` and adds one node; a second
/// addition of it reports `false` and changes nothing.
pub proof fn lemma_add_node_idempotent(t: TableView, k: Seq<char>)
    requires
        keys_unique(t),
        !has_node(t, k),
    ensures
        node_list(with_node(t, k)).len() == node_list(t).len() + 1,
        has_node(with_node(t, k), k),
        with_node(with_node(t, k), k) == with_node(t, k),
{
    lemma_with_node(t, k);
}

/// The graph that the edges `es` build, added in order to an empty graph.
pub open spec fn with_edges(es: Seq<(Seq<char>, Seq<char>, i32)>) -> TableView
    decreases es.len(),
{
    if es.len() == 0 {
        Seq::empty()
    } else {
        with_edge(with_edges(es.drop_last()), es.last().0, es.last().1, es.last().2)
    }
}

/// The names that occur as an endpoint of an edge of `es`.
pub open spec fn endpoints(es: Seq<(Seq<char>, Seq<char>, i32)>) -> Set<Seq<char>> {
    Set::new(|k: Seq<char>| exists|i: int| 0 <= i < es.len() && (es[i].0 == k || es[i].1 == k))
}

proof fn lemma_with_edges_nodes(es: Seq<(Seq<char>, Seq<char>, i32)>)
    ensures
        keys_unique(with_edges(es)),
        forall|k: Seq<char>| has_node(with_edges(es), k) <==> endpoints(es).contains(k),
    decreases es.len(),
{
    if es.len() > 0 {
        let d = es.drop_last();
        let e = es.last();
        let t = with_edges(d);
        lemma_with_edges_nodes(d);
        lemma_with_node(t, e.0);
        lemma_with_node(with_node(t, e.0), e.1);
        let t1 = with_node(with_node(t, e.0), e.1);
        lemma_append_at(t1, e.0, (e.1, e.2));
        lemma_append_at(append_at(t1, e.0, (e.1, e.2)), e.1, (e.0, e.2));
        assert forall|k: Seq<char>| has_node(with_edges(es), k) <==> endpoints(es).contains(k) by {
            if endpoints(es).contains(k) {
                let i = choose|i: int| 0 <= i < es.len() && (es[i].0 == k || es[i].1 == k);
                if i < d.len() {
                    assert(d[i] == es[i]);
                    assert(endpoints(d).contains(k));
                }
            }
            if endpoints(d).contains(k) {
                let i = choose|i: int| 0 <= i < d.len() && (d[i].0 == k || d[i].1 == k);
                assert(es[i] == d[i]);
            }
            assert(es[es.len() - 1] == e);
        }
    } else {
        assert forall|k: Seq<char>| !endpoints(es).contains(k) by {}
    }
}

/// A graph built by adding edges alone holds one node per distinct endpoint.
pub proof fn lemma_node_count(es: Seq<(Seq<char>, Seq<char>, i32)>)
    ensures
        node_list(with_edges(es)).to_set() == endpoints(es),
        node_list(with_edges(es)).len() == endpoints(es).len(),
{
    let t = with_edges(es);
    let n = node_list(t);
    lemma_with_edges_nodes(es);
    assert forall|k: Seq<char>| n.contains(k) <==> has_node(t, k) by {
        if n.contains(k) {
            let i = choose|i: int| 0 <= i < n.len() && n[i] == k;
            assert(t[i].0 == k);
        }
        if has_node(t, k) {
            let i = choose|i: int| 0 <= i < t.len() && t[i].0 == k;
            assert(n[i] == k);
        }
    }
    assert(n.to_set() =~= endpoints(es));
    assert(n.no_duplicates()) by {
        assert forall|i: int, j: int| 0 <= i < n.len() && 0 <= j < n.len() && i != j implies n[i]
            != n[j] by {
            if i < j {
                assert(t[i].0 != t[j].0);
            } else {
                assert(t[j].0 != t[i].0);
            }
        }
    }
    n.unique_seq_to_set();
}

/// A weighted graph whose nodes are named by strings.
pub trait Graph: Sized {
    /// The adjacency table: each node with its neighbour list.
    spec fn table(&self) -> TableView;

    fn new() -> (g: Self)
        ensures
            g.table() == Seq::<(Seq<char>, NeighbourView)>::empty(),
    ;

    fn adjacency_table(&self) -> (r: &Vec<(String, Vec<(String, i32)>)>)
        ensures
            r@.map_values(|e: (String, Vec<(String, i32)>)| entry_view(e)) == self.table(),
    ;

    /// Adds `node` without neighbours; returns whether it was absent.
    fn add_node(&mut self, node: &str) -> (r: bool)
        requires
            keys_unique(old(self).table()),
        ensures
            r == !has_node(old(self).table(), node@),
            final(self).table() == with_node(old(self).table(), node@),
            keys_unique(final(self).table()),
    ;

    /// Adds the edge `(from, to, weight)`, adding missing endpoints first.
    fn add_edge(&mut self, edge: (&str, &str, i32))
        requires
            keys_unique(old(self).table()),
        ensures
            final(self).table() == with_edge(old(self).table(), edge.0@, edge.1@, edge.2),
            keys_unique(final(self).table()),
    ;

    fn contains(&self, node: &str) -> (r: bool)
        ensures
            r == has_node(self.table(), node@),
    ;

    /// The names of all nodes, in table order.
    fn nodes(&self) -> (r: Vec<String>)
        ensures
            r@.map_values(|s: String| s@) == node_list(self.table()),
    ;

    /// Every (node, neighbour, weight) triple of the adjacency table.
    fn edges(&self) -> (r: Vec<(String, String, i32)>)
        ensures
            r@.map_values(|e: (String, String, i32)| (e.0@, e.1@, e.2)) == edge_list(self.table()),
    ;
}

/// A graph that stores each edge in the neighbour lists of both its endpoints.
pub struct UndirectedGraph {
    adjacency_table: Vec<(String, Vec<(String, i32)>)>,
}

impl UndirectedGraph {
    fn find(&self, node: &String) -> (r: Option<usize>)
        ensures
            match r {
                Some(i) => i < self.table().len() && self.table()[i as int].0 == node@,
                None => !has_node(self.table(), node@),
            },
    {
        let mut i: usize = 0;
        while i < self.adjacency_table.len()
            invariant
                i <= self.table().len(),
                self.table().len() == self.adjacency_table@.len(),
                forall|j: int| 0 <= j < i ==> #[trigger] self.table()[j].0 != node@,
            decreases self.adjacency_table@.len() - i,
        {
            if self.adjacency_table[i].0 == *node {
                return Some(i);
            }
            i += 1;
        }
        None
    }

    fn push_neighbour(&mut self, i: usize, x: (String, i32))
        requires
            i < old(self).table().len(),
            keys_unique(old(self).table()),
        ensures
            final(self).table() == append_at(old(self).table(), old(self).table()[i as int].0, (x.0@, x.1)),
    {
        let ghost t = self.table();
        let mut entry = self.adjacency_table.remove(i);
        entry.1.push(x);
        self.adjacency_table.insert(i, entry);
        proof {
            let k = t[i as int].0;
            assert forall|j: int| 0 <= j < t.len() implies #[trigger] self.table()[j] == append_at(t, k, (x.0@, x.1))[j] by {
                if j != i {
                    assert(t[j].0 != k);
                }
                assert(neighbours_view(entry.1@) =~= t[i as int].1.push((x.0@, x.1)));
            }
            assert(self.table() =~= append_at(t, k, (x.0@, x.1)));
        }
    }
}

impl Graph for UndirectedGraph {
    closed spec fn table(&self) -> TableView {
        self.adjacency_table@.map_values(|e: (String, Vec<(String, i32)>)| entry_view(e))
    }

    fn new() -> (g: UndirectedGraph) {
        let g = UndirectedGraph { adjacency_table: Vec::new() };
        assert(g.table() =~= Seq::<(Seq<char>, NeighbourView)>::empty());
        g
    }

    fn adjacency_table(&self) -> (r: &Vec<(String, Vec<(String, i32)>)>) {
        &self.adjacency_table
    }

    fn add_node(&mut self, node: &str) -> (r: bool) {
        let node = node.to_owned();
        match self.find(&node) {
            Some(_) => false,
            None => {
                let ghost t = self.table();
                let empty: Vec<(String, i32)> = Vec::new();
                proof {
                    assert(neighbours_view(empty@) =~= Seq::empty());
                }
                self.adjacency_table.push((node, empty));
                proof {
                    assert(self.table() =~= t.push((node@, Seq::empty())));
                }
                true
            },
        }
    }

    fn add_edge(&mut self, edge: (&str, &str, i32)) {
        let (from, to, weight) = edge;
        let from = from.to_owned();
        let to = to.to_owned();
        let ghost t0 = self.table();
        self.add_node(from.as_str());
        self.add_node(to.as_str());
        let ghost t1 = self.table();
        proof {
            lemma_with_node(t0, from@);
            lemma_with_node(with_node(t0, from@), to@);
            lemma_append_at(t1, from@, (to@, weight));
        }
        let i = match self.find(&from) {
            Some(i) => i,
            None => { return; },
        };
        self.push_neighbour(i, (to.clone(), weight));
        let j = match self.find(&to) {
            Some(j) => j,
            None => { return; },
        };
        self.push_neighbour(j, (from, weight));
    }

    fn contains(&self, node: &str) -> (r: bool) {
        let node = node.to_owned();
        self.find(&node).is_some()
    }

    fn nodes(&self) -> (r: Vec<String>) {
        let mut r: Vec<String> = Vec::new();
        let mut i: usize = 0;
        while i < self.adjacency_table.len()
            invariant
                i <= self.adjacency_table@.len(),
                r@.map_values(|s: String| s@) == node_list(self.table()).take(i as int),
            decreases self.adjacency_table@.len() - i,
        {
            let ghost r0 = r@;
            r.push(self.adjacency_table[i].0.clone());
            i += 1;
            proof {
                lemma_map_push(r0, r@.last(), |s: String| s@);
                assert(node_list(self.table()).take(i as int) =~= node_list(self.table()).take(
                    i - 1,
                ).push(self.table()[i - 1].0));
            }
        }
        assert(node_list(self.table()).take(i as int) =~= node_list(self.table()));
        r
    }

    fn edges(&self) -> (r: Vec<(String, String, i32)>) {
        let mut r: Vec<(String, String, i32)> = Vec::new();
        let mut i: usize = 0;
        let ghost t = self.table();
        while i < self.adjacency_table.len()
            invariant
                t == self.table(),
                i <= self.adjacency_table@.len(),
                r@.map_values(|e: (String, String, i32)| (e.0@, e.1@, e.2)) == edge_list(t.take(i as int)),
            decreases self.adjacency_table@.len() - i,
        {
            let from = &self.adjacency_table[i].0;
            let list = &self.adjacency_table[i].1;
            let ghost before = r@.map_values(|e: (String, String, i32)| (e.0@, e.1@, e.2));
            let mut j: usize = 0;
            while j < list.len()
                invariant
                    t == self.table(),
                    i < t.len(),
                    list@.len() == t[i as int].1.len(),
                    neighbours_view(list@) == t[i as int].1,
                    from@ == t[i as int].0,
                    j <= list@.len(),
                    r@.map_values(|e: (String, String, i32)| (e.0@, e.1@, e.2)) == before + t[i as int].1.take(j as int).map_values(
                        |n: (Seq<char>, i32)| (t[i as int].0, n.0, n.1),
                    ),
                decreases list@.len() - j,
            {
                let ghost r0 = r@;
                r.push((from.clone(), list[j].0.clone(), list[j].1));
                j += 1;
                proof {
                    let a = t[i as int].1;
                    let g = |n: (Seq<char>, i32)| (t[i as int].0, n.0, n.1);
                    assert(a[j - 1] == (list@[j - 1].0@, list@[j - 1].1));
                    lemma_map_push(r0, r@.last(), |e: (String, String, i32)| (e.0@, e.1@, e.2));
                    assert(a.take(j as int) =~= a.take(j - 1).push(a[j - 1]));
                    lemma_map_push(a.take(j - 1), a[j - 1], g);
                    assert(before + a.take(j as int).map_values(g) =~= (before + a.take(j - 1).map_values(g)).push(g(a[j - 1])));
                }
            }
            proof {
                let u = t.take(i + 1);
                assert(u.drop_last() =~= t.take(i as int));
                assert(t[i as int].1.take(j as int) =~= t[i as int].1);
                assert(u.last() == t[i as int]);
            }
            i += 1;
        }
        assert(t.take(i as int) =~= t);
        r
    }
}

} // verus!
