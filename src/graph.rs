use vstd::prelude::*;

verus! {

/// An adjacency table as a map: each node's name to its neighbor entries,
/// each entry the other end's name and the edge's weight.
pub type Table = Map<Seq<char>, Seq<(Seq<char>, i32)>>;

/// No two entries of `list` name the same neighbor.
pub open spec fn names_unique(list: Seq<(Seq<char>, i32)>) -> bool {
    forall|i: int, j: int|
        0 <= i < list.len() && 0 <= j < list.len() && #[trigger] list[i].0 == #[trigger] list[j].0
            ==> i == j
}

/// Each node lists a neighbor once, and every entry has its mirror entry,
/// with the same weight, at the other end.
pub open spec fn valid_table(t: Table) -> bool {
    &&& forall|a: Seq<char>| #[trigger] t.contains_key(a) ==> names_unique(t[a])
    &&& forall|a: Seq<char>, b: Seq<char>, w: i32|
        t.contains_key(a) && #[trigger] t[a].contains((b, w)) ==> t.contains_key(b) && t[b].contains(
            (a, w),
        )
}

/// `t` with node `n` added, with no neighbors, where it was absent.
pub open spec fn with_node(t: Table, n: Seq<char>) -> Table {
    if t.contains_key(n) {
        t
    } else {
        t.insert(n, Seq::empty())
    }
}

/// `list` with its entry for neighbor `b` given weight `w`, or with a new
/// entry `(b, w)` at its end where it had none.
pub open spec fn set_weight(list: Seq<(Seq<char>, i32)>, b: Seq<char>, w: i32) -> Seq<
    (Seq<char>, i32),
> {
    if has_neighbor(list, b) {
        list.update(neighbor_index(list, b), (b, w))
    } else {
        list.push((b, w))
    }
}

/// Some entry of `list` names `b`.
pub open spec fn has_neighbor(list: Seq<(Seq<char>, i32)>, b: Seq<char>) -> bool {
    exists|i: int| 0 <= i < list.len() && list[i].0 == b
}

/// The position of an entry of `list` that names `b`, where there is one.
pub open spec fn neighbor_index(list: Seq<(Seq<char>, i32)>, b: Seq<char>) -> int {
    choose|i: int| 0 <= i < list.len() && list[i].0 == b
}

/// `t` with both ends of an edge present and the edge recorded at each end
/// with weight `w`.
pub open spec fn with_edge(t: Table, a: Seq<char>, b: Seq<char>, w: i32) -> Table {
    let t1 = with_node(with_node(t, a), b);
    let t2 = t1.insert(a, set_weight(t1[a], b, w));
    t2.insert(b, set_weight(t2[b], a, w))
}

/// Every entry of the table as a directed edge: from, to, weight.
pub open spec fn edge_set(t: Table) -> Set<(Seq<char>, Seq<char>, i32)> {
    Set::new(
        |e: (Seq<char>, Seq<char>, i32)| t.contains_key(e.0) && t[e.0].contains((e.1, e.2)),
    )
}

proof fn lemma_set_weight(list: Seq<(Seq<char>, i32)>, b: Seq<char>, w: i32)
    requires
        names_unique(list),
    ensures
        names_unique(set_weight(list, b, w)),
        set_weight(list, b, w).contains((b, w)),
        forall|e: (Seq<char>, i32)|
            #![trigger set_weight(list, b, w).contains(e)]
            e.0 != b ==> (set_weight(list, b, w).contains(e) <==> list.contains(e)),
        forall|e: (Seq<char>, i32)|
            #![trigger set_weight(list, b, w).contains(e)]
            e.0 == b ==> (set_weight(list, b, w).contains(e) <==> e.1 == w),
        has_neighbor(list, b) ==> set_weight(list, b, w).len()
            == list.len(),
{
    let r = set_weight(list, b, w);
    if has_neighbor(list, b) {
        let i = neighbor_index(list, b);
        assert(r[i] == (b, w));
        assert forall|e: (Seq<char>, i32)| #[trigger] r.contains(e) implies (e.0 != b ==> list.contains(e)) && (e.0 == b ==> e.1 == w) by {
            let k = choose|k: int| 0 <= k < r.len() && r[k] == e;
            if k != i {
                assert(list[k] == e);
            }
        }
        assert forall|e: (Seq<char>, i32)| e.0 != b && list.contains(e) implies #[trigger] r.contains(e) by {
            let k = choose|k: int| 0 <= k < list.len() && list[k] == e;
            assert(r[k] == e);
        }
    } else {
        assert(r[list.len() as int] == (b, w));
        assert forall|e: (Seq<char>, i32)| #[trigger] r.contains(e) implies (e.0 != b ==> list.contains(e)) && (e.0 == b ==> e.1 == w) by {
            let k = choose|k: int| 0 <= k < r.len() && r[k] == e;
            if k < list.len() {
                assert(list[k] == e);
            }
        }
        assert forall|e: (Seq<char>, i32)| e.0 != b && list.contains(e) implies #[trigger] r.contains(e) by {
            let k = choose|k: int| 0 <= k < list.len() && list[k] == e;
            assert(r[k] == e);
        }
    }
}

proof fn lemma_with_node_valid(t: Table, n: Seq<char>)
    requires
        valid_table(t),
    ensures
        valid_table(with_node(t, n)),
        with_node(t, n).contains_key(n),
        forall|x: Seq<char>| #[trigger] t.contains_key(x) ==> with_node(t, n).contains_key(x) && with_node(t, n)[x] == t[x],
{
    let r = with_node(t, n);
    assert forall|a: Seq<char>, b: Seq<char>, w: i32|
        r.contains_key(a) && #[trigger] r[a].contains((b, w)) implies r.contains_key(b) && r[b].contains((a, w)) by {
        if !t.contains_key(a) {
            assert(r[a] == Seq::<(Seq<char>, i32)>::empty());
        }
    }
}

/// Adding an edge keeps the table valid: each neighbor listed once, and
/// every entry mirrored at the other end with the same weight.
pub proof fn lemma_with_edge_valid(t: Table, a: Seq<char>, b: Seq<char>, w: i32)
    requires
        valid_table(t),
    ensures
        valid_table(with_edge(t, a, b, w)),
        with_edge(t, a, b, w).dom() == t.dom().insert(a).insert(b),
{
    let t0 = with_node(t, a);
    let t1 = with_node(t0, b);
    lemma_with_node_valid(t, a);
    lemma_with_node_valid(t0, b);
    let l2 = set_weight(t1[a], b, w);
    let t2 = t1.insert(a, l2);
    let l3 = set_weight(t2[b], a, w);
    let t3 = t2.insert(b, l3);
    assert(t3 == with_edge(t, a, b, w));
    lemma_set_weight(t1[a], b, w);
    lemma_set_weight(t2[b], a, w);
    if a != b {
        assert(t2[b] == t1[b]);
    }
    assert forall|x: Seq<char>| #[trigger] t3.contains_key(x) implies names_unique(t3[x]) by {}
    assert forall|x: Seq<char>, y: Seq<char>, v: i32|
        t3.contains_key(x) && #[trigger] t3[x].contains((y, v)) implies t3.contains_key(y) && t3[y].contains((x, v)) by {
        if x != a && x != b {
            assert(t1[x].contains((y, v)));
            assert(t1[y].contains((x, v)));
            if y == a {
                assert(l2.contains((x, v)));
            }
            if y == b {
                assert(t2[b].contains((x, v)));
                assert(l3.contains((x, v)));
            }
        } else if a != b && x == a {
            assert(l2.contains((y, v)));
            if y != b {
                assert(t1[a].contains((y, v)));
                assert(t1[y].contains((a, v)));
                if y == a {
                    assert(l2.contains((a, v)));
                }
            }
        } else if a != b && x == b {
            assert(l3.contains((y, v)));
            if y != a {
                assert(t1[b].contains((y, v)));
                assert(t1[y].contains((b, v)));
            } else {
                assert(l2.contains((b, w)));
            }
        } else {
            assert(l3.contains((y, v)));
            if y != a {
                assert(l2.contains((y, v)));
                assert(t1[a].contains((y, v)));
                assert(t1[y].contains((a, v)));
            }
        }
    }
    assert(t3.dom() =~= t.dom().insert(a).insert(b));
}

/// In a valid table every edge runs both ways with the same weight.
pub proof fn lemma_edges_symmetric(t: Table)
    requires
        valid_table(t),
    ensures
        forall|e: (Seq<char>, Seq<char>, i32)| #[trigger] edge_set(t).contains(e) ==> edge_set(t).contains((e.1, e.0, e.2)),
{
    assert forall|e: (Seq<char>, Seq<char>, i32)| #[trigger] edge_set(t).contains(e) implies edge_set(t).contains((e.1, e.0, e.2)) by {
        assert(t[e.0].contains((e.1, e.2)));
    }
}

/// Once an edge from `a` to `b` with weight `w` is added, the table holds it
/// in both directions.
pub proof fn lemma_added_edge_both_ways(t: Table, a: Seq<char>, b: Seq<char>, w: i32)
    ensures
        edge_set(with_edge(t, a, b, w)).contains((a, b, w)),
        edge_set(with_edge(t, a, b, w)).contains((b, a, w)),
{
    let t1 = with_node(with_node(t, a), b);
    let l2 = set_weight(t1[a], b, w);
    let t2 = t1.insert(a, l2);
    let l3 = set_weight(t2[b], a, w);
    let t3 = t2.insert(b, l3);
    lemma_set_weight_contains(t1[a], b, w);
    lemma_set_weight_contains(t2[b], a, w);
    if a != b {
        assert(t3[a] == l2);
    } else {
        lemma_set_weight_contains(l2, a, w);
    }
}

/// `set_weight` always leaves an entry `(b, w)`.
proof fn lemma_set_weight_contains(list: Seq<(Seq<char>, i32)>, b: Seq<char>, w: i32)
    ensures
        set_weight(list, b, w).contains((b, w)),
{
    let r = set_weight(list, b, w);
    if has_neighbor(list, b) {
        assert(r[neighbor_index(list, b)] == (b, w));
    } else {
        assert(r[list.len() as int] == (b, w));
    }
}

/// Adding a node twice: the first call finds it absent, the second finds it
/// present and changes nothing, so the set of nodes does not grow.
pub proof fn lemma_add_node_twice(t: Table, n: Seq<char>)
    requires
        t.dom().finite(),
        !t.contains_key(n),
    ensures
        with_node(t, n).contains_key(n),
        with_node(with_node(t, n), n) == with_node(t, n),
        with_node(with_node(t, n), n).dom().len() == with_node(t, n).dom().len(),
        with_node(t, n).dom().len() == t.dom().len() + 1,
{
}

/// Adding again an edge that the table holds, with another weight, replaces
/// its weight at both ends and adds no entry.
pub proof fn lemma_weight_update(t: Table, a: Seq<char>, b: Seq<char>, w1: i32, w2: i32)
    requires
        valid_table(t),
        t.contains_key(a),
        t[a].contains((b, w1)),
    ensures
        with_edge(t, a, b, w2).dom() == t.dom(),
        with_edge(t, a, b, w2)[a].len() == t[a].len(),
        with_edge(t, a, b, w2)[b].len() == t[b].len(),
        with_edge(t, a, b, w2)[a].contains((b, w2)),
        with_edge(t, a, b, w2)[b].contains((a, w2)),
        w1 != w2 ==> !with_edge(t, a, b, w2)[a].contains((b, w1)),
        w1 != w2 ==> !with_edge(t, a, b, w2)[b].contains((a, w1)),
{
    lemma_with_edge_valid(t, a, b, w2);
    lemma_added_edge_both_ways(t, a, b, w2);
    assert(t.contains_key(b) && t[b].contains((a, w1)));
    let t1 = with_node(with_node(t, a), b);
    assert(t1 == t);
    let l2 = set_weight(t[a], b, w2);
    let t2 = t.insert(a, l2);
    let l3 = set_weight(t2[b], a, w2);
    let t3 = t2.insert(b, l3);
    lemma_set_weight(t[a], b, w2);
    let i = choose|i: int| 0 <= i < t[a].len() && t[a][i] == (b, w1);
    assert(t[a][i].0 == b);
    lemma_set_weight(t2[b], a, w2);
    let j = choose|j: int| 0 <= j < t[b].len() && t[b][j] == (a, w1);
    if a != b {
        assert(t2[b] == t[b]);
        assert(t2[b][j].0 == a);
        assert(t3[a] == l2);
    } else {
        assert(l2[i].0 == a);
        lemma_set_weight(l2, a, w2);
    }
    assert(t3 == with_edge(t, a, b, w2));
    assert(t3.dom() =~= t.dom());
}

/// A table stored as a list of entries, one per node: the node's name and
/// its neighbor entries.
pub type Entries = Seq<(Seq<char>, Seq<(Seq<char>, i32)>)>;

/// No two entries are for the same node.
pub open spec fn keys_unique(es: Entries) -> bool {
    forall|i: int, j: int|
        0 <= i < es.len() && 0 <= j < es.len() && #[trigger] es[i].0 == #[trigger] es[j].0 ==> i
            == j
}

/// Some entry of `es` is for node `k`.
pub open spec fn has_entry(es: Entries, k: Seq<char>) -> bool {
    exists|i: int| 0 <= i < es.len() && es[i].0 == k
}

/// The position of an entry of `es` for node `k`, where there is one.
pub open spec fn entry_index(es: Entries, k: Seq<char>) -> int {
    choose|i: int| 0 <= i < es.len() && es[i].0 == k
}

/// The table that a list of entries stands for.
pub open spec fn table_of(es: Entries) -> Table {
    Map::new(|k: Seq<char>| has_entry(es, k), |k: Seq<char>| es[entry_index(es, k)].1)
}

proof fn lemma_table_lookup(es: Entries, i: int)
    requires
        keys_unique(es),
        0 <= i < es.len(),
    ensures
        table_of(es).contains_key(es[i].0),
        table_of(es)[es[i].0] == es[i].1,
{
    assert(has_entry(es, es[i].0));
    let j = entry_index(es, es[i].0);
    assert(es[j].0 == es[i].0);
}

proof fn lemma_table_push(es: Entries, k: Seq<char>, l: Seq<(Seq<char>, i32)>)
    requires
        keys_unique(es),
        !table_of(es).contains_key(k),
    ensures
        keys_unique(es.push((k, l))),
        table_of(es.push((k, l))) == table_of(es).insert(k, l),
{
    let es2 = es.push((k, l));
    assert forall|i: int, j: int|
        0 <= i < es2.len() && 0 <= j < es2.len() && #[trigger] es2[i].0 == #[trigger] es2[j].0 implies i == j by {
        if i < es.len() && j == es.len() {
            assert(has_entry(es, es[i].0));
        }
        if j < es.len() && i == es.len() {
            assert(has_entry(es, es[j].0));
        }
    }
    assert forall|x: Seq<char>| #[trigger] table_of(es2).contains_key(x) == table_of(es).insert(k, l).contains_key(x) by {
        if has_entry(es, x) {
            let i = entry_index(es, x);
            assert(es2[i].0 == x);
        }
        if has_entry(es2, x) && x != k {
            let i = entry_index(es2, x);
            assert(es[i].0 == x);
        }
        if x == k {
            assert(es2[es.len() as int].0 == k);
        }
    }
    assert forall|x: Seq<char>| #[trigger] table_of(es2).contains_key(x) implies table_of(es2)[x] == table_of(es).insert(k, l)[x] by {
        let i = entry_index(es2, x);
        lemma_table_lookup(es2, i);
        if i < es.len() {
            lemma_table_lookup(es, i);
        }
    }
    assert(table_of(es2) =~= table_of(es).insert(k, l));
}

proof fn lemma_table_update(es: Entries, i: int, l: Seq<(Seq<char>, i32)>)
    requires
        keys_unique(es),
        0 <= i < es.len(),
    ensures
        keys_unique(es.update(i, (es[i].0, l))),
        table_of(es.update(i, (es[i].0, l))) == table_of(es).insert(es[i].0, l),
{
    let es2 = es.update(i, (es[i].0, l));
    assert forall|a: int, b: int|
        0 <= a < es2.len() && 0 <= b < es2.len() && #[trigger] es2[a].0 == #[trigger] es2[b].0 implies a == b by {
        assert(es[a].0 == es2[a].0 && es[b].0 == es2[b].0);
    }
    lemma_table_lookup(es, i);
    assert forall|x: Seq<char>| #[trigger] table_of(es2).contains_key(x) == table_of(es).contains_key(x) by {
        if has_entry(es, x) {
            let j = entry_index(es, x);
            assert(es2[j].0 == x);
        }
        if has_entry(es2, x) {
            let j = entry_index(es2, x);
            assert(es[j].0 == x);
        }
    }
    assert forall|x: Seq<char>| #[trigger] table_of(es2).contains_key(x) implies table_of(es2)[x] == table_of(es).insert(es[i].0, l)[x] by {
        let j = entry_index(es2, x);
        lemma_table_lookup(es2, j);
        lemma_table_lookup(es, j);
    }
    assert(table_of(es2) =~= table_of(es).insert(es[i].0, l));
}

/// The names and weights of a stored neighbor list.
pub open spec fn neighbor_view(l: Seq<(String, i32)>) -> Seq<(Seq<char>, i32)> {
    l.map_values(|p: (String, i32)| (p.0@, p.1))
}

/// The names and neighbor entries of a stored entry list.
pub open spec fn entries_view(v: Seq<(String, Vec<(String, i32)>)>) -> Entries {
    v.map_values(|e: (String, Vec<(String, i32)>)| (e.0@, neighbor_view(e.1@)))
}

/// The error for reaching for a node that the graph does not hold.
#[derive(Debug, Clone, Copy)]
pub struct NodeNotInGraph;

impl NodeNotInGraph {
    /// What went wrong, for a reader.
    pub fn message(&self) -> (r: String)
        ensures
            r@ == "accessing a node that is not in the graph"@,
    {
        "accessing a node that is not in the graph".to_owned()
    }
}

/// Gives neighbor `b` weight `w` in `list`: the entry that names `b` where
/// there is one, else a new entry at the end.
fn set_neighbor_weight(list: &mut Vec<(String, i32)>, b: &str, w: i32)
    requires
        names_unique(neighbor_view(old(list)@)),
    ensures
        neighbor_view(final(list)@) == set_weight(neighbor_view(old(list)@), b@, w),
{
    let ghost l0 = neighbor_view(list@);
    let key = b.to_owned();
    let mut k: usize = 0;
    while k < list.len()
        invariant
            list@ == old(list)@,
            l0 == neighbor_view(list@),
            names_unique(l0),
            key@ == b@,
            k <= list@.len(),
            forall|m: int| 0 <= m < k ==> l0[m].0 != b@,
        decreases list@.len() - k,
    {
        if list[k].0 == key {
            proof {
                assert(l0[k as int].0 == b@);
                assert(has_neighbor(l0, b@));
                let i = neighbor_index(l0, b@);
                assert(i == k);
            }
            list[k].1 = w;
            assert(neighbor_view(list@) =~= set_weight(l0, b@, w));
            return;
        }
        k += 1;
    }
    list.push((key, w));
    assert(neighbor_view(list@) =~= set_weight(l0, b@, w));
}

/// The neighbor entries of one node as directed edges from it.
pub open spec fn entry_edges(e: (Seq<char>, Seq<(Seq<char>, i32)>)) -> Seq<
    (Seq<char>, Seq<char>, i32),
> {
    e.1.map_values(|p: (Seq<char>, i32)| (e.0, p.0, p.1))
}

/// All entries of `es` as directed edges, in stored order.
pub open spec fn edges_of(es: Entries) -> Seq<(Seq<char>, Seq<char>, i32)>
    decreases es.len(),
{
    if es.len() == 0 {
        Seq::empty()
    } else {
        edges_of(es.drop_last()) + entry_edges(es.last())
    }
}

/// Names and weight of a returned edge.
pub open spec fn edge_view(e: (String, String, i32)) -> (Seq<char>, Seq<char>, i32) {
    (e.0@, e.1@, e.2)
}

proof fn lemma_edges_of_contains(es: Entries, e: (Seq<char>, Seq<char>, i32))
    ensures
        edges_of(es).contains(e) <==> exists|i: int|
            0 <= i < es.len() && es[i].0 == e.0 && #[trigger] es[i].1.contains((e.1, e.2)),
    decreases es.len(),
{
    if es.len() > 0 {
        let n = es.len() - 1;
        let init = es.drop_last();
        lemma_edges_of_contains(init, e);
        let tail = entry_edges(es.last());
        if edges_of(es).contains(e) {
            let k = choose|k: int| 0 <= k < edges_of(es).len() && edges_of(es)[k] == e;
            if k < edges_of(init).len() {
                assert(edges_of(init)[k] == e);
                let i = choose|i: int|
                    0 <= i < init.len() && init[i].0 == e.0 && #[trigger] init[i].1.contains((e.1, e.2));
                assert(es[i] == init[i]);
            } else {
                let m = k - edges_of(init).len();
                assert(tail[m] == e);
                assert(es[n].1[m] == (e.1, e.2));
                assert(es[n].1.contains((e.1, e.2)));
            }
        }
        if exists|i: int| 0 <= i < es.len() && es[i].0 == e.0 && #[trigger] es[i].1.contains((e.1, e.2)) {
            let i = choose|i: int|
                0 <= i < es.len() && es[i].0 == e.0 && #[trigger] es[i].1.contains((e.1, e.2));
            if i < n {
                assert(init[i] == es[i]);
                let k = choose|k: int| 0 <= k < edges_of(init).len() && edges_of(init)[k] == e;
                assert(edges_of(es)[k] == e);
            } else {
                let m = choose|m: int| 0 <= m < es[n].1.len() && es[n].1[m] == (e.1, e.2);
                assert(tail[m] == e);
                assert(edges_of(es)[edges_of(init).len() + m] == e);
            }
        }
    }
}

proof fn lemma_edges_of_unique(es: Entries)
    requires
        keys_unique(es),
        forall|i: int| 0 <= i < es.len() ==> names_unique(#[trigger] es[i].1),
    ensures
        edges_of(es).no_duplicates(),
    decreases es.len(),
{
    if es.len() > 0 {
        let n = es.len() - 1;
        let init = es.drop_last();
        assert forall|i: int| 0 <= i < init.len() implies names_unique(#[trigger] init[i].1) by {
            assert(init[i] == es[i]);
        }
        assert forall|i: int, j: int|
            0 <= i < init.len() && 0 <= j < init.len() && #[trigger] init[i].0 == #[trigger] init[j].0 implies i == j by {
            assert(init[i] == es[i] && init[j] == es[j]);
        }
        lemma_edges_of_unique(init);
        let a = edges_of(init);
        let b = entry_edges(es.last());
        assert(names_unique(es[n].1));
        assert(b.no_duplicates()) by {
            assert forall|x: int, y: int| 0 <= x < b.len() && 0 <= y < b.len() && x != y implies b[x] != b[y] by {
                assert(es[n].1[x].0 != es[n].1[y].0);
            }
        }
        assert forall|x: int, y: int| 0 <= x < a.len() && 0 <= y < b.len() implies a[x] != b[y] by {
            assert(a.contains(a[x]));
            lemma_edges_of_contains(init, a[x]);
            let i = choose|i: int|
                0 <= i < init.len() && init[i].0 == a[x].0 && #[trigger] init[i].1.contains((a[x].1, a[x].2));
            assert(es[i].0 == a[x].0);
            assert(b[y].0 == es[n].0);
        }
        vstd::seq_lib::lemma_no_dup_in_concat(a, b);
    }
}

/// The names of a list of strings.
pub open spec fn names_of(v: Seq<String>) -> Seq<Seq<char>> {
    v.map_values(|s: String| s@)
}

/// Names and weights of a list of returned edges.
pub open spec fn edge_views(v: Seq<(String, String, i32)>) -> Seq<(Seq<char>, Seq<char>, i32)> {
    v.map_values(|e: (String, String, i32)| edge_view(e))
}

/// The node names of a list of entries, in stored order.
pub open spec fn keys_of(es: Entries) -> Seq<Seq<char>> {
    es.map_values(|e: (Seq<char>, Seq<(Seq<char>, i32)>)| e.0)
}

/// An undirected graph with weighted edges, on nodes named by strings.
pub trait Graph: Sized {
    /// What the graph holds, as a map from each node to its neighbor entries.
    spec fn table(&self) -> Table;

    spec fn well_formed(&self) -> bool;

    /// An empty graph.
    fn new() -> (g: Self)
        ensures
            g.well_formed(),
            g.table() == Map::<Seq<char>, Seq<(Seq<char>, i32)>>::empty(),
    ;

    /// Adds `node`, with no neighbors, where it is absent; says whether it was.
    fn add_node(&mut self, node: &str) -> (r: bool)
        requires
            old(self).well_formed(),
        ensures
            final(self).well_formed(),
            r == !old(self).table().contains_key(node@),
            final(self).table() == with_node(old(self).table(), node@),
            valid_table(final(self).table()),
    ;

    /// Adds both ends where absent, then records the edge at each end with
    /// weight `edge.2`, replacing the weight of an edge already there.
    fn add_edge(&mut self, edge: (&str, &str, i32))
        requires
            old(self).well_formed(),
        ensures
            final(self).well_formed(),
            final(self).table() == with_edge(old(self).table(), edge.0@, edge.1@, edge.2),
            valid_table(final(self).table()),
    ;

    /// Whether the graph holds `node`.
    fn contains(&self, node: &str) -> (r: bool)
        requires
            self.well_formed(),
        ensures
            r == self.table().contains_key(node@),
    ;

    /// Every node once, in no promised order.
    fn nodes(&self) -> (r: Vec<String>)
        requires
            self.well_formed(),
        ensures
            names_of(r@).no_duplicates(),
            names_of(r@).to_set() == self.table().dom(),
    ;

    /// Every neighbor entry as a directed edge (from, to, weight), once, in
    /// no promised order: an edge between two nodes comes once from each end.
    fn edges(&self) -> (r: Vec<(String, String, i32)>)
        requires
            self.well_formed(),
        ensures
            edge_views(r@).no_duplicates(),
            edge_views(r@).to_set() == edge_set(self.table()),
    ;
}

/// An undirected graph kept as an adjacency table: one entry per node, with
/// the node's name and its neighbor entries.
pub struct UndirectedGraph {
    adjacency_table: Vec<(String, Vec<(String, i32)>)>,
}

impl UndirectedGraph {
    /// The stored entries, by name.
    pub closed spec fn entries(&self) -> Entries {
        entries_view(self.adjacency_table@)
    }

    /// The position of the entry for `node`, where there is one.
    fn find(&self, node: &str) -> (r: Option<usize>)
        ensures
            r is None ==> !self.table().contains_key(node@),
            r matches Some(i) ==> i < self.adjacency_table@.len() && self.entries()[i as int].0 == node@,
    {
        let ghost es = self.entries();
        let key = node.to_owned();
        let mut i: usize = 0;
        while i < self.adjacency_table.len()
            invariant
                es == self.entries(),
                es.len() == self.adjacency_table@.len(),
                key@ == node@,
                i <= es.len(),
                forall|m: int| 0 <= m < i ==> es[m].0 != node@,
            decreases es.len() - i,
        {
            if self.adjacency_table[i].0 == key {
                return Some(i);
            }
            i += 1;
        }
        proof {
            if has_entry(es, node@) {
                let j = entry_index(es, node@);
                assert(es[j].0 == node@);
            }
        }
        None
    }
}

impl Graph for UndirectedGraph {
    closed spec fn table(&self) -> Table {
        table_of(self.entries())
    }

    closed spec fn well_formed(&self) -> bool {
        &&& keys_unique(self.entries())
        &&& valid_table(self.table())
    }

    fn new() -> (g: Self) {
        let g = UndirectedGraph { adjacency_table: Vec::new() };
        assert(g.table() =~= Map::<Seq<char>, Seq<(Seq<char>, i32)>>::empty());
        g
    }

    fn add_node(&mut self, node: &str) -> (r: bool) {
        if self.contains(node) {
            return false;
        }
        let ghost es = self.entries();
        let ghost v0 = self.adjacency_table@;
        let name = node.to_owned();
        let empty: Vec<(String, i32)> = Vec::new();
        self.adjacency_table.push((name, empty));
        proof {
            assert(neighbor_view(empty@) =~= Seq::<(Seq<char>, i32)>::empty());
            assert(self.adjacency_table@ == v0.push((name, empty)));
            assert(self.entries()[es.len() as int] == (node@, Seq::<(Seq<char>, i32)>::empty()));
            lemma_table_push(es, node@, Seq::empty());
            assert(self.entries() =~= es.push((node@, Seq::empty())));
            lemma_with_node_valid(table_of(es), node@);
        }
        true
    }

    fn add_edge(&mut self, edge: (&str, &str, i32)) {
        let (from_node, to_node, weight) = edge;
        let ghost t = self.table();
        self.add_node(from_node);
        self.add_node(to_node);
        let ghost t1 = self.table();
        assert(t1 == with_node(with_node(t, from_node@), to_node@));
        proof {
            lemma_with_node_valid(t, from_node@);
            lemma_with_node_valid(with_node(t, from_node@), to_node@);
        }
        let i = match self.find(from_node) {
            Some(i) => i,
            None => {
                return;
            },
        };
        let ghost es1 = self.entries();
        proof {
            lemma_table_lookup(es1, i as int);
        }
        set_neighbor_weight(&mut self.adjacency_table[i].1, to_node, weight);
        let ghost l2 = set_weight(t1[from_node@], to_node@, weight);
        let ghost t2 = t1.insert(from_node@, l2);
        proof {
            assert(self.entries() =~= es1.update(i as int, (es1[i as int].0, l2)));
            lemma_table_update(es1, i as int, l2);
            lemma_set_weight(t1[from_node@], to_node@, weight);
        }
        let j = match self.find(to_node) {
            Some(j) => j,
            None => {
                return;
            },
        };
        let ghost es2 = self.entries();
        proof {
            lemma_table_lookup(es2, j as int);
        }
        set_neighbor_weight(&mut self.adjacency_table[j].1, from_node, weight);
        proof {
            let l3 = set_weight(t2[to_node@], from_node@, weight);
            assert(self.entries() =~= es2.update(j as int, (es2[j as int].0, l3)));
            lemma_table_update(es2, j as int, l3);
            lemma_with_edge_valid(t, from_node@, to_node@, weight);
        }
    }

    fn contains(&self, node: &str) -> (r: bool) {
        self.find(node).is_some()
    }

    fn nodes(&self) -> (r: Vec<String>) {
        let ghost es = self.entries();
        let mut r: Vec<String> = Vec::new();
        let mut i: usize = 0;
        while i < self.adjacency_table.len()
            invariant
                es == self.entries(),
                es.len() == self.adjacency_table@.len(),
                i <= es.len(),
                names_of(r@) == keys_of(es.take(i as int)),
            decreases es.len() - i,
        {
            let ghost prev = r@;
            let name = self.adjacency_table[i].0.clone();
            r.push(name);
            assert(name@ == es[i as int].0);
            assert(r@ == prev.push(name));
            assert(es.take(i + 1) =~= es.take(i as int).push(es[i as int]));
            assert(names_of(prev).len() == prev.len());
            assert(keys_of(es.take(i as int)).len() == i);
            assert(prev.len() == i);
            assert(names_of(r@).len() == i + 1);
            assert(keys_of(es.take(i + 1)).len() == i + 1);
            assert forall|k: int| 0 <= k < i + 1 implies names_of(r@)[k] == keys_of(es.take(i + 1))[k] by {
                if k < i {
                    assert(names_of(prev)[k] == keys_of(es.take(i as int))[k]);
                }
            }
            assert(names_of(r@) =~= keys_of(es.take(i + 1)));
            i += 1;
        }
        proof {
            let names = names_of(r@);
            assert(es.take(es.len() as int) == es);
            assert(names.no_duplicates()) by {
                assert forall|x: int, y: int| 0 <= x < names.len() && 0 <= y < names.len() && x != y implies names[x] != names[y] by {
                    assert(names[x] == es[x].0 && names[y] == es[y].0);
                }
            }
            assert forall|k: Seq<char>| names.to_set().contains(k) == self.table().dom().contains(k) by {
                if names.to_set().contains(k) {
                    let x = choose|x: int| 0 <= x < names.len() && names[x] == k;
                    lemma_table_lookup(es, x);
                }
                if self.table().dom().contains(k) {
                    let x = entry_index(es, k);
                    assert(names[x] == k);
                    assert(names.contains(k));
                }
            }
            assert(names.to_set() =~= self.table().dom());
        }
        r
    }

    fn edges(&self) -> (r: Vec<(String, String, i32)>) {
        let ghost es = self.entries();
        let mut r: Vec<(String, String, i32)> = Vec::new();
        let mut i: usize = 0;
        while i < self.adjacency_table.len()
            invariant
                es == self.entries(),
                es.len() == self.adjacency_table@.len(),
                i <= es.len(),
                edge_views(r@) == edges_of(es.take(i as int)),
            decreases es.len() - i,
        {
            let from_node = &self.adjacency_table[i].0;
            let neighbors = &self.adjacency_table[i].1;
            let ghost before = edge_views(r@);
            let mut j: usize = 0;
            while j < neighbors.len()
                invariant
                    es == self.entries(),
                    es.len() == self.adjacency_table@.len(),
                    i < es.len(),
                    *from_node == self.adjacency_table@[i as int].0,
                    *neighbors == self.adjacency_table@[i as int].1,
                    j <= neighbors@.len(),
                    edge_views(r@) == before + entry_edges(es[i as int]).take(j as int),
                decreases neighbors@.len() - j,
            {
                let to_node = &neighbors[j].0;
                let weight = neighbors[j].1;
                let ghost prev = r@;
                let item = (from_node.clone(), to_node.clone(), weight);
                r.push(item);
                assert(r@ == prev.push(item));
                assert(edge_view(item) == entry_edges(es[i as int])[j as int]);
                assert(entry_edges(es[i as int]).take(j + 1) =~= entry_edges(es[i as int]).take(j as int).push(entry_edges(es[i as int])[j as int]));
                let ghost want = before + entry_edges(es[i as int]).take(j + 1);
                assert(es[i as int].1 == neighbor_view(neighbors@));
                assert(entry_edges(es[i as int]).len() == neighbors@.len());
                assert(edge_views(prev).len() == prev.len());
                assert(prev.len() == before.len() + j);
                assert(want.len() == r@.len());
                assert forall|k: int| 0 <= k < r@.len() implies edge_views(r@)[k] == want[k] by {
                    if k < prev.len() {
                        assert(edge_views(prev)[k] == (before + entry_edges(es[i as int]).take(j as int))[k]);
                    }
                }
                assert(edge_views(r@) =~= want);
                j += 1;
            }
            proof {
                assert(entry_edges(es[i as int]).take(j as int) == entry_edges(es[i as int]));
                assert(es.take(i + 1).drop_last() == es.take(i as int));
                assert(es.take(i + 1).last() == es[i as int]);
            }
            i += 1;
        }
        proof {
            let got = edge_views(r@);
            assert(es.take(es.len() as int) == es);
            assert forall|k: int| 0 <= k < es.len() implies names_unique(#[trigger] es[k].1) by {
                lemma_table_lookup(es, k);
            }
            lemma_edges_of_unique(es);
            assert forall|e: (Seq<char>, Seq<char>, i32)| got.to_set().contains(e) == edge_set(self.table()).contains(e) by {
                lemma_edges_of_contains(es, e);
                if edge_set(self.table()).contains(e) {
                    let k = entry_index(es, e.0);
                    assert(es[k].1.contains((e.1, e.2)));
                }
                if got.contains(e) {
                    let k = choose|k: int| 0 <= k < es.len() && es[k].0 == e.0 && #[trigger] es[k].1.contains((e.1, e.2));
                    lemma_table_lookup(es, k);
                }
            }
            assert(got.to_set() =~= edge_set(self.table()));
        }
        r
    }
}

} // verus!
