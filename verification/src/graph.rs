//! The dependency graph store: package nodes keyed by name, with
//! idempotent node and edge insertion, bulk loading from a mapping, and
//! derivation of the reverse adjacency.
//!
//! The store keeps one entry per name, in first-insertion order; a
//! name that appears as a dependency always exists as a node, so the
//! graph has no dangling edges, and no dependency list holds a
//! duplicate.

use crate::text::vec_contains_string;
use vstd::prelude::*;
use vstd::seq_lib::*;
use vstd::string::*;

verus! {

/// A package and its direct dependencies, in insertion order.
pub struct PackageNode {
    pub name: String,
    pub dependencies: Vec<String>,
}

/// The dependency graph store.
pub struct DependencyGraph {
    pub nodes: Vec<PackageNode>,
}

/// The mathematical model of a store: each node as the pair of its
/// name and its dependency-name list.
pub type GraphView = Seq<(Seq<char>, Seq<Seq<char>>)>;

impl View for PackageNode {
    type V = (Seq<char>, Seq<Seq<char>>);

    open spec fn view(&self) -> Self::V {
        (self.name@, self.dependencies.deep_view())
    }
}

impl View for DependencyGraph {
    type V = GraphView;

    open spec fn view(&self) -> GraphView {
        self.nodes@.map_values(|n: PackageNode| n@)
    }
}

/// The names of the nodes of `g`, in store order.
pub open spec fn names_of(g: GraphView) -> Seq<Seq<char>> {
    g.map_values(|p: (Seq<char>, Seq<Seq<char>>)| p.0)
}

/// Whether `g` has a node named `n`.
pub open spec fn has_name(g: GraphView, n: Seq<char>) -> bool {
    names_of(g).contains(n)
}

/// The dependency list of the node named `n`, or the empty sequence
/// where no such node exists.
pub open spec fn deps_of(g: GraphView, n: Seq<char>) -> Seq<Seq<char>> {
    match names_of(g).index_of_first(n) {
        Option::Some(i) => g[i].1,
        Option::None => Seq::empty(),
    }
}

/// Whether `g` has a direct edge from `p` to `d`.
pub open spec fn has_edge(g: GraphView, p: Seq<char>, d: Seq<char>) -> bool {
    has_name(g, p) && deps_of(g, p).contains(d)
}

/// Store invariant: names are pairwise distinct, no dependency list
/// holds a duplicate, and every dependency name exists as a node.
pub open spec fn wf_view(g: GraphView) -> bool {
    &&& forall|i: int, j: int| 0 <= i < j < g.len() ==> (#[trigger] g[i].0) != (#[trigger] g[j].0)
    &&& forall|i: int, a: int, b: int|
        0 <= i < g.len() && 0 <= a < b < g[i].1.len() ==> (#[trigger] g[i].1[a]) != (
        #[trigger] g[i].1[b])
    &&& forall|i: int, a: int|
        0 <= i < g.len() && 0 <= a < g[i].1.len() ==> has_name(g, #[trigger] g[i].1[a])
}

/// `g` with a node named `n`, added empty at the back if absent.
pub open spec fn spec_ensure_node(g: GraphView, n: Seq<char>) -> GraphView {
    if has_name(g, n) {
        g
    } else {
        g.push((n, Seq::empty()))
    }
}

/// `g` with both endpoints present and `d` appended to the dependency
/// list of `p` unless already there.
pub open spec fn spec_add_edge(g: GraphView, p: Seq<char>, d: Seq<char>) -> GraphView {
    let g2 = spec_ensure_node(spec_ensure_node(g, p), d);
    match names_of(g2).index_of_first(p) {
        Option::Some(i) => if g2[i].1.contains(d) {
            g2
        } else {
            g2.update(i, (p, g2[i].1.push(d)))
        },
        Option::None => g2,
    }
}

/// The first store position of the node named `n`, with the facts that
/// position carries.
pub proof fn lemma_first_index(g: GraphView, n: Seq<char>)
    ensures
        match names_of(g).index_of_first(n) {
            Option::Some(i) => 0 <= i < g.len() && g[i].0 == n && (forall|m: int|
                0 <= m < i ==> (#[trigger] g[m].0) != n),
            Option::None => forall|m: int| 0 <= m < g.len() ==> (#[trigger] g[m].0) != n,
        },
{
    names_of(g).index_of_first_ensures(n);
    assert(forall|m: int| 0 <= m < g.len() ==> names_of(g)[m] == (#[trigger] g[m].0));
    if names_of(g).index_of_first(n) is None {
        assert forall|m: int| 0 <= m < g.len() implies (#[trigger] g[m].0) != n by {
            if g[m].0 == n {
                assert(names_of(g)[m] == n);
            }
        }
    }
}

/// Presence of a name is witnessed by a store position.
pub proof fn lemma_has_name_index(g: GraphView, n: Seq<char>, i: int)
    requires
        0 <= i < g.len(),
        g[i].0 == n,
    ensures
        has_name(g, n),
{
    assert(names_of(g)[i] == n);
}

/// A name that is absent has the empty dependency list.
pub proof fn lemma_absent_deps(g: GraphView, n: Seq<char>)
    requires
        !has_name(g, n),
    ensures
        deps_of(g, n) == Seq::<Seq<char>>::empty(),
{
    lemma_first_index(g, n);
    match names_of(g).index_of_first(n) {
        Option::Some(i) => {
            lemma_has_name_index(g, n, i);
        },
        Option::None => {},
    }
}

/// What ensuring a node does to the model: it adds the name if absent
/// and changes no dependency list.
pub proof fn lemma_ensure_node_props(g: GraphView, n: Seq<char>)
    requires
        wf_view(g),
    ensures
        wf_view(spec_ensure_node(g, n)),
        forall|x: Seq<char>| #[trigger]
            has_name(spec_ensure_node(g, n), x) <==> has_name(g, x) || x == n,
        forall|x: Seq<char>| #[trigger] deps_of(spec_ensure_node(g, n), x) == deps_of(g, x),
{
    let g1 = spec_ensure_node(g, n);
    if has_name(g, n) {
        assert(g1 == g);
    } else {
        assert(g1 == g.push((n, Seq::<Seq<char>>::empty())));
        assert forall|x: Seq<char>| #[trigger]
            has_name(g1, x) <==> has_name(g, x) || x == n by {
            if has_name(g1, x) {
                let i = choose|i: int| 0 <= i < names_of(g1).len() && names_of(g1)[i] == x;
                if i < g.len() {
                    assert(names_of(g)[i] == x);
                } else {
                    assert(g1[i].0 == n);
                }
            }
            if has_name(g, x) {
                let i = choose|i: int| 0 <= i < names_of(g).len() && names_of(g)[i] == x;
                assert(names_of(g1)[i] == x);
            }
            if x == n {
                assert(names_of(g1)[g.len() as int] == n);
            }
        }
        assert forall|x: Seq<char>| #[trigger] deps_of(g1, x) == deps_of(g, x) by {
            lemma_first_index(g, x);
            lemma_first_index(g1, x);
            match names_of(g).index_of_first(x) {
                Option::Some(i) => {
                    match names_of(g1).index_of_first(x) {
                        Option::Some(k) => {
                            if k < i {
                                assert(g[k].0 != x);
                                assert(g1[k].0 == g[k].0);
                            }
                            if i < k {
                                assert(g1[i].0 == g[i].0 && g[i].0 == x);
                            }
                            assert(k == i);
                            assert(g1[i].1 == g[i].1);
                        },
                        Option::None => {
                            assert(g1[i].0 == x);
                        },
                    }
                },
                Option::None => {
                    assert(!has_name(g, x));
                    match names_of(g1).index_of_first(x) {
                        Option::Some(k) => {
                            // only the fresh node can carry x, and it is empty
                            assert(k == g.len());
                            assert(g1[k].1 =~= Seq::<Seq<char>>::empty());
                        },
                        Option::None => {},
                    }
                },
            }
        }
        assert forall|i: int, j: int|
            0 <= i < j < g1.len() implies (#[trigger] g1[i].0) != (#[trigger] g1[j].0) by {
            if j < g.len() {
                assert(g1[i].0 == g[i].0 && g1[j].0 == g[j].0);
            } else {
                assert(g1[j].0 == n);
                assert(g1[i].0 == g[i].0);
                if g[i].0 == n {
                    lemma_has_name_index(g, n, i);
                }
            }
        }
        assert forall|i: int, a: int|
            0 <= i < g1.len() && 0 <= a < g1[i].1.len() implies has_name(
            g1,
            #[trigger] g1[i].1[a],
        ) by {
            assert(i < g.len());
            assert(g1[i].1 == g[i].1);
            assert(has_name(g, g[i].1[a]));
        }
        assert(wf_view(g1)) by {
            assert(forall|i: int, a: int, b: int|
                0 <= i < g1.len() && 0 <= a < b < g1[i].1.len() ==> (#[trigger] g1[i].1[a]) != (
                #[trigger] g1[i].1[b])) by {
                assert(forall|i: int| 0 <= i < g.len() ==> g1[i].1 == g[i].1);
            }
        }
    }
}

/// What edge insertion does to the model: both endpoints exist
/// afterwards, `d` is in the list of `p`, no other list changes, and
/// the edge set grows by exactly the pair (`p`, `d`).
pub proof fn lemma_add_edge_props(g: GraphView, p: Seq<char>, d: Seq<char>)
    requires
        wf_view(g),
    ensures
        wf_view(spec_add_edge(g, p, d)),
        forall|x: Seq<char>| #[trigger]
            has_name(spec_add_edge(g, p, d), x) <==> has_name(g, x) || x == p || x == d,
        deps_of(spec_add_edge(g, p, d), p) == if deps_of(g, p).contains(d) {
            deps_of(g, p)
        } else {
            deps_of(g, p).push(d)
        },
        forall|x: Seq<char>| x != p ==> #[trigger] deps_of(spec_add_edge(g, p, d), x) == deps_of(
            g,
            x,
        ),
        forall|a: Seq<char>, b: Seq<char>| #[trigger]
            has_edge(spec_add_edge(g, p, d), a, b) <==> has_edge(g, a, b) || (a == p && b == d),
{
    let g1 = spec_ensure_node(g, p);
    let g2 = spec_ensure_node(g1, d);
    let gr = spec_add_edge(g, p, d);
    lemma_ensure_node_props(g, p);
    lemma_ensure_node_props(g1, d);
    assert(has_name(g2, p));
    lemma_first_index(g2, p);
    let i = names_of(g2).index_of_first(p).unwrap();
    assert(g2[i].0 == p);
    assert(g2[i].1 == deps_of(g2, p));
    assert(deps_of(g2, p) == deps_of(g, p));
    if g2[i].1.contains(d) {
        assert(gr == g2);
    } else {
        assert(gr == g2.update(i, (p, g2[i].1.push(d))));
        assert(names_of(gr) =~= names_of(g2));
        assert forall|x: Seq<char>| #[trigger] has_name(gr, x) == has_name(g2, x) by {}
        // first indices agree because the name sequences are equal
        assert(forall|x: Seq<char>|
            names_of(gr).index_of_first(x) == #[trigger] names_of(g2).index_of_first(x));
        assert(deps_of(gr, p) == g2[i].1.push(d));
        assert forall|x: Seq<char>| x != p implies #[trigger] deps_of(gr, x) == deps_of(g2, x) by {
            lemma_first_index(g2, x);
            match names_of(g2).index_of_first(x) {
                Option::Some(k) => {
                    assert(g2[k].0 == x);
                    assert(k != i);
                    assert(gr[k] == g2[k]);
                },
                Option::None => {},
            }
        }
        assert(wf_view(gr)) by {
            assert forall|ii: int, jj: int|
                0 <= ii < jj < gr.len() implies (#[trigger] gr[ii].0) != (#[trigger] gr[jj].0) by {
                assert(gr[ii].0 == g2[ii].0 && gr[jj].0 == g2[jj].0);
            }
            assert forall|ii: int, a: int, b: int|
                0 <= ii < gr.len() && 0 <= a < b < gr[ii].1.len() implies (#[trigger] gr[ii].1[a])
                != (#[trigger] gr[ii].1[b]) by {
                if ii == i {
                    let old_list = g2[i].1;
                    assert(gr[i].1 == old_list.push(d));
                    if b < old_list.len() {
                        assert(g2[ii].1[a] != g2[ii].1[b]);
                    } else {
                        assert(gr[ii].1[b] == d);
                        assert(gr[ii].1[a] == old_list[a]);
                        if old_list[a] == d {
                            assert(old_list.contains(d));
                        }
                    }
                } else {
                    assert(gr[ii].1 == g2[ii].1);
                }
            }
            assert forall|ii: int, a: int|
                0 <= ii < gr.len() && 0 <= a < gr[ii].1.len() implies has_name(
                gr,
                #[trigger] gr[ii].1[a],
            ) by {
                if ii == i && a == g2[i].1.len() {
                    assert(gr[ii].1[a] == d);
                    assert(has_name(g2, d));
                } else {
                    assert(gr[ii].1[a] == g2[ii].1[a]);
                    assert(has_name(g2, g2[ii].1[a]));
                }
            }
        }
    }
    assert forall|a: Seq<char>, b: Seq<char>| #[trigger]
        has_edge(gr, a, b) <==> has_edge(g, a, b) || (a == p && b == d) by {
        if !has_name(g, a) {
            lemma_absent_deps(g, a);
        }
        if !has_name(gr, a) {
            lemma_absent_deps(gr, a);
        }
        if a == p {
            assert(deps_of(gr, p) == if deps_of(g, p).contains(d) {
                deps_of(g, p)
            } else {
                deps_of(g, p).push(d)
            });
            if !deps_of(g, p).contains(d) {
                let pushed = deps_of(g, p).push(d);
                assert(forall|m: int| 0 <= m < deps_of(g, p).len() ==> pushed[m] == #[trigger] deps_of(g, p)[m]);
                assert(pushed[deps_of(g, p).len() as int] == d);
                if deps_of(gr, p).contains(b) {
                    let m = choose|m: int| 0 <= m < pushed.len() && pushed[m] == b;
                    if m < deps_of(g, p).len() {
                        assert(deps_of(g, p)[m] == b);
                    } else {
                        assert(b == d);
                    }
                }
                if deps_of(g, p).contains(b) {
                    let m = choose|m: int| 0 <= m < deps_of(g, p).len() && deps_of(g, p)[m] == b;
                    assert(pushed[m] == b);
                }
                assert(pushed.contains(d));
            }
            if has_edge(g, p, b) {
                assert(deps_of(gr, p).contains(b));
            }
        } else {
            assert(deps_of(gr, a) == deps_of(g, a));
        }
    }
}

impl DependencyGraph {
    /// Store invariant, stated over the model.
    pub open spec fn wf(&self) -> bool {
        wf_view(self@)
    }

    /// An empty store.
    pub fn new() -> (g: Self)
        ensures
            g.wf(),
            g@ == Seq::<(Seq<char>, Seq<Seq<char>>)>::empty(),
    {
        let g = DependencyGraph { nodes: Vec::new() };
        proof {
            assert(g@ =~= Seq::<(Seq<char>, Seq<Seq<char>>)>::empty());
        }
        g
    }

    /// The first store position of the node named `key`, if any.
    pub(crate) fn find_node(&self, key: &String) -> (r: Option<usize>)
        ensures
            match r {
                Option::Some(i) => names_of(self@).index_of_first(key@) == Option::Some(i as int),
                Option::None => names_of(self@).index_of_first(key@) is None,
            },
    {
        let mut i: usize = 0;
        while i < self.nodes.len()
            invariant
                i <= self.nodes@.len(),
                forall|m: int| 0 <= m < i ==> (#[trigger] self@[m].0) != key@,
            decreases self.nodes@.len() - i,
        {
            proof {
                assert(self@[i as int].0 == self.nodes@[i as int].name@);
            }
            if self.nodes[i].name.eq(key) {
                proof {
                    lemma_first_index(self@, key@);
                    assert(names_of(self@)[i as int] == key@);
                    let k = names_of(self@).index_of_first(key@).unwrap();
                    if k < i {
                        assert(self@[k].0 != key@);
                    }
                    if (i as int) < k {
                        assert(self@[i as int].0 == key@);
                    }
                }
                return Some(i);
            }
            i = i + 1;
        }
        proof {
            lemma_first_index(self@, key@);
            if names_of(self@).index_of_first(key@) is Some {
                let k = names_of(self@).index_of_first(key@).unwrap();
                assert(self@[k].0 == key@);
            }
        }
        None
    }

    /// Inserts an empty node for `name` if absent; idempotent.
    pub fn ensure_node(&mut self, name: &str)
        requires
            old(self).wf(),
        ensures
            final(self).wf(),
            final(self)@ == spec_ensure_node(old(self)@, name@),
    {
        proof {
            lemma_ensure_node_props(old(self)@, name@);
        }
        let key = String::from_str(name);
        match self.find_node(&key) {
            Some(_) => {
                proof {
                    lemma_first_index(self@, key@);
                    let k = names_of(self@).index_of_first(key@).unwrap();
                    lemma_has_name_index(self@, key@, k);
                }
            },
            None => {
                proof {
                    lemma_first_index(self@, key@);
                    if has_name(self@, key@) {
                        let w = choose|w: int|
                            0 <= w < names_of(self@).len() && names_of(self@)[w] == key@;
                        assert(self@[w].0 == key@);
                    }
                }
                let node = PackageNode { name: key, dependencies: Vec::new() };
                let ghost prev = self@;
                self.nodes.push(node);
                proof {
                    assert(self@ =~~= prev.push((name@, Seq::<Seq<char>>::empty())));
                }
            },
        }
    }

    /// Ensures both endpoints exist, then appends `depends_on` to the
    /// dependency list of `package` unless already present; self-edges
    /// are permitted.
    pub fn add_edge(&mut self, package: &str, depends_on: &str)
        requires
            old(self).wf(),
        ensures
            final(self).wf(),
            final(self)@ == spec_add_edge(old(self)@, package@, depends_on@),
    {
        proof {
            lemma_add_edge_props(old(self)@, package@, depends_on@);
        }
        self.ensure_node(package);
        self.ensure_node(depends_on);
        let ghost g2 = self@;
        let pkey = String::from_str(package);
        match self.find_node(&pkey) {
            Some(i) => {
                let dkey = String::from_str(depends_on);
                proof {
                    lemma_first_index(g2, package@);
                    assert(self.nodes@[i as int].dependencies.deep_view() == g2[i as int].1);
                }
                if !vec_contains_string(&self.nodes[i].dependencies, &dkey) {
                    let ghost before = self@;
                    self.nodes[i].dependencies.push(dkey);
                    proof {
                        assert(self.nodes@[i as int].dependencies.deep_view() =~= g2[i as int].1
                            .push(depends_on@));
                        assert(self@ =~= g2.update(
                            i as int,
                            (package@, g2[i as int].1.push(depends_on@)),
                        ));
                    }
                } else {
                    proof {
                        assert(self@ =~= g2);
                    }
                }
            },
            None => {
                proof {
                    lemma_first_index(g2, package@);
                    lemma_ensure_node_props(old(self)@, package@);
                    lemma_ensure_node_props(spec_ensure_node(old(self)@, package@), depends_on@);
                    assert(has_name(g2, package@));
                    let w = choose|w: int|
                        0 <= w < names_of(g2).len() && names_of(g2)[w] == package@;
                    assert(g2[w].0 == package@);
                    assert(false);
                }
            },
        }
    }
}

/// `g` after inserting one edge from `p` to each name of `ds`, in
/// list order.
pub open spec fn spec_add_deps(g: GraphView, p: Seq<char>, ds: Seq<Seq<char>>) -> GraphView
    decreases ds.len(),
{
    if ds.len() == 0 {
        g
    } else {
        spec_add_deps(spec_add_edge(g, p, ds[0]), p, ds.drop_first())
    }
}

/// `g` after loading every (package, dependency-list) entry, in entry
/// order: the package node is ensured, then each listed dependency
/// becomes an edge.
pub open spec fn spec_load(g: GraphView, entries: Seq<(Seq<char>, Seq<Seq<char>>)>) -> GraphView
    decreases entries.len(),
{
    if entries.len() == 0 {
        g
    } else {
        spec_load(
            spec_add_deps(spec_ensure_node(g, entries[0].0), entries[0].0, entries[0].1),
            entries.drop_first(),
        )
    }
}

/// `acc` after inserting one back edge `ds[m]` -> `p` for each listed
/// dependency, in list order.
pub open spec fn spec_rev_node(acc: GraphView, p: Seq<char>, ds: Seq<Seq<char>>) -> GraphView
    decreases ds.len(),
{
    if ds.len() == 0 {
        acc
    } else {
        spec_rev_node(spec_add_edge(acc, ds[0], p), p, ds.drop_first())
    }
}

/// The reverse index accumulated over the first `k` nodes of `g`.
pub open spec fn spec_rev_upto(g: GraphView, k: int) -> GraphView
    decreases k,
{
    if k <= 0 {
        Seq::empty()
    } else {
        spec_rev_node(spec_rev_upto(g, k - 1), g[k - 1].0, g[k - 1].1)
    }
}

/// The reverse index of `g`: who depends on each package.
pub open spec fn spec_reverse(g: GraphView) -> GraphView {
    spec_rev_upto(g, g.len() as int)
}

impl DependencyGraph {
    /// Ensures every package of the mapping and adds one edge per
    /// listed dependency, in entry and list order.
    pub fn load_from_map(&mut self, map: &Vec<(String, Vec<String>)>)
        requires
            old(self).wf(),
        ensures
            final(self).wf(),
            final(self)@ == spec_load(old(self)@, map.deep_view()),
    {
        let ghost entries = map.deep_view();
        let mut k: usize = 0;
        proof {
            assert(entries.skip(0) =~= entries);
        }
        while k < map.len()
            invariant
                self.wf(),
                k <= map@.len(),
                entries == map.deep_view(),
                spec_load(old(self)@, entries) == spec_load(self@, entries.skip(k as int)),
            decreases map@.len() - k,
        {
            let ghost rest = entries.skip(k as int);
            proof {
                assert(entries[k as int] == (map@[k as int].0@, map@[k as int].1.deep_view()));
                assert(rest[0] == entries[k as int]);
                assert(rest.drop_first() =~= entries.skip(k + 1));
            }
            self.ensure_node(map[k].0.as_str());
            let ghost ge = self@;
            let ghost p = entries[k as int].0;
            let ghost ds = entries[k as int].1;
            let mut t: usize = 0;
            proof {
                assert(ds.skip(0) =~= ds);
            }
            while t < map[k].1.len()
                invariant
                    self.wf(),
                    k < map@.len(),
                    t <= map@[k as int].1@.len(),
                    p == map@[k as int].0@,
                    ds == map@[k as int].1.deep_view(),
                    spec_add_deps(ge, p, ds) == spec_add_deps(self@, p, ds.skip(t as int)),
                decreases map@[k as int].1@.len() - t,
            {
                let ghost drest = ds.skip(t as int);
                proof {
                    assert(drest[0] == ds[t as int]);
                    assert(ds[t as int] == map@[k as int].1@[t as int]@);
                    assert(drest.drop_first() =~= ds.skip(t + 1));
                }
                self.add_edge(map[k].0.as_str(), map[k].1[t].as_str());
                t = t + 1;
            }
            proof {
                assert(ds.skip(ds.len() as int) =~= Seq::<Seq<char>>::empty());
                assert(spec_add_deps(self@, p, Seq::empty()) == self@);
            }
            k = k + 1;
        }
        proof {
            assert(entries.skip(entries.len() as int) =~= Seq::<(Seq<char>, Seq<Seq<char>>)>::empty());
        }
    }

    /// Derives the reverse adjacency from the store: for every stored
    /// edge p -> d, the result holds the back edge d -> p.
    pub fn build_reverse_index(&self) -> (r: DependencyGraph)
        requires
            self.wf(),
        ensures
            r.wf(),
            r@ == spec_reverse(self@),
    {
        let mut r = DependencyGraph::new();
        let mut k: usize = 0;
        while k < self.nodes.len()
            invariant
                self.wf(),
                r.wf(),
                k <= self.nodes@.len(),
                r@ == spec_rev_upto(self@, k as int),
            decreases self.nodes@.len() - k,
        {
            let ghost base = spec_rev_upto(self@, k + 1);
            let ghost p = self@[k as int].0;
            let ghost ds = self@[k as int].1;
            proof {
                assert(p == self.nodes@[k as int].name@);
                assert(ds == self.nodes@[k as int].dependencies.deep_view());
                assert(ds.skip(0) =~= ds);
            }
            let mut t: usize = 0;
            while t < self.nodes[k].dependencies.len()
                invariant
                    self.wf(),
                    r.wf(),
                    k < self.nodes@.len(),
                    t <= self.nodes@[k as int].dependencies@.len(),
                    p == self@[k as int].0,
                    ds == self@[k as int].1,
                    p == self.nodes@[k as int].name@,
                    ds == self.nodes@[k as int].dependencies.deep_view(),
                    spec_rev_node(spec_rev_upto(self@, k as int), p, ds) == spec_rev_node(
                        r@,
                        p,
                        ds.skip(t as int),
                    ),
                decreases self.nodes@[k as int].dependencies@.len() - t,
            {
                let ghost drest = ds.skip(t as int);
                proof {
                    assert(drest[0] == ds[t as int]);
                    assert(ds[t as int] == self.nodes@[k as int].dependencies@[t as int]@);
                    assert(drest.drop_first() =~= ds.skip(t + 1));
                }
                r.add_edge(self.nodes[k].dependencies[t].as_str(), self.nodes[k].name.as_str());
                t = t + 1;
            }
            proof {
                assert(ds.skip(ds.len() as int) =~= Seq::<Seq<char>>::empty());
                assert(spec_rev_node(r@, p, Seq::empty()) == r@);
            }
            k = k + 1;
        }
        r
    }
}

/// `g` with the node named `n` present and its dependency list
/// emptied, ready for a wholesale replacement.
pub open spec fn spec_replace_node(g: GraphView, n: Seq<char>) -> GraphView {
    let g1 = spec_ensure_node(g, n);
    match names_of(g1).index_of_first(n) {
        Option::Some(i) => g1.update(i, (n, Seq::empty())),
        Option::None => g1,
    }
}

/// `g` with the node named `n` carrying exactly the given list,
/// duplicates collapsed, every listed name ensured as a node: the
/// wholesale-replace counterpart of the accumulating [`spec_add_edge`].
pub open spec fn spec_add_package(g: GraphView, n: Seq<char>, ds: Seq<Seq<char>>) -> GraphView {
    spec_add_deps(spec_replace_node(g, n), n, ds)
}

proof fn lemma_clear_node(g1: GraphView, i: int, n: Seq<char>)
    requires
        wf_view(g1),
        0 <= i < g1.len(),
        g1[i].0 == n,
    ensures
        wf_view(g1.update(i, (n, Seq::<Seq<char>>::empty()))),
{
    let gr = g1.update(i, (n, Seq::<Seq<char>>::empty()));
    assert(names_of(gr) =~= names_of(g1));
    assert forall|ii: int, jj: int|
        0 <= ii < jj < gr.len() implies (#[trigger] gr[ii].0) != (#[trigger] gr[jj].0) by {
        assert(gr[ii].0 == g1[ii].0 && gr[jj].0 == g1[jj].0);
    }
    assert forall|ii: int, a: int, b: int|
        0 <= ii < gr.len() && 0 <= a < b < gr[ii].1.len() implies (#[trigger] gr[ii].1[a]) != (
        #[trigger] gr[ii].1[b]) by {
        assert(ii != i);
        assert(gr[ii].1 == g1[ii].1);
    }
    assert forall|ii: int, a: int|
        0 <= ii < gr.len() && 0 <= a < gr[ii].1.len() implies has_name(
        gr,
        #[trigger] gr[ii].1[a],
    ) by {
        assert(ii != i);
        assert(gr[ii].1 == g1[ii].1);
        assert(has_name(g1, g1[ii].1[a]));
    }
}

impl DependencyGraph {
    /// Replaces the node named `name` wholesale with the given list:
    /// any prior dependency list of that node is discarded, every
    /// listed name is ensured as a node, and duplicates in the list
    /// collapse.  Distinct from [`DependencyGraph::add_edge`], which
    /// accumulates.
    pub fn add_package(&mut self, name: &str, dependency_list: &Vec<String>)
        requires
            old(self).wf(),
        ensures
            final(self).wf(),
            final(self)@ == spec_add_package(old(self)@, name@, dependency_list.deep_view()),
    {
        proof {
            lemma_ensure_node_props(old(self)@, name@);
        }
        self.ensure_node(name);
        let key = String::from_str(name);
        match self.find_node(&key) {
            Some(i) => {
                let ghost g1 = self@;
                proof {
                    lemma_first_index(g1, name@);
                    lemma_clear_node(g1, i as int, name@);
                }
                self.nodes[i].dependencies = Vec::new();
                proof {
                    assert(self@ =~~= g1.update(i as int, (name@, Seq::<Seq<char>>::empty())));
                }
            },
            None => {
                proof {
                    lemma_first_index(self@, name@);
                    assert(has_name(self@, name@));
                    let w = choose|w: int|
                        0 <= w < names_of(self@).len() && names_of(self@)[w] == name@;
                    assert(self@[w].0 == name@);
                    assert(false);
                }
            },
        }
        let ghost base = self@;
        let ghost ds = dependency_list.deep_view();
        let mut t: usize = 0;
        proof {
            assert(ds.skip(0) =~= ds);
        }
        while t < dependency_list.len()
            invariant
                self.wf(),
                t <= dependency_list@.len(),
                ds == dependency_list.deep_view(),
                spec_add_deps(base, name@, ds) == spec_add_deps(self@, name@, ds.skip(t as int)),
            decreases dependency_list@.len() - t,
        {
            let ghost drest = ds.skip(t as int);
            proof {
                assert(drest[0] == ds[t as int]);
                assert(ds[t as int] == dependency_list@[t as int]@);
                assert(drest.drop_first() =~= ds.skip(t + 1));
            }
            self.add_edge(name, dependency_list[t].as_str());
            t = t + 1;
        }
        proof {
            assert(ds.skip(ds.len() as int) =~= Seq::<Seq<char>>::empty());
            assert(spec_add_deps(self@, name@, Seq::empty()) == self@);
        }
    }
}

/// Inserting the same edge twice yields the same store as inserting it
/// once.
pub proof fn lemma_add_edge_idempotent(g: GraphView, p: Seq<char>, d: Seq<char>)
    requires
        wf_view(g),
    ensures
        spec_add_edge(spec_add_edge(g, p, d), p, d) == spec_add_edge(g, p, d),
{
    lemma_add_edge_props(g, p, d);
    let g1 = spec_add_edge(g, p, d);
    assert(has_name(g1, p) && has_name(g1, d));
    assert(spec_ensure_node(spec_ensure_node(g1, p), d) == g1);
    lemma_first_index(g1, p);
    match names_of(g1).index_of_first(p) {
        Option::Some(i) => {
            assert(g1[i].1 == deps_of(g1, p));
            assert(deps_of(g1, p).contains(d)) by {
                if !deps_of(g, p).contains(d) {
                    assert(deps_of(g1, p) == deps_of(g, p).push(d));
                    assert(deps_of(g, p).push(d)[deps_of(g, p).len() as int] == d);
                }
            }
        },
        Option::None => {
            let w = choose|w: int| 0 <= w < names_of(g1).len() && names_of(g1)[w] == p;
            assert(g1[w].0 == p);
        },
    }
}

proof fn lemma_contains_drop_first<A>(s: Seq<A>, x: A)
    requires
        s.len() > 0,
    ensures
        s.contains(x) <==> s[0] == x || s.drop_first().contains(x),
{
    if s.contains(x) {
        let m = choose|m: int| 0 <= m < s.len() && s[m] == x;
        if m > 0 {
            assert(s.drop_first()[m - 1] == x);
        }
    }
    if s.drop_first().contains(x) {
        let m = choose|m: int| 0 <= m < s.drop_first().len() && s.drop_first()[m] == x;
        assert(s[m + 1] == x);
    }
}

proof fn lemma_rev_node_edges(acc: GraphView, p: Seq<char>, ds: Seq<Seq<char>>)
    requires
        wf_view(acc),
    ensures
        wf_view(spec_rev_node(acc, p, ds)),
        forall|a: Seq<char>, b: Seq<char>| #[trigger]
            has_edge(spec_rev_node(acc, p, ds), a, b) <==> has_edge(acc, a, b) || (b == p
                && ds.contains(a)),
    decreases ds.len(),
{
    let res = spec_rev_node(acc, p, ds);
    if ds.len() == 0 {
        assert forall|a: Seq<char>, b: Seq<char>| #[trigger]
            has_edge(res, a, b) <==> has_edge(acc, a, b) || (b == p && ds.contains(a)) by {
            if ds.contains(a) {
                let m = choose|m: int| 0 <= m < ds.len() && ds[m] == a;
            }
        }
    } else {
        let acc1 = spec_add_edge(acc, ds[0], p);
        lemma_add_edge_props(acc, ds[0], p);
        lemma_rev_node_edges(acc1, p, ds.drop_first());
        assert forall|a: Seq<char>, b: Seq<char>| #[trigger]
            has_edge(res, a, b) <==> has_edge(acc, a, b) || (b == p && ds.contains(a)) by {
            lemma_contains_drop_first(ds, a);
            assert(has_edge(res, a, b) <==> has_edge(acc1, a, b) || (b == p
                && ds.drop_first().contains(a)));
            assert(has_edge(acc1, a, b) <==> has_edge(acc, a, b) || (a == ds[0] && b == p));
        }
    }
}

proof fn lemma_rev_upto_edges(g: GraphView, k: int)
    requires
        wf_view(g),
        0 <= k <= g.len(),
    ensures
        wf_view(spec_rev_upto(g, k)),
        forall|a: Seq<char>, b: Seq<char>| #[trigger]
            has_edge(spec_rev_upto(g, k), a, b) <==> exists|i: int, m: int|
                0 <= i < k && 0 <= m < g[i].1.len() && g[i].0 == b && #[trigger] g[i].1[m] == a,
    decreases k,
{
    let res = spec_rev_upto(g, k);
    if k <= 0 {
        assert(names_of(res).len() == 0);
        assert forall|a: Seq<char>, b: Seq<char>| #[trigger]
            has_edge(res, a, b) <==> exists|i: int, m: int|
                0 <= i < k && 0 <= m < g[i].1.len() && g[i].0 == b && #[trigger] g[i].1[m]
                    == a by {
            if has_edge(res, a, b) {
                let w = choose|w: int| 0 <= w < names_of(res).len() && names_of(res)[w] == a;
            }
        }
    } else {
        let prev = spec_rev_upto(g, k - 1);
        lemma_rev_upto_edges(g, k - 1);
        lemma_rev_node_edges(prev, g[k - 1].0, g[k - 1].1);
        assert forall|a: Seq<char>, b: Seq<char>| #[trigger]
            has_edge(res, a, b) <==> exists|i: int, m: int|
                0 <= i < k && 0 <= m < g[i].1.len() && g[i].0 == b && #[trigger] g[i].1[m]
                    == a by {
            assert(has_edge(res, a, b) <==> has_edge(prev, a, b) || (b == g[k - 1].0 && g[k
                - 1].1.contains(a)));
            if has_edge(res, a, b) {
                if has_edge(prev, a, b) {
                    let (i, m) = choose|i: int, m: int|
                        0 <= i < k - 1 && 0 <= m < g[i].1.len() && g[i].0 == b
                            && #[trigger] g[i].1[m] == a;
                    assert(0 <= i < k && 0 <= m < g[i].1.len() && g[i].0 == b && g[i].1[m] == a);
                } else {
                    let m = choose|m: int| 0 <= m < g[k - 1].1.len() && #[trigger] g[k - 1].1[m] == a;
                    assert(0 <= k - 1 < k && 0 <= m < g[k - 1].1.len() && g[k - 1].0 == b && g[k
                        - 1].1[m] == a);
                }
            }
            if exists|i: int, m: int|
                0 <= i < k && 0 <= m < g[i].1.len() && g[i].0 == b && #[trigger] g[i].1[m] == a {
                let (i, m) = choose|i: int, m: int|
                    0 <= i < k && 0 <= m < g[i].1.len() && g[i].0 == b && #[trigger] g[i].1[m]
                        == a;
                if i < k - 1 {
                    assert(has_edge(prev, a, b));
                } else {
                    assert(g[k - 1].1.contains(a));
                }
            }
        }
    }
}

/// The derived reverse index is the edge reversal of the store: it has
/// an edge from `a` to `b` exactly where the store has one from `b` to
/// `a`.
pub proof fn lemma_reverse_edges(g: GraphView)
    requires
        wf_view(g),
    ensures
        wf_view(spec_reverse(g)),
        forall|a: Seq<char>, b: Seq<char>| #[trigger]
            has_edge(spec_reverse(g), a, b) <==> has_edge(g, b, a),
{
    lemma_rev_upto_edges(g, g.len() as int);
    assert forall|a: Seq<char>, b: Seq<char>| #[trigger]
        has_edge(spec_reverse(g), a, b) <==> has_edge(g, b, a) by {
        if has_edge(spec_reverse(g), a, b) {
            let (i, m) = choose|i: int, m: int|
                0 <= i < g.len() && 0 <= m < g[i].1.len() && g[i].0 == b && #[trigger] g[i].1[m]
                    == a;
            lemma_has_name_index(g, b, i);
            lemma_first_index(g, b);
            let f = names_of(g).index_of_first(b).unwrap();
            assert(g[f].0 == b);
            if f < i {
                assert(g[f].0 != g[i].0);
            }
            if i < f {
                assert(g[i].0 != b);
            }
            assert(f == i);
            assert(deps_of(g, b) == g[i].1);
            assert(deps_of(g, b).contains(a));
        }
        if has_edge(g, b, a) {
            lemma_first_index(g, b);
            match names_of(g).index_of_first(b) {
                Option::Some(i) => {
                    assert(deps_of(g, b) == g[i].1);
                    let m = choose|m: int| 0 <= m < g[i].1.len() && g[i].1[m] == a;
                    assert(0 <= i < g.len() && 0 <= m < g[i].1.len() && g[i].0 == b && g[i].1[m]
                        == a);
                },
                Option::None => {
                    let w = choose|w: int| 0 <= w < names_of(g).len() && names_of(g)[w] == b;
                    assert(g[w].0 == b);
                },
            }
        }
    }
}

} // verus!
