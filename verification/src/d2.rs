//! Export of the store to a diagram edge-list text: a layout header,
//! one declaration line per node, and one line per unique edge, with
//! node identifiers sanitized to `[A-Za-z0-9_]`.

use crate::graph::{
    deps_of, has_edge, has_name, lemma_first_index, lemma_has_name_index, wf_view,
    DependencyGraph, GraphView,
};
use crate::text::push_char;
use vstd::prelude::*;
use vstd::string::*;

verus! {

/// The characters kept by identifier sanitization.
pub open spec fn is_ident_char(c: char) -> bool {
    let u = c as u32;
    (97 <= u && u <= 122) || (65 <= u && u <= 90) || (48 <= u && u <= 57) || u == 95
}

/// One sanitized character.
pub open spec fn sanitize_char(c: char) -> char {
    if is_ident_char(c) {
        c
    } else {
        '_'
    }
}

/// The diagram identifier of a display name: every character outside
/// `[A-Za-z0-9_]` becomes an underscore, and an empty name falls back
/// to the single underscore.
pub open spec fn spec_sanitize(s: Seq<char>) -> Seq<char> {
    if s.len() == 0 {
        "_"@
    } else {
        s.map_values(|c: char| sanitize_char(c))
    }
}

/// Sanitizes one display name into a diagram identifier.
pub fn sanitize(s: &str) -> (r: String)
    ensures
        r@ == spec_sanitize(s@),
{
    let len = s.unicode_len();
    if len == 0 {
        return String::from_str("_");
    }
    let mut out = String::new();
    let mut i: usize = 0;
    proof {
        assert(s@.take(0).map_values(|c: char| sanitize_char(c)) =~= Seq::<char>::empty());
    }
    while i < len
        invariant
            len == s@.len(),
            i <= len,
            out@ == s@.take(i as int).map_values(|c: char| sanitize_char(c)),
        decreases len - i,
    {
        let c = s.get_char(i);
        let u = c as u32;
        let keep = (97 <= u && u <= 122) || (65 <= u && u <= 90) || (48 <= u && u <= 57) || u
            == 95;
        if keep {
            push_char(&mut out, c);
        } else {
            push_char(&mut out, '_');
        }
        proof {
            assert(s@.take(i + 1).map_values(|c: char| sanitize_char(c)) =~= s@.take(
                i as int,
            ).map_values(|c: char| sanitize_char(c)).push(sanitize_char(s@[i as int])));
        }
        i = i + 1;
    }
    proof {
        assert(s@.take(len as int) =~= s@);
    }
    out
}

/// `ps` with `p` appended unless already present.
pub open spec fn insert_unique(
    ps: Seq<(Seq<char>, Seq<char>)>,
    p: (Seq<char>, Seq<char>),
) -> Seq<(Seq<char>, Seq<char>)> {
    if ps.contains(p) {
        ps
    } else {
        ps.push(p)
    }
}

/// The written pair of one stored edge: (package, dependency) forward
/// and swapped in reverse.
pub open spec fn pair_of(name: Seq<char>, d: Seq<char>, reverse: bool) -> (Seq<char>, Seq<char>) {
    if reverse {
        (d, name)
    } else {
        (name, d)
    }
}

/// The edge pairs contributed by one node, threaded through the dedup
/// set.
pub open spec fn node_pairs(
    acc: Seq<(Seq<char>, Seq<char>)>,
    name: Seq<char>,
    ds: Seq<Seq<char>>,
    reverse: bool,
) -> Seq<(Seq<char>, Seq<char>)>
    decreases ds.len(),
{
    if ds.len() == 0 {
        acc
    } else {
        node_pairs(insert_unique(acc, pair_of(name, ds[0], reverse)), name, ds.drop_first(), reverse)
    }
}

/// The dedup set accumulated over the first `k` nodes of the store.
pub open spec fn pairs_upto(g: GraphView, reverse: bool, k: int) -> Seq<(Seq<char>, Seq<char>)>
    decreases k,
{
    if k <= 0 {
        Seq::empty()
    } else {
        node_pairs(pairs_upto(g, reverse, k - 1), g[k - 1].0, g[k - 1].1, reverse)
    }
}

/// The deduplicated edge pairs of the export, in first-encounter
/// order.
pub open spec fn edge_pairs(g: GraphView, reverse: bool) -> Seq<(Seq<char>, Seq<char>)> {
    pairs_upto(g, reverse, g.len() as int)
}

/// The node declaration lines for the first `k` nodes, in store order.
pub open spec fn decl_lines(g: GraphView, k: int) -> Seq<char>
    decreases k,
{
    if k <= 0 {
        Seq::empty()
    } else {
        decl_lines(g, k - 1) + spec_sanitize(g[k - 1].0) + ": "@ + g[k - 1].0 + "\n"@
    }
}

/// One line per edge pair, identifiers sanitized.
pub open spec fn edge_lines(ps: Seq<(Seq<char>, Seq<char>)>) -> Seq<char>
    decreases ps.len(),
{
    if ps.len() == 0 {
        Seq::empty()
    } else {
        edge_lines(ps.drop_last()) + spec_sanitize(ps.last().0) + " -> "@ + spec_sanitize(
            ps.last().1,
        ) + "\n"@
    }
}

/// The full diagram text: header, node declarations, a blank line,
/// then the edge lines.
pub open spec fn d2_text(g: GraphView, reverse: bool) -> Seq<char> {
    "direction: right\n\n"@ + decl_lines(g, g.len() as int) + "\n"@ + edge_lines(
        edge_pairs(g, reverse),
    )
}

/// Whether the pair list already holds `p`.
fn pair_in(v: &Vec<(String, String)>, p: &(String, String)) -> (r: bool)
    ensures
        r == v.deep_view().contains((p.0@, p.1@)),
{
    let mut i: usize = 0;
    while i < v.len()
        invariant
            i <= v.len(),
            forall|m: int| 0 <= m < i ==> (#[trigger] v.deep_view()[m]) != (p.0@, p.1@),
        decreases v.len() - i,
    {
        proof {
            assert(v.deep_view()[i as int] == (v@[i as int].0@, v@[i as int].1@));
        }
        if v[i].0.eq(&p.0) && v[i].1.eq(&p.1) {
            return true;
        }
        i = i + 1;
    }
    proof {
        if v.deep_view().contains((p.0@, p.1@)) {
            let m = choose|m: int|
                0 <= m < v.deep_view().len() && v.deep_view()[m] == (p.0@, p.1@);
        }
    }
    false
}

/// Renders the store as a diagram document, forward or with every
/// edge swapped.
pub fn to_d2(graph: &DependencyGraph, reverse: bool) -> (r: String)
    ensures
        r@ == d2_text(graph@, reverse),
{
    let ghost g = graph@;
    let mut edges: Vec<(String, String)> = Vec::new();
    let mut k: usize = 0;
    proof {
        assert(edges.deep_view() =~= Seq::<(Seq<char>, Seq<char>)>::empty());
    }
    while k < graph.nodes.len()
        invariant
            g == graph@,
            k <= graph.nodes@.len(),
            edges.deep_view() == pairs_upto(g, reverse, k as int),
        decreases graph.nodes@.len() - k,
    {
        let ghost base = pairs_upto(g, reverse, k as int);
        let ghost name = g[k as int].0;
        let ghost ds = g[k as int].1;
        proof {
            assert(name == graph.nodes@[k as int].name@);
            assert(ds == graph.nodes@[k as int].dependencies.deep_view());
            assert(ds.skip(0) =~= ds);
        }
        let mut t: usize = 0;
        while t < graph.nodes[k].dependencies.len()
            invariant
                g == graph@,
                k < graph.nodes@.len(),
                t <= graph.nodes@[k as int].dependencies@.len(),
                name == g[k as int].0,
                ds == g[k as int].1,
                name == graph.nodes@[k as int].name@,
                ds == graph.nodes@[k as int].dependencies.deep_view(),
                node_pairs(base, name, ds, reverse) == node_pairs(
                    edges.deep_view(),
                    name,
                    ds.skip(t as int),
                    reverse,
                ),
            decreases graph.nodes@[k as int].dependencies@.len() - t,
        {
            let ghost drest = ds.skip(t as int);
            proof {
                assert(drest[0] == ds[t as int]);
                assert(ds[t as int] == graph.nodes@[k as int].dependencies@[t as int]@);
                assert(drest.drop_first() =~= ds.skip(t + 1));
            }
            let dep = graph.nodes[k].dependencies[t].clone();
            let nm = graph.nodes[k].name.clone();
            let pr = if reverse {
                (dep, nm)
            } else {
                (nm, dep)
            };
            let ghost prv = (pr.0@, pr.1@);
            if !pair_in(&edges, &pr) {
                let ghost before = edges.deep_view();
                edges.push(pr);
                proof {
                    assert(edges.deep_view() =~= before.push(prv));
                }
            }
            t = t + 1;
        }
        proof {
            assert(ds.skip(ds.len() as int) =~= Seq::<Seq<char>>::empty());
            assert(node_pairs(edges.deep_view(), name, Seq::empty(), reverse)
                == edges.deep_view());
        }
        k = k + 1;
    }
    proof {
        assert(edges.deep_view() == edge_pairs(g, reverse));
    }
    let mut out = String::from_str("direction: right\n\n");
    let mut d: usize = 0;
    proof {
        assert(out@ + decl_lines(g, 0) =~= out@);
    }
    while d < graph.nodes.len()
        invariant
            g == graph@,
            d <= graph.nodes@.len(),
            out@ == "direction: right\n\n"@ + decl_lines(g, d as int),
        decreases graph.nodes@.len() - d,
    {
        proof {
            assert(g[d as int].0 == graph.nodes@[d as int].name@);
        }
        let ident = sanitize(graph.nodes[d].name.as_str());
        out.append(ident.as_str());
        out.append(": ");
        out.append(graph.nodes[d].name.as_str());
        out.append("\n");
        proof {
            assert(out@ =~= "direction: right\n\n"@ + decl_lines(g, d + 1));
        }
        d = d + 1;
    }
    out.append("\n");
    let ghost pre = out@;
    let mut e: usize = 0;
    proof {
        assert(pre + edge_lines(edges.deep_view().take(0)) =~= pre);
    }
    while e < edges.len()
        invariant
            edges.deep_view() == edge_pairs(g, reverse),
            e <= edges@.len(),
            out@ == pre + edge_lines(edges.deep_view().take(e as int)),
        decreases edges@.len() - e,
    {
        proof {
            assert(edges.deep_view()[e as int] == (edges@[e as int].0@, edges@[e as int].1@));
        }
        let sa = sanitize(edges[e].0.as_str());
        let sb = sanitize(edges[e].1.as_str());
        out.append(sa.as_str());
        out.append(" -> ");
        out.append(sb.as_str());
        out.append("\n");
        proof {
            let ps = edges.deep_view();
            assert(ps.take(e + 1).drop_last() =~= ps.take(e as int));
            assert(ps.take(e + 1).last() == ps[e as int]);
            assert(out@ =~= pre + edge_lines(ps.take(e + 1)));
        }
        e = e + 1;
    }
    proof {
        assert(edges.deep_view().take(edges.deep_view().len() as int) =~= edges.deep_view());
        assert(out@ =~= d2_text(g, reverse));
    }
    out
}

/// No pair occurs twice.
pub open spec fn pairwise_distinct(ps: Seq<(Seq<char>, Seq<char>)>) -> bool {
    forall|i: int, j: int| 0 <= i < j < ps.len() ==> ps[i] != ps[j]
}

proof fn lemma_insert_unique_props(ps: Seq<(Seq<char>, Seq<char>)>, p: (Seq<char>, Seq<char>))
    requires
        pairwise_distinct(ps),
    ensures
        pairwise_distinct(insert_unique(ps, p)),
        forall|q: (Seq<char>, Seq<char>)| #[trigger]
            insert_unique(ps, p).contains(q) <==> ps.contains(q) || q == p,
{
    let res = insert_unique(ps, p);
    if ps.contains(p) {
        assert(res == ps);
    } else {
        assert forall|i: int, j: int| 0 <= i < j < res.len() implies res[i] != res[j] by {
            if j < ps.len() {
                assert(ps[i] != ps[j]);
            } else {
                assert(res[j] == p);
                if ps[i] == p {
                    assert(ps.contains(p));
                }
            }
        }
        assert forall|q: (Seq<char>, Seq<char>)| #[trigger]
            res.contains(q) <==> ps.contains(q) || q == p by {
            if res.contains(q) {
                let m = choose|m: int| 0 <= m < res.len() && res[m] == q;
                if m < ps.len() {
                    assert(ps[m] == q);
                }
            }
            if ps.contains(q) {
                let m = choose|m: int| 0 <= m < ps.len() && ps[m] == q;
                assert(res[m] == q);
            }
            if q == p {
                assert(res[ps.len() as int] == q);
            }
        }
    }
}

proof fn lemma_node_pairs_props(
    acc: Seq<(Seq<char>, Seq<char>)>,
    name: Seq<char>,
    ds: Seq<Seq<char>>,
    reverse: bool,
)
    requires
        pairwise_distinct(acc),
    ensures
        pairwise_distinct(node_pairs(acc, name, ds, reverse)),
        forall|q: (Seq<char>, Seq<char>)| #[trigger]
            node_pairs(acc, name, ds, reverse).contains(q) <==> acc.contains(q) || (exists|m: int|
                0 <= m < ds.len() && q == pair_of(name, #[trigger] ds[m], reverse)),
    decreases ds.len(),
{
    let res = node_pairs(acc, name, ds, reverse);
    if ds.len() == 0 {
        assert forall|q: (Seq<char>, Seq<char>)| #[trigger]
            res.contains(q) <==> acc.contains(q) || (exists|m: int|
                0 <= m < ds.len() && q == pair_of(name, #[trigger] ds[m], reverse)) by {
            if exists|m: int| 0 <= m < ds.len() && q == pair_of(name, #[trigger] ds[m], reverse) {
                let m = choose|m: int|
                    0 <= m < ds.len() && q == pair_of(name, #[trigger] ds[m], reverse);
            }
        }
    } else {
        let p0 = pair_of(name, ds[0], reverse);
        let acc1 = insert_unique(acc, p0);
        lemma_insert_unique_props(acc, p0);
        lemma_node_pairs_props(acc1, name, ds.drop_first(), reverse);
        assert forall|q: (Seq<char>, Seq<char>)| #[trigger]
            res.contains(q) <==> acc.contains(q) || (exists|m: int|
                0 <= m < ds.len() && q == pair_of(name, #[trigger] ds[m], reverse)) by {
            assert(res.contains(q) <==> acc1.contains(q) || (exists|m: int|
                0 <= m < ds.drop_first().len() && q == pair_of(
                    name,
                    #[trigger] ds.drop_first()[m],
                    reverse,
                )));
            if res.contains(q) {
                if acc1.contains(q) {
                    if !acc.contains(q) {
                        assert(q == p0 && q == pair_of(name, ds[0], reverse));
                    }
                } else {
                    let m = choose|m: int|
                        0 <= m < ds.drop_first().len() && q == pair_of(
                            name,
                            #[trigger] ds.drop_first()[m],
                            reverse,
                        );
                    assert(ds.drop_first()[m] == ds[m + 1]);
                    assert(q == pair_of(name, ds[m + 1], reverse));
                }
            }
            if acc.contains(q) {
                assert(acc1.contains(q));
            }
            if exists|m: int| 0 <= m < ds.len() && q == pair_of(name, #[trigger] ds[m], reverse) {
                let m = choose|m: int|
                    0 <= m < ds.len() && q == pair_of(name, #[trigger] ds[m], reverse);
                if m == 0 {
                    assert(acc1.contains(q));
                } else {
                    assert(ds.drop_first()[m - 1] == ds[m]);
                    assert(q == pair_of(name, ds.drop_first()[m - 1], reverse));
                }
            }
        }
    }
}

proof fn lemma_pairs_upto_props(g: GraphView, reverse: bool, k: int)
    requires
        0 <= k <= g.len(),
    ensures
        pairwise_distinct(pairs_upto(g, reverse, k)),
        forall|q: (Seq<char>, Seq<char>)| #[trigger]
            pairs_upto(g, reverse, k).contains(q) <==> exists|i: int, m: int|
                0 <= i < k && 0 <= m < g[i].1.len() && q == pair_of(
                    g[i].0,
                    #[trigger] g[i].1[m],
                    reverse,
                ),
    decreases k,
{
    let res = pairs_upto(g, reverse, k);
    if k <= 0 {
        assert forall|q: (Seq<char>, Seq<char>)| #[trigger]
            res.contains(q) <==> exists|i: int, m: int|
                0 <= i < k && 0 <= m < g[i].1.len() && q == pair_of(
                    g[i].0,
                    #[trigger] g[i].1[m],
                    reverse,
                ) by {
            if res.contains(q) {
                let m = choose|m: int| 0 <= m < res.len() && res[m] == q;
            }
            if exists|i: int, m: int|
                0 <= i < k && 0 <= m < g[i].1.len() && q == pair_of(
                    g[i].0,
                    #[trigger] g[i].1[m],
                    reverse,
                ) {
                let (i, m) = choose|i: int, m: int|
                    0 <= i < k && 0 <= m < g[i].1.len() && q == pair_of(
                        g[i].0,
                        #[trigger] g[i].1[m],
                        reverse,
                    );
            }
        }
    } else {
        let prev = pairs_upto(g, reverse, k - 1);
        lemma_pairs_upto_props(g, reverse, k - 1);
        lemma_node_pairs_props(prev, g[k - 1].0, g[k - 1].1, reverse);
        assert forall|q: (Seq<char>, Seq<char>)| #[trigger]
            res.contains(q) <==> exists|i: int, m: int|
                0 <= i < k && 0 <= m < g[i].1.len() && q == pair_of(
                    g[i].0,
                    #[trigger] g[i].1[m],
                    reverse,
                ) by {
            if res.contains(q) {
                if prev.contains(q) {
                    let (i, m) = choose|i: int, m: int|
                        0 <= i < k - 1 && 0 <= m < g[i].1.len() && q == pair_of(
                            g[i].0,
                            #[trigger] g[i].1[m],
                            reverse,
                        );
                    assert(0 <= i < k && 0 <= m < g[i].1.len() && q == pair_of(
                        g[i].0,
                        g[i].1[m],
                        reverse,
                    ));
                } else {
                    let m = choose|m: int|
                        0 <= m < g[k - 1].1.len() && q == pair_of(
                            g[k - 1].0,
                            #[trigger] g[k - 1].1[m],
                            reverse,
                        );
                    assert(0 <= k - 1 < k && 0 <= m < g[k - 1].1.len() && q == pair_of(
                        g[k - 1].0,
                        g[k - 1].1[m],
                        reverse,
                    ));
                }
            }
            if exists|i: int, m: int|
                0 <= i < k && 0 <= m < g[i].1.len() && q == pair_of(
                    g[i].0,
                    #[trigger] g[i].1[m],
                    reverse,
                ) {
                let (i, m) = choose|i: int, m: int|
                    0 <= i < k && 0 <= m < g[i].1.len() && q == pair_of(
                        g[i].0,
                        #[trigger] g[i].1[m],
                        reverse,
                    );
                if i < k - 1 {
                    assert(prev.contains(q));
                } else {
                    assert(q == pair_of(g[k - 1].0, g[k - 1].1[m], reverse));
                }
            }
        }
    }
}

/// The export writes one edge line per unique (source, target) display
/// pair: the pair list is duplicate-free, and in a well-formed store it
/// holds exactly the stored edges, oriented by the direction flag.
pub proof fn lemma_edge_pairs_exact(g: GraphView, reverse: bool)
    requires
        wf_view(g),
    ensures
        pairwise_distinct(edge_pairs(g, reverse)),
        forall|a: Seq<char>, b: Seq<char>| #[trigger]
            edge_pairs(g, reverse).contains((a, b)) <==> if reverse {
                has_edge(g, b, a)
            } else {
                has_edge(g, a, b)
            },
{
    lemma_pairs_upto_props(g, reverse, g.len() as int);
    assert forall|a: Seq<char>, b: Seq<char>| #[trigger]
        edge_pairs(g, reverse).contains((a, b)) <==> if reverse {
            has_edge(g, b, a)
        } else {
            has_edge(g, a, b)
        } by {
        let p = if reverse {
            b
        } else {
            a
        };
        let d = if reverse {
            a
        } else {
            b
        };
        if edge_pairs(g, reverse).contains((a, b)) {
            let (i, m) = choose|i: int, m: int|
                0 <= i < g.len() && 0 <= m < g[i].1.len() && (a, b) == pair_of(
                    g[i].0,
                    #[trigger] g[i].1[m],
                    reverse,
                );
            assert(g[i].0 == p && g[i].1[m] == d);
            lemma_has_name_index(g, p, i);
            lemma_first_index(g, p);
            match crate::graph::names_of(g).index_of_first(p) {
                Option::Some(f) => {
                    if f < i {
                        assert(g[f].0 != g[i].0);
                    }
                    if i < f {
                        assert(g[i].0 != g[f].0);
                    }
                    assert(f == i);
                    assert(deps_of(g, p) == g[i].1);
                    assert(deps_of(g, p).contains(d));
                },
                Option::None => {
                    let w = choose|w: int|
                        0 <= w < crate::graph::names_of(g).len() && crate::graph::names_of(g)[w]
                            == p;
                    assert(g[w].0 == p);
                },
            }
        }
        if has_edge(g, p, d) {
            lemma_first_index(g, p);
            match crate::graph::names_of(g).index_of_first(p) {
                Option::Some(i) => {
                    assert(deps_of(g, p) == g[i].1);
                    let m = choose|m: int| 0 <= m < g[i].1.len() && #[trigger] g[i].1[m] == d;
                    assert((a, b) == pair_of(g[i].0, g[i].1[m], reverse));
                },
                Option::None => {
                    let w = choose|w: int|
                        0 <= w < crate::graph::names_of(g).len() && crate::graph::names_of(g)[w]
                            == p;
                    assert(g[w].0 == p);
                },
            }
        }
    }
}

/// Where sanitization is injective on the store's names, no two edge
/// lines share their sanitized identifier pair; two distinct names
/// that sanitize alike are a known ambiguity of the format.
pub proof fn lemma_sanitized_pairs_unique(g: GraphView, reverse: bool)
    requires
        wf_view(g),
        forall|a: Seq<char>, b: Seq<char>|
            #![trigger spec_sanitize(a), spec_sanitize(b)]
            has_name(g, a) && has_name(g, b) && spec_sanitize(a) == spec_sanitize(b) ==> a == b,
    ensures
        ({
            let ps = edge_pairs(g, reverse);
            forall|i: int, j: int|
                0 <= i < j < ps.len() ==> !(spec_sanitize(#[trigger] ps[i].0) == spec_sanitize(
                    #[trigger] ps[j].0,
                ) && spec_sanitize(ps[i].1) == spec_sanitize(ps[j].1))
        }),
{
    lemma_edge_pairs_exact(g, reverse);
    let ps = edge_pairs(g, reverse);
    assert forall|i: int|
        0 <= i < ps.len() implies has_name(g, #[trigger] ps[i].0) && has_name(g, ps[i].1) by {
        assert(ps.contains((ps[i].0, ps[i].1)));
        let p = if reverse {
            ps[i].1
        } else {
            ps[i].0
        };
        let d = if reverse {
            ps[i].0
        } else {
            ps[i].1
        };
        assert(has_edge(g, p, d));
        lemma_first_index(g, p);
        match crate::graph::names_of(g).index_of_first(p) {
            Option::Some(f) => {
                assert(deps_of(g, p) == g[f].1);
                let m = choose|m: int| 0 <= m < g[f].1.len() && #[trigger] g[f].1[m] == d;
                assert(has_name(g, g[f].1[m]));
            },
            Option::None => {
                let w = choose|w: int|
                    0 <= w < crate::graph::names_of(g).len() && crate::graph::names_of(g)[w] == p;
                assert(g[w].0 == p);
            },
        }
    }
    assert forall|i: int, j: int|
        0 <= i < j < ps.len() implies !(spec_sanitize(#[trigger] ps[i].0) == spec_sanitize(
            #[trigger] ps[j].0,
        ) && spec_sanitize(ps[i].1) == spec_sanitize(ps[j].1)) by {
        if spec_sanitize(ps[i].0) == spec_sanitize(ps[j].0) && spec_sanitize(ps[i].1)
            == spec_sanitize(ps[j].1) {
            assert(ps[i].0 == ps[j].0 && ps[i].1 == ps[j].1);
            assert(ps[i] == ps[j]);
        }
    }
}

} // verus!
