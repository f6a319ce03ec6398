//! Cycle-safe depth-first traversal of the store, forward over the
//! stored adjacency or reverse over the derived index, with a
//! substring exclusion filter.
//!
//! A walk prints each package at its depth, marks a revisit through an
//! ancestor as a cycle and a revisit through a sibling branch as
//! visited, and prunes every package whose name contains the filter.

use crate::graph::{
    lemma_first_index, lemma_has_name_index, deps_of, has_name, names_of, spec_reverse,
    DependencyGraph, GraphView,
};
use crate::text::{contains_substr, is_substring, spec_trim, trim_str, vec_contains_string};
use vstd::prelude::*;
use vstd::string::*;

verus! {

/// How one traversal line reports its package.
pub enum Mark {
    Plain,
    Cycle,
    Visited,
}

/// One record of a traversal: a package reported at a depth, plainly
/// or with a marker.
pub ghost struct Step {
    pub depth: nat,
    pub name: Seq<char>,
    pub mark: Mark,
}

/// Whether the (already trimmed) filter prunes `name`.
pub open spec fn excluded(name: Seq<char>, filter: Seq<char>) -> bool {
    filter.len() > 0 && is_substring(name, filter)
}

/// The number of store entries whose name is not on the path stack:
/// the traversal's termination measure.
pub open spec fn count_free(g: GraphView, stack: Seq<Seq<char>>) -> nat
    decreases g.len(),
{
    if g.len() == 0 {
        0
    } else {
        count_free(g.drop_last(), stack) + if stack.contains(g.last().0) {
            0nat
        } else {
            1nat
        }
    }
}

pub proof fn lemma_contains_push<A>(s: Seq<A>, x: A, y: A)
    ensures
        s.push(x).contains(y) <==> s.contains(y) || y == x,
{
    if s.push(x).contains(y) {
        let m = choose|m: int| 0 <= m < s.push(x).len() && s.push(x)[m] == y;
        if m < s.len() {
            assert(s[m] == y);
        }
    }
    if s.contains(y) {
        let m = choose|m: int| 0 <= m < s.len() && s[m] == y;
        assert(s.push(x)[m] == y);
    }
    assert(s.push(x)[s.len() as int] == x);
}

pub proof fn lemma_count_free_mono(g: GraphView, s1: Seq<Seq<char>>, s2: Seq<Seq<char>>)
    requires
        forall|x: Seq<char>| #[trigger] s1.contains(x) ==> s2.contains(x),
    ensures
        count_free(g, s2) <= count_free(g, s1),
    decreases g.len(),
{
    if g.len() > 0 {
        lemma_count_free_mono(g.drop_last(), s1, s2);
    }
}

pub proof fn lemma_count_free_push(g: GraphView, stack: Seq<Seq<char>>, x: Seq<char>)
    requires
        has_name(g, x),
        !stack.contains(x),
    ensures
        count_free(g, stack.push(x)) < count_free(g, stack),
    decreases g.len(),
{
    let w = choose|w: int| 0 <= w < names_of(g).len() && names_of(g)[w] == x;
    assert(g[w].0 == x);
    assert(g.len() > 0);
    lemma_contains_push(stack, x, g.last().0);
    if g.last().0 == x {
        assert forall|y: Seq<char>| #[trigger] stack.contains(y) implies stack.push(x).contains(
            y,
        ) by {
            lemma_contains_push(stack, x, y);
        }
        lemma_count_free_mono(g.drop_last(), stack, stack.push(x));
        assert(stack.push(x).contains(g.last().0));
    } else {
        assert(w < g.len() - 1);
        assert(g.drop_last()[w].0 == x);
        lemma_has_name_index(g.drop_last(), x, w);
        lemma_count_free_push(g.drop_last(), stack, x);
    }
}

/// The traversal trace from `name` and the visited list afterwards,
/// over the adjacency `g`, a trimmed exclusion filter, the names
/// already printed, and the current path stack.
pub open spec fn walk(
    g: GraphView,
    name: Seq<char>,
    filter: Seq<char>,
    visited: Seq<Seq<char>>,
    stack: Seq<Seq<char>>,
) -> (Seq<Step>, Seq<Seq<char>>)
    decreases count_free(g, stack), 0nat,
{
    if excluded(name, filter) {
        (Seq::empty(), visited)
    } else if stack.contains(name) {
        (seq![Step { depth: stack.len(), name, mark: Mark::Cycle }], visited)
    } else if visited.contains(name) {
        (seq![Step { depth: stack.len(), name, mark: Mark::Visited }], visited)
    } else {
        let head = Step { depth: stack.len(), name, mark: Mark::Plain };
        if has_name(g, name) {
            proof {
                lemma_count_free_push(g, stack, name);
            }
            let r = walk_list(g, deps_of(g, name), filter, visited.push(name), stack.push(name));
            (seq![head] + r.0, r.1)
        } else {
            (seq![head], visited.push(name))
        }
    }
}

/// The concatenated traversal of each target in order, threading the
/// visited list through.
pub open spec fn walk_list(
    g: GraphView,
    targets: Seq<Seq<char>>,
    filter: Seq<char>,
    visited: Seq<Seq<char>>,
    stack: Seq<Seq<char>>,
) -> (Seq<Step>, Seq<Seq<char>>)
    decreases count_free(g, stack), targets.len() + 1,
{
    if targets.len() == 0 {
        (Seq::empty(), visited)
    } else {
        let r1 = walk(g, targets[0], filter, visited, stack);
        let r2 = walk_list(g, targets.drop_first(), filter, r1.1, stack);
        (r1.0 + r2.0, r2.1)
    }
}

/// Two spaces per depth level.
pub open spec fn indent(d: nat) -> Seq<char>
    decreases d,
{
    if d == 0 {
        Seq::empty()
    } else {
        indent((d - 1) as nat) + "  "@
    }
}

/// The marker text a step appends after the name.
pub open spec fn mark_text(m: Mark) -> Seq<char> {
    match m {
        Mark::Plain => Seq::empty(),
        Mark::Cycle => " (cycle)"@,
        Mark::Visited => " (visited)"@,
    }
}

/// One printed line of a step, newline included.
pub open spec fn render_step(st: Step) -> Seq<char> {
    indent(st.depth) + st.name + mark_text(st.mark) + "\n"@
}

/// The printed text of a whole trace.
pub open spec fn render_trace(tr: Seq<Step>) -> Seq<char>
    decreases tr.len(),
{
    if tr.len() == 0 {
        Seq::empty()
    } else {
        render_trace(tr.drop_last()) + render_step(tr.last())
    }
}

proof fn lemma_render_concat(a: Seq<Step>, b: Seq<Step>)
    ensures
        render_trace(a + b) == render_trace(a) + render_trace(b),
    decreases b.len(),
{
    if b.len() == 0 {
        assert(a + b =~= a);
        assert(render_trace(a) + render_trace(b) =~= render_trace(a));
    } else {
        lemma_render_concat(a, b.drop_last());
        assert((a + b).drop_last() =~= a + b.drop_last());
        assert((a + b).last() == b.last());
        assert(render_trace(a) + render_trace(b.drop_last()) + render_step(b.last()) =~= render_trace(
            a,
        ) + (render_trace(b.drop_last()) + render_step(b.last())));
    }
}

proof fn lemma_render_single(st: Step)
    ensures
        render_trace(seq![st]) == render_step(st),
{
    assert(seq![st].drop_last() =~= Seq::<Step>::empty());
    assert(seq![st].last() == st);
    assert(render_trace(Seq::<Step>::empty()) == Seq::<char>::empty());
    assert(render_trace(seq![st]) == render_trace(seq![st].drop_last()) + render_step(
        seq![st].last(),
    ));
    assert(Seq::<char>::empty() + render_step(st) =~= render_step(st));
}

/// The names of the plainly printed entries of a trace, in print
/// order.
pub open spec fn plain_names(tr: Seq<Step>) -> Seq<Seq<char>>
    decreases tr.len(),
{
    if tr.len() == 0 {
        Seq::empty()
    } else {
        let rest = plain_names(tr.drop_first());
        if tr[0].mark is Plain {
            seq![tr[0].name] + rest
        } else {
            rest
        }
    }
}

pub proof fn lemma_contains_concat<A>(a: Seq<A>, b: Seq<A>, x: A)
    ensures
        (a + b).contains(x) <==> a.contains(x) || b.contains(x),
{
    if (a + b).contains(x) {
        let m = choose|m: int| 0 <= m < (a + b).len() && (a + b)[m] == x;
        if m < a.len() {
            assert(a[m] == x);
        } else {
            assert(b[m - a.len()] == x);
        }
    }
    if a.contains(x) {
        let m = choose|m: int| 0 <= m < a.len() && a[m] == x;
        assert((a + b)[m] == x);
    }
    if b.contains(x) {
        let m = choose|m: int| 0 <= m < b.len() && b[m] == x;
        assert((a + b)[a.len() + m] == x);
    }
}

proof fn lemma_plain_concat(a: Seq<Step>, b: Seq<Step>)
    ensures
        plain_names(a + b) == plain_names(a) + plain_names(b),
    decreases a.len(),
{
    if a.len() == 0 {
        assert(a + b =~= b);
        assert(plain_names(a) + plain_names(b) =~= plain_names(b));
    } else {
        assert((a + b)[0] == a[0]);
        assert((a + b).drop_first() =~= a.drop_first() + b);
        lemma_plain_concat(a.drop_first(), b);
        if a[0].mark is Plain {
            assert(seq![a[0].name] + (plain_names(a.drop_first()) + plain_names(b)) =~= (seq![
                a[0].name,
            ] + plain_names(a.drop_first())) + plain_names(b));
        }
    }
}

proof fn lemma_plain_single(st: Step)
    ensures
        plain_names(seq![st]) == if st.mark is Plain {
            seq![st.name]
        } else {
            Seq::<Seq<char>>::empty()
        },
{
    assert(seq![st].drop_first() =~= Seq::<Step>::empty());
    assert(plain_names(Seq::<Step>::empty()) == Seq::<Seq<char>>::empty());
    assert(seq![st][0] == st);
    if st.mark is Plain {
        assert(seq![st.name] + Seq::<Seq<char>>::empty() =~= seq![st.name]);
    }
}

proof fn lemma_plain_names_member(tr: Seq<Step>, x: Seq<char>)
    requires
        plain_names(tr).contains(x),
    ensures
        exists|i: int| 0 <= i < tr.len() && (#[trigger] tr[i]).mark is Plain && tr[i].name == x,
    decreases tr.len(),
{
    if tr.len() > 0 {
        let rest = plain_names(tr.drop_first());
        if tr[0].mark is Plain {
            lemma_contains_concat(seq![tr[0].name], rest, x);
            if seq![tr[0].name].contains(x) {
                assert(tr[0].name == x);
            } else {
                lemma_plain_names_member(tr.drop_first(), x);
                let i = choose|i: int|
                    0 <= i < tr.drop_first().len() && (#[trigger] tr.drop_first()[i]).mark
                        is Plain && tr.drop_first()[i].name == x;
                assert(tr[i + 1].mark is Plain && tr[i + 1].name == x);
            }
        } else {
            lemma_plain_names_member(tr.drop_first(), x);
            let i = choose|i: int|
                0 <= i < tr.drop_first().len() && (#[trigger] tr.drop_first()[i]).mark is Plain
                    && tr.drop_first()[i].name == x;
            assert(tr[i + 1].mark is Plain && tr[i + 1].name == x);
        }
    }
}

/// The traversal soundness law for one walk: the visited list
/// afterwards is exactly the prior entries followed by the plainly
/// printed names in print order, so a reachable package is printed
/// plainly at most once and never after it was already visited; a
/// cycle marker names a package on the current path or printed in this
/// walk; a visited marker names a package visited before or printed in
/// this walk; and with a non-empty filter no printed name contains the
/// filter as a substring.
pub proof fn lemma_walk_accounting(
    g: GraphView,
    name: Seq<char>,
    filter: Seq<char>,
    visited: Seq<Seq<char>>,
    stack: Seq<Seq<char>>,
)
    ensures
        ({
            let r = walk(g, name, filter, visited, stack);
            &&& r.1 == visited + plain_names(r.0)
            &&& visited.no_duplicates() ==> r.1.no_duplicates()
            &&& forall|i: int|
                0 <= i < r.0.len() && (#[trigger] r.0[i]).mark is Cycle ==> stack.contains(
                    r.0[i].name,
                ) || r.1.contains(r.0[i].name)
            &&& forall|i: int|
                0 <= i < r.0.len() && (#[trigger] r.0[i]).mark is Visited ==> r.1.contains(
                    r.0[i].name,
                )
            &&& filter.len() > 0 ==> forall|i: int|
                0 <= i < r.0.len() ==> !is_substring((#[trigger] r.0[i]).name, filter)
        }),
    decreases count_free(g, stack), 0nat,
{
    let r = walk(g, name, filter, visited, stack);
    if excluded(name, filter) {
        assert(visited + plain_names(r.0) =~= visited);
    } else if stack.contains(name) {
        lemma_plain_single(Step { depth: stack.len(), name, mark: Mark::Cycle });
        assert(visited + plain_names(r.0) =~= visited);
    } else if visited.contains(name) {
        lemma_plain_single(Step { depth: stack.len(), name, mark: Mark::Visited });
        assert(visited + plain_names(r.0) =~= visited);
    } else {
        let head = Step { depth: stack.len(), name, mark: Mark::Plain };
        if has_name(g, name) {
            lemma_count_free_push(g, stack, name);
            let rl = walk_list(
                g,
                deps_of(g, name),
                filter,
                visited.push(name),
                stack.push(name),
            );
            lemma_walk_list_accounting(
                g,
                deps_of(g, name),
                filter,
                visited.push(name),
                stack.push(name),
            );
            assert(r.0 == seq![head] + rl.0 && r.1 == rl.1);
            lemma_plain_concat(seq![head], rl.0);
            lemma_plain_single(head);
            assert(plain_names(seq![head]) == seq![name]);
            assert(visited.push(name) =~= visited + seq![name]);
            assert(visited + (seq![name] + plain_names(rl.0)) =~= (visited + seq![name])
                + plain_names(rl.0));
            assert(r.1 == visited + plain_names(r.0));
            if visited.no_duplicates() {
                assert(visited.push(name).no_duplicates()) by {
                    assert forall|i: int, j: int|
                        0 <= i < j < visited.push(name).len() implies visited.push(name)[i]
                            != visited.push(name)[j] by {
                        if j == visited.len() {
                            if visited[i] == name {
                                assert(visited.contains(name));
                            }
                        }
                    }
                }
            }
            assert(r.1.contains(name)) by {
                lemma_contains_concat(visited, plain_names(r.0), name);
                lemma_contains_concat(seq![name], plain_names(rl.0), name);
                assert(seq![name][0] == name);
                assert(plain_names(r.0) == seq![name] + plain_names(rl.0));
            }
            assert forall|x: Seq<char>| #[trigger] rl.1.contains(x) implies r.1.contains(x) by {}
            assert forall|i: int|
                0 <= i < r.0.len() && (#[trigger] r.0[i]).mark is Cycle implies stack.contains(
                    r.0[i].name,
                ) || r.1.contains(r.0[i].name) by {
                assert(i >= 1);
                assert(r.0[i] == rl.0[i - 1]);
                lemma_contains_push(stack, name, r.0[i].name);
            }
            assert forall|i: int|
                0 <= i < r.0.len() && (#[trigger] r.0[i]).mark is Visited implies r.1.contains(
                    r.0[i].name,
                ) by {
                assert(i >= 1);
                assert(r.0[i] == rl.0[i - 1]);
                if visited.push(name).contains(r.0[i].name) {
                    lemma_contains_push(visited, name, r.0[i].name);
                    lemma_contains_concat(visited, plain_names(r.0), r.0[i].name);
                }
            }
            if filter.len() > 0 {
                assert forall|i: int|
                    0 <= i < r.0.len() implies !is_substring((#[trigger] r.0[i]).name, filter) by {
                    if i >= 1 {
                        assert(r.0[i] == rl.0[i - 1]);
                    }
                }
            }
        } else {
            assert(r.0 == seq![head] && r.1 == visited.push(name));
            lemma_plain_single(head);
            assert(plain_names(r.0) == seq![name]);
            assert(visited + seq![name] =~= visited.push(name));
            if visited.no_duplicates() {
                assert forall|i: int, j: int|
                    0 <= i < j < r.1.len() implies r.1[i] != r.1[j] by {
                    if j == visited.len() {
                        if visited[i] == name {
                            assert(visited.contains(name));
                        }
                    }
                }
            }
        }
    }
}

/// The traversal soundness law threaded over a target list.
pub proof fn lemma_walk_list_accounting(
    g: GraphView,
    targets: Seq<Seq<char>>,
    filter: Seq<char>,
    visited: Seq<Seq<char>>,
    stack: Seq<Seq<char>>,
)
    ensures
        ({
            let r = walk_list(g, targets, filter, visited, stack);
            &&& r.1 == visited + plain_names(r.0)
            &&& visited.no_duplicates() ==> r.1.no_duplicates()
            &&& forall|i: int|
                0 <= i < r.0.len() && (#[trigger] r.0[i]).mark is Cycle ==> stack.contains(
                    r.0[i].name,
                ) || r.1.contains(r.0[i].name)
            &&& forall|i: int|
                0 <= i < r.0.len() && (#[trigger] r.0[i]).mark is Visited ==> r.1.contains(
                    r.0[i].name,
                )
            &&& filter.len() > 0 ==> forall|i: int|
                0 <= i < r.0.len() ==> !is_substring((#[trigger] r.0[i]).name, filter)
        }),
    decreases count_free(g, stack), targets.len() + 1,
{
    let r = walk_list(g, targets, filter, visited, stack);
    if targets.len() == 0 {
        assert(visited + plain_names(r.0) =~= visited);
    } else {
        let r1 = walk(g, targets[0], filter, visited, stack);
        let r2 = walk_list(g, targets.drop_first(), filter, r1.1, stack);
        lemma_walk_accounting(g, targets[0], filter, visited, stack);
        lemma_walk_list_accounting(g, targets.drop_first(), filter, r1.1, stack);
        assert(r.0 == r1.0 + r2.0 && r.1 == r2.1);
        lemma_plain_concat(r1.0, r2.0);
        assert(visited + (plain_names(r1.0) + plain_names(r2.0)) =~= (visited + plain_names(
            r1.0,
        )) + plain_names(r2.0));
        assert(r.1 == visited + plain_names(r.0));
        assert forall|x: Seq<char>| #[trigger] r1.1.contains(x) implies r.1.contains(x) by {
            lemma_contains_concat(r1.1, plain_names(r2.0), x);
        }
        assert forall|i: int|
            0 <= i < r.0.len() && (#[trigger] r.0[i]).mark is Cycle implies stack.contains(
                r.0[i].name,
            ) || r.1.contains(r.0[i].name) by {
            if i < r1.0.len() {
                assert(r.0[i] == r1.0[i]);
            } else {
                assert(r.0[i] == r2.0[i - r1.0.len()]);
            }
        }
        assert forall|i: int|
            0 <= i < r.0.len() && (#[trigger] r.0[i]).mark is Visited implies r.1.contains(
                r.0[i].name,
            ) by {
            if i < r1.0.len() {
                assert(r.0[i] == r1.0[i]);
            } else {
                assert(r.0[i] == r2.0[i - r1.0.len()]);
            }
        }
        if filter.len() > 0 {
            assert forall|i: int|
                0 <= i < r.0.len() implies !is_substring((#[trigger] r.0[i]).name, filter) by {
                if i < r1.0.len() {
                    assert(r.0[i] == r1.0[i]);
                } else {
                    assert(r.0[i] == r2.0[i - r1.0.len()]);
                }
            }
        }
    }
}

/// The exclusion law: with a filter that trims to non-empty text, a
/// walk prints no package whose name contains the filter, and every
/// name it adds to the visited list is free of the filter too.
pub proof fn lemma_walk_excludes(
    g: GraphView,
    name: Seq<char>,
    filter: Seq<char>,
    visited: Seq<Seq<char>>,
    stack: Seq<Seq<char>>,
)
    requires
        filter.len() > 0,
    ensures
        ({
            let r = walk(g, name, filter, visited, stack);
            &&& forall|i: int|
                0 <= i < r.0.len() ==> !is_substring((#[trigger] r.0[i]).name, filter)
            &&& forall|n: Seq<char>|
                #[trigger] r.1.contains(n) && !visited.contains(n) ==> !is_substring(n, filter)
        }),
{
    lemma_walk_accounting(g, name, filter, visited, stack);
    let r = walk(g, name, filter, visited, stack);
    assert forall|n: Seq<char>| #[trigger]
        r.1.contains(n) && !visited.contains(n) implies !is_substring(n, filter) by {
        lemma_contains_concat(visited, plain_names(r.0), n);
        lemma_plain_names_member(r.0, n);
        let i = choose|i: int|
            0 <= i < r.0.len() && (#[trigger] r.0[i]).mark is Plain && r.0[i].name == n;
    }
}

/// Appends two spaces per depth level.
fn append_indent(out: &mut String, depth: usize)
    ensures
        final(out)@ == old(out)@ + indent(depth as nat),
{
    let mut k: usize = 0;
    proof {
        assert(old(out)@ + indent(0) =~= old(out)@);
    }
    while k < depth
        invariant
            k <= depth,
            out@ == old(out)@ + indent(k as nat),
        decreases depth - k,
    {
        out.append("  ");
        proof {
            assert(old(out)@ + indent(k as nat) + "  "@ =~= old(out)@ + (indent(k as nat)
                + "  "@));
        }
        k = k + 1;
    }
}

impl DependencyGraph {
    /// The recursive walk shared by both traversal directions; emits
    /// into `out` and restores the path stack before returning.
    fn dfs(
        &self,
        name: &str,
        filter: &str,
        visited: &mut Vec<String>,
        stack: &mut Vec<String>,
        out: &mut String,
    )
        requires
            self.wf(),
        ensures
            ({
                let r = walk(self@, name@, filter@, old(visited).deep_view(), old(stack).deep_view());
                &&& final(out)@ == old(out)@ + render_trace(r.0)
                &&& final(visited).deep_view() == r.1
                &&& final(stack).deep_view() == old(stack).deep_view()
            }),
        decreases count_free(self@, old(stack).deep_view()),
    {
        let ghost vis0 = old(visited).deep_view();
        let ghost stk0 = old(stack).deep_view();
        let ghost r = walk(self@, name@, filter@, vis0, stk0);
        if !filter.is_empty() && contains_substr(name, filter) {
            proof {
                assert(r.0 =~= Seq::<Step>::empty());
                assert(old(out)@ + render_trace(r.0) =~= old(out)@);
            }
            return ;
        }
        let name_s = String::from_str(name);
        let depth = stack.len();
        if vec_contains_string(stack, &name_s) {
            append_indent(out, depth);
            out.append(name);
            out.append(" (cycle)");
            out.append("\n");
            proof {
                let st = Step { depth: stk0.len(), name: name@, mark: Mark::Cycle };
                lemma_render_single(st);
                assert(out@ =~= old(out)@ + render_step(st));
            }
            return ;
        }
        if vec_contains_string(visited, &name_s) {
            append_indent(out, depth);
            out.append(name);
            out.append(" (visited)");
            out.append("\n");
            proof {
                let st = Step { depth: stk0.len(), name: name@, mark: Mark::Visited };
                lemma_render_single(st);
                assert(out@ =~= old(out)@ + render_step(st));
            }
            return ;
        }
        append_indent(out, depth);
        out.append(name);
        out.append("\n");
        let ghost head = Step { depth: stk0.len(), name: name@, mark: Mark::Plain };
        let ghost out1 = out@;
        proof {
            lemma_render_single(head);
            assert(out1 =~= old(out)@ + render_step(head));
        }
        visited.push(String::from_str(name));
        stack.push(String::from_str(name));
        let ghost vis1 = vis0.push(name@);
        let ghost stk1 = stk0.push(name@);
        proof {
            assert(visited.deep_view() =~= vis1);
            assert(stack.deep_view() =~= stk1);
        }
        match self.find_node(&name_s) {
            Some(i) => {
                let ghost ds = deps_of(self@, name@);
                proof {
                    lemma_first_index(self@, name@);
                    lemma_has_name_index(self@, name@, i as int);
                    assert(self@[i as int].1 == ds);
                    assert(self@[i as int].1 == self.nodes@[i as int].dependencies.deep_view());
                    assert(ds.skip(0) =~= ds);
                }
                let ghost full = walk_list(self@, ds, filter@, vis1, stk1);
                let mut t: usize = 0;
                while t < self.nodes[i].dependencies.len()
                    invariant
                        self.wf(),
                        i < self.nodes@.len(),
                        has_name(self@, name@),
                        !stk0.contains(name@),
                        stk1 == stk0.push(name@),
                        stk0 == old(stack).deep_view(),
                        t <= self.nodes@[i as int].dependencies@.len(),
                        ds == self.nodes@[i as int].dependencies.deep_view(),
                        full == walk_list(self@, ds, filter@, vis1, stk1),
                        stack.deep_view() == stk1,
                        ({
                            let rem = walk_list(
                                self@,
                                ds.skip(t as int),
                                filter@,
                                visited.deep_view(),
                                stk1,
                            );
                            &&& out@ + render_trace(rem.0) == out1 + render_trace(full.0)
                            &&& rem.1 == full.1
                        }),
                    decreases self.nodes@[i as int].dependencies@.len() - t,
                {
                    let ghost visc = visited.deep_view();
                    let ghost rem = walk_list(self@, ds.skip(t as int), filter@, visc, stk1);
                    let ghost child = walk(self@, ds[t as int], filter@, visc, stk1);
                    proof {
                        assert(ds.skip(t as int)[0] == ds[t as int]);
                        assert(ds.skip(t as int).drop_first() =~= ds.skip(t + 1));
                        assert(ds[t as int] == self.nodes@[i as int].dependencies@[t as int]@);
                        lemma_count_free_push(self@, stk0, name@);
                    }
                    self.dfs(
                        self.nodes[i].dependencies[t].as_str(),
                        filter,
                        visited,
                        stack,
                        out,
                    );
                    proof {
                        let rem2 = walk_list(
                            self@,
                            ds.skip(t + 1),
                            filter@,
                            visited.deep_view(),
                            stk1,
                        );
                        assert(rem.0 == child.0 + rem2.0 && rem.1 == rem2.1);
                        lemma_render_concat(child.0, rem2.0);
                        assert(out@ + render_trace(rem2.0) =~= out1 + render_trace(full.0));
                    }
                    t = t + 1;
                }
                proof {
                    assert(ds.skip(ds.len() as int) =~= Seq::<Seq<char>>::empty());
                    let remf = walk_list(
                        self@,
                        Seq::<Seq<char>>::empty(),
                        filter@,
                        visited.deep_view(),
                        stk1,
                    );
                    assert(remf.0 =~= Seq::<Step>::empty());
                    assert(out@ + render_trace(remf.0) =~= out@);
                    assert(out@ == out1 + render_trace(full.0));
                    assert(r.0 == seq![head] + full.0 && r.1 == full.1);
                    lemma_render_concat(seq![head], full.0);
                    lemma_render_single(head);
                    assert(out@ =~= old(out)@ + (render_step(head) + render_trace(full.0)));
                    assert(render_trace(seq![head]) + render_trace(full.0) =~= render_step(head)
                        + render_trace(full.0));
                }
            },
            None => {
                proof {
                    lemma_first_index(self@, name@);
                    if has_name(self@, name@) {
                        let w = choose|w: int|
                            0 <= w < names_of(self@).len() && names_of(self@)[w] == name@;
                        assert(self@[w].0 == name@);
                    }
                    assert(r.0 == seq![head] && r.1 == vis1);
                    lemma_render_single(head);
                }
            },
        }
        stack.pop();
        proof {
            assert(stack.deep_view() =~= stk1.drop_last());
            assert(stk1.drop_last() =~= stk0);
        }
    }

    /// The forward dependency tree from `root`: the printed lines of a
    /// pre-order walk over the stored adjacency, honouring the
    /// exclusion filter.
    pub fn print_tree(&self, root: &str, exclude_filter: &str) -> (out: String)
        requires
            self.wf(),
        ensures
            out@ == render_trace(
                walk(
                    self@,
                    root@,
                    spec_trim(exclude_filter@),
                    Seq::<Seq<char>>::empty(),
                    Seq::<Seq<char>>::empty(),
                ).0,
            ),
    {
        let filter = trim_str(exclude_filter);
        let mut visited: Vec<String> = Vec::new();
        let mut stack: Vec<String> = Vec::new();
        let mut out = String::new();
        proof {
            assert(visited.deep_view() =~= Seq::<Seq<char>>::empty());
            assert(stack.deep_view() =~= Seq::<Seq<char>>::empty());
        }
        self.dfs(root, filter, &mut visited, &mut stack, &mut out);
        proof {
            let r = walk(
                self@,
                root@,
                spec_trim(exclude_filter@),
                Seq::<Seq<char>>::empty(),
                Seq::<Seq<char>>::empty(),
            );
            assert(out@ =~= render_trace(r.0));
        }
        out
    }

    /// The reverse dependency tree for `target`: a pre-order walk over
    /// the reverse index derived fresh from the store.
    pub fn print_reverse_tree(&self, target: &str, exclude_filter: &str) -> (out: String)
        requires
            self.wf(),
        ensures
            out@ == render_trace(
                walk(
                    spec_reverse(self@),
                    target@,
                    spec_trim(exclude_filter@),
                    Seq::<Seq<char>>::empty(),
                    Seq::<Seq<char>>::empty(),
                ).0,
            ),
    {
        let rev = self.build_reverse_index();
        rev.print_tree(target, exclude_filter)
    }
}

} // verus!
