use vstd::prelude::*;
use crate::graph::{DependencyGraph, all_dependency_names, depends_on, lemma_dependency_universe};
use crate::models::{dependency_names, is_ignored_dependency, spec_is_ignored_dependency};
use crate::order::{sort_seq, sorted_strings};
use crate::state::StateTable;
use crate::text::{contains_string, views};

verus! {

/// Which mods a rendered tree shows.
pub enum TreeFilter<'a> {
    /// Every mod of the graph.
    All,
    /// Only mods the state records, and of those only loaded ones when
    /// `loaded_only` holds.
    Recorded { state: &'a StateTable, loaded_only: bool },
}

/// Whether the filter shows the mod `name`.
pub open spec fn spec_includes(filter: TreeFilter<'_>, name: Seq<char>) -> bool {
    match filter {
        TreeFilter::All => true,
        TreeFilter::Recorded { state, loaded_only } => state@.dom().contains(name) && (!loaded_only
            || state@[name].loaded),
    }
}

/// The dependencies of `m` that its tree shows, in graph order: the
/// non-ignored ones that the filter shows.
pub open spec fn wanted_dependencies(
    graph: DependencyGraph,
    filter: TreeFilter<'_>,
    m: Seq<char>,
) -> Seq<Seq<char>> {
    if graph@.dom().contains(m) {
        dependency_names(graph@[m].dependencies@).filter(
            |n: Seq<char>| !spec_is_ignored_dependency(n) && spec_includes(filter, n),
        )
    } else {
        Seq::empty()
    }
}

/// The children of `m` in its tree: its wanted dependencies in ascending
/// order.
pub open spec fn tree_children(graph: DependencyGraph, filter: TreeFilter<'_>, m: Seq<char>) -> Seq<
    Seq<char>,
> {
    sort_seq(wanted_dependencies(graph, filter, m))
}

/// Every name that any graph entry lists as a dependency.
pub open spec fn dependency_universe(graph: DependencyGraph) -> Set<Seq<char>> {
    all_dependency_names(graph.value_seq()).to_set()
}

/// Branch drawn before a child: the last child closes the branch.
pub open spec fn branch(last: bool) -> Seq<char> {
    if last {
        "└── "@
    } else {
        "├── "@
    }
}

/// What the lines below a child are indented with.
pub open spec fn extension(last: bool) -> Seq<char> {
    if last {
        "    "@
    } else {
        "│   "@
    }
}

/// Putting a universe member on the path leaves fewer members off it.
pub proof fn lemma_difference_shrinks(u: Set<Seq<char>>, a: Seq<Seq<char>>, c: Seq<char>)
    requires
        u.finite(),
        u.contains(c),
        !a.contains(c),
    ensures
        u.difference(a.push(c).to_set()).len() < u.difference(a.to_set()).len(),
{
    crate::text::lemma_push_contains(a, c);
    assert(u.difference(a.push(c).to_set()) =~= u.difference(a.to_set()).remove(c));
}

/// The lines that render `children[i..]` below a node whose path from the
/// root is `active`: each child gets a line with its branch; a child already
/// on the path is marked as a cycle and not expanded, any other child is
/// followed by the lines of its own children. (Every child is a dependency
/// name of the graph, so the universe guard always holds for rendered trees;
/// it bounds the recursion.)
pub open spec fn children_lines(
    graph: DependencyGraph,
    filter: TreeFilter<'_>,
    children: Seq<Seq<char>>,
    i: int,
    prefix: Seq<char>,
    active: Seq<Seq<char>>,
) -> Seq<Seq<char>>
    decreases dependency_universe(graph).difference(active.to_set()).len(), children.len() - i,
{
    if i < 0 || i >= children.len() {
        Seq::empty()
    } else {
        let c = children[i];
        let last = i + 1 == children.len();
        let line = prefix + branch(last) + c;
        let rest = children_lines(graph, filter, children, i + 1, prefix, active);
        if active.contains(c) {
            seq![line + " (cycle)"@] + rest
        } else if dependency_universe(graph).finite() && dependency_universe(graph).contains(c) {
            proof {
                lemma_difference_shrinks(dependency_universe(graph), active, c);
            }
            seq![line] + children_lines(
                graph,
                filter,
                tree_children(graph, filter, c),
                0,
                prefix + extension(last),
                active.push(c),
            ) + rest
        } else {
            seq![line] + rest
        }
    }
}

/// The lines of the tree rooted at `root`: the root, then its children.
pub open spec fn tree_lines(graph: DependencyGraph, filter: TreeFilter<'_>, root: Seq<char>) -> Seq<
    Seq<char>,
> {
    seq![root] + children_lines(
        graph,
        filter,
        tree_children(graph, filter, root),
        0,
        Seq::empty(),
        seq![root],
    )
}

/// The lines of the trees of `roots`, one after the other.
pub open spec fn forest_lines(
    graph: DependencyGraph,
    filter: TreeFilter<'_>,
    roots: Seq<Seq<char>>,
) -> Seq<Seq<char>>
    decreases roots.len(),
{
    if roots.len() == 0 {
        Seq::empty()
    } else {
        forest_lines(graph, filter, roots.drop_last()) + tree_lines(graph, filter, roots.last())
    }
}

/// Whether the filter shows the mod `name`.
pub fn includes(filter: &TreeFilter, name: &str) -> (r: bool)
    ensures
        r == spec_includes(*filter, name@),
{
    match filter {
        TreeFilter::All => true,
        TreeFilter::Recorded { state, loaded_only } => match state.get(name) {
            Some(s) => !*loaded_only || s.loaded,
            None => false,
        },
    }
}

/// The children of `mod_id` in its tree: the dependencies its graph entry
/// lists that are not ignored and that the filter shows, in ascending order
/// (sorted, and each as often as the entry lists it).
pub fn filtered_dependencies(mod_id: &str, graph: &DependencyGraph, filter: &TreeFilter) -> (r: Vec<
    String,
>)
    ensures
        views(r@) == tree_children(*graph, *filter, mod_id@),
        crate::order::is_sorted(views(r@)),
        views(r@).to_multiset() == wanted_dependencies(*graph, *filter, mod_id@).to_multiset(),
        views(r@).to_set().subset_of(dependency_universe(*graph)),
{
    let ghost g = *graph;
    let ghost pred = |n: Seq<char>| !spec_is_ignored_dependency(n) && spec_includes(*filter, n);
    let _ = graph.len();
    proof {
        lemma_dependency_universe(g);
        crate::order::lemma_sort_seq(wanted_dependencies(g, *filter, mod_id@));
    }
    let entry = match graph.get(mod_id) {
        Some(e) => e,
        None => {
            let r: Vec<String> = Vec::new();
            proof {
                assert(views(r@) =~= Seq::<Seq<char>>::empty());
                assert(sort_seq(Seq::<Seq<char>>::empty()) =~= Seq::<Seq<char>>::empty());
            }
            return r;
        },
    };
    let deps = &entry.dependencies;
    let names = Ghost(dependency_names(deps@));
    let mut wanted: Vec<String> = Vec::new();
    let n = deps.len();
    proof {
        reveal(Seq::filter);
        assert(names@.take(0) =~= Seq::<Seq<char>>::empty());
        assert(views(wanted@) =~= names@.take(0).filter(pred));
    }
    for j in 0..n
        invariant
            n == deps@.len(),
            names@ == dependency_names(deps@),
            *entry == g@[mod_id@],
            deps@ == g@[mod_id@].dependencies@,
            g@.dom().contains(mod_id@),
            pred == (|n: Seq<char>| !spec_is_ignored_dependency(n) && spec_includes(*filter, n)),
            views(wanted@) == names@.take(j as int).filter(pred),
            forall|x: Seq<char>| views(wanted@).contains(x) ==> #[trigger] depends_on(g, mod_id@, x),
    {
        let name = deps[j].name.as_str();
        let keep = !is_ignored_dependency(name) && includes(filter, name);
        proof {
            reveal(Seq::filter);
            let t = names@.take(j + 1);
            assert(t.drop_last() =~= names@.take(j as int));
            assert(t.last() == name@);
            assert(pred(t.last()) == keep);
        }
        let ghost before = views(wanted@);
        if keep {
            wanted.push(deps[j].name.clone());
            proof {
                assert(views(wanted@) =~= before.push(name@));
                crate::text::lemma_push_contains(before, name@);
                assert(names@[j as int] == name@);
                assert(dependency_names(g@[mod_id@].dependencies@)[j as int] == name@);
                assert(depends_on(g, mod_id@, name@));
            }
        }
    }
    proof {
        assert(names@.take(n as int) =~= names@);
    }
    let r = sorted_strings(&wanted);
    proof {
        crate::order::lemma_same_multiset(views(r@), views(wanted@));
        assert forall|x: Seq<char>| views(r@).to_set().contains(x) implies dependency_universe(g).contains(x) by {
            assert(views(wanted@).to_set().contains(x));
            assert(depends_on(g, mod_id@, x));
        }
    }
    r
}


/// Appends the lines of `children` (below a node whose path from the root is
/// `active`) to `out`; `active` is the same afterwards.
fn render_children(
    children: &Vec<String>,
    prefix: &String,
    graph: &DependencyGraph,
    filter: &TreeFilter,
    active: &mut Vec<String>,
    out: &mut Vec<String>,
)
    requires
        views(children@).to_set().subset_of(dependency_universe(*graph)),
        dependency_universe(*graph).finite(),
    ensures
        final(active)@ == old(active)@,
        views(final(out)@) == views(old(out)@) + children_lines(
            *graph,
            *filter,
            views(children@),
            0,
            prefix@,
            views(old(active)@),
        ),
    decreases dependency_universe(*graph).difference(views(active@).to_set()).len(),
{
    let ghost g = *graph;
    let ghost f = *filter;
    let ghost kids = views(children@);
    let ghost act0 = active@;
    let ghost out0 = views(out@);
    let n = children.len();
    let mut i: usize = 0;
    while i < n
        invariant
            n == children@.len(),
            i <= n,
            g == *graph,
            f == *filter,
            kids == views(children@),
            kids.to_set().subset_of(dependency_universe(g)),
            dependency_universe(g).finite(),
            active@ == act0,
            act0 == old(active)@,
            views(out@) + children_lines(g, f, kids, i as int, prefix@, views(act0)) == out0
                + children_lines(g, f, kids, 0, prefix@, views(act0)),
        decreases n - i,
    {
        let child = &children[i];
        let last = i + 1 == n;
        let mut line = prefix.clone();
        if last {
            line.append("└── ");
        } else {
            line.append("├── ");
        }
        line.append(child.as_str());
        let ghost before = views(out@);
        let ghost rest = children_lines(g, f, kids, i + 1, prefix@, views(act0));
        proof {
            assert(kids[i as int] == child@);
            assert(line@ == prefix@ + branch(last) + child@);
        }
        if contains_string(active.as_slice(), child.as_str()) {
            line.append(" (cycle)");
            out.push(line);
            proof {
                assert(views(out@) =~= before.push(prefix@ + branch(last) + child@ + " (cycle)"@));
                assert(children_lines(g, f, kids, i as int, prefix@, views(act0)) == seq![
                    prefix@ + branch(last) + child@ + " (cycle)"@,
                ] + rest);
                assert(views(out@) + rest =~= before + children_lines(
                    g,
                    f,
                    kids,
                    i as int,
                    prefix@,
                    views(act0),
                ));
            }
        } else {
            out.push(line);
            let mut next_prefix = prefix.clone();
            if last {
                next_prefix.append("    ");
            } else {
                next_prefix.append("│   ");
            }
            let ghost mid = views(out@);
            active.push(child.clone());
            let grandchildren = filtered_dependencies(child.as_str(), graph, filter);
            proof {
                assert(kids.to_set().contains(child@));
                assert(views(active@) =~= views(act0).push(child@));
                lemma_difference_shrinks(dependency_universe(g), views(act0), child@);
                assert(dependency_universe(*graph).difference(views(active@).to_set()).len()
                    < dependency_universe(*graph).difference(views(old(active)@).to_set()).len());
            }
            render_children(&grandchildren, &next_prefix, graph, filter, active, out);
            let _ = active.pop();
            proof {
                assert(active@ =~= act0);
                let sub = children_lines(
                    g,
                    f,
                    tree_children(g, f, child@),
                    0,
                    prefix@ + extension(last),
                    views(act0).push(child@),
                );
                assert(views(out@) == mid + sub);
                assert(mid =~= before.push(prefix@ + branch(last) + child@));
                assert(children_lines(g, f, kids, i as int, prefix@, views(act0)) == seq![
                    prefix@ + branch(last) + child@,
                ] + sub + rest);
                assert(views(out@) + rest =~= before + children_lines(
                    g,
                    f,
                    kids,
                    i as int,
                    prefix@,
                    views(act0),
                ));
            }
        }
        i = i + 1;
    }
    proof {
        assert(children_lines(g, f, kids, n as int, prefix@, views(act0)) =~= Seq::<Seq<char>>::empty());
        assert(views(out@) =~= views(out@) + children_lines(g, f, kids, n as int, prefix@, views(act0)));
    }
}

/// The lines of the dependency tree of `root`: the root itself, then each
/// child with its branch, indented below its parent, in ascending order; a
/// mod already on the path from the root is marked `(cycle)` and not
/// expanded again.
pub fn render_tree(root: &str, graph: &DependencyGraph, filter: &TreeFilter) -> (r: Vec<String>)
    ensures
        views(r@) == tree_lines(*graph, *filter, root@),
{
    let _ = graph.len();
    proof {
        lemma_dependency_universe(*graph);
    }
    let mut out: Vec<String> = Vec::new();
    out.push(root.to_string());
    let mut active: Vec<String> = Vec::new();
    active.push(root.to_string());
    let children = filtered_dependencies(root, graph, filter);
    let prefix = String::new();
    proof {
        assert(views(active@) =~= seq![root@]);
        assert(views(out@) =~= seq![root@]);
    }
    render_children(&children, &prefix, graph, filter, &mut active, &mut out);
    out
}

/// The lines of the dependency trees of `roots`, one tree after the other.
pub fn render_forest(roots: &[String], graph: &DependencyGraph, filter: &TreeFilter) -> (r: Vec<
    String,
>)
    ensures
        views(r@) == forest_lines(*graph, *filter, views(roots@)),
{
    let mut out: Vec<String> = Vec::new();
    let n = roots.len();
    proof {
        assert(views(roots@).take(0) =~= Seq::<Seq<char>>::empty());
        assert(views(out@) =~= forest_lines(*graph, *filter, views(roots@).take(0)));
    }
    for i in 0..n
        invariant
            n == roots@.len(),
            views(out@) == forest_lines(*graph, *filter, views(roots@).take(i as int)),
    {
        let lines = render_tree(roots[i].as_str(), graph, filter);
        let ghost before = views(out@);
        let m = lines.len();
        for j in 0..m
            invariant
                m == lines@.len(),
                views(out@) == before + views(lines@).take(j as int),
        {
            let ghost prev = views(out@);
            out.push(lines[j].clone());
            proof {
                assert(views(out@) =~= prev.push(lines@[j as int]@));
                assert(views(lines@).take(j + 1) =~= views(lines@).take(j as int).push(lines@[j as int]@));
                assert(views(out@) =~= before + views(lines@).take(j + 1));
            }
        }
        proof {
            let t = views(roots@).take(i + 1);
            assert(t.drop_last() =~= views(roots@).take(i as int));
            assert(t.last() == roots@[i as int]@);
            assert(views(lines@).take(m as int) =~= views(lines@));
        }
    }
    proof {
        assert(views(roots@).take(n as int) =~= views(roots@));
    }
    out
}


/// The roots of the local forest: explicit mods, and only loaded ones when
/// `loaded_only` holds.
pub open spec fn forest_roots(state: StateTable, loaded_only: bool) -> Set<Seq<char>> {
    Set::new(
        |k: Seq<char>|
            state@.dom().contains(k) && state@[k].is_explicit && (!loaded_only || state@[k].loaded),
    )
}

/// The roots of the local forest in ascending order, each once.
pub fn tree_roots(state: &StateTable, loaded_only: bool) -> (r: Vec<String>)
    ensures
        crate::order::is_sorted(views(r@)),
        views(r@).no_duplicates(),
        views(r@).to_set() == forest_roots(*state, loaded_only),
{
    let ghost st = *state;
    let keys = state.keys();
    let n = keys.len();
    proof {
        st.lemma_view();
    }
    let mut roots: Vec<String> = Vec::new();
    for i in 0..n
        invariant
            n == keys.len(),
            st == *state,
            st.table_wf(),
            n == st.key_seq().len(),
            forall|j: int| 0 <= j < n ==> #[trigger] keys@[j]@ == st.key_seq()[j],
            st@.dom() == st.key_seq().to_set(),
            views(roots@).no_duplicates(),
            forall|k: Seq<char>|
                #[trigger] views(roots@).contains(k) <==> (st.key_seq().take(i as int).contains(k)
                    && st@[k].is_explicit && (!loaded_only || st@[k].loaded)),
    {
        let v = state.value_at(i);
        let ghost k = st.key_seq()[i as int];
        let ghost before = views(roots@);
        proof {
            crate::text::lemma_take_next(st.key_seq(), i as int);
        }
        if v.is_explicit && (!loaded_only || v.loaded) {
            roots.push(keys[i].clone());
            proof {
                assert(views(roots@) =~= before.push(k));
                crate::text::lemma_push_contains(before, k);
                if before.contains(k) {
                    let j = st.key_seq().take(i as int).index_of(k);
                    assert(st.key_seq()[j] == k);
                }
            }
        }
    }
    proof {
        assert(st.key_seq().take(n as int) =~= st.key_seq());
        assert(views(roots@).to_set() =~= forest_roots(st, loaded_only));
    }
    let r = sorted_strings(&roots);
    proof {
        crate::order::lemma_same_multiset(views(r@), views(roots@));
    }
    r
}

} // verus!

verus! {

/// The line that shows `name` behind `pre` and the branch `branch(last)`.
pub open spec fn branch_line(pre: Seq<char>, last: bool, name: Seq<char>) -> Seq<char> {
    pre + branch(last) + name
}

/// `d` is a dependency of `m` that the tree of `m` shows: `m`'s graph entry
/// lists it, it is not ignored, and the filter shows it.
pub open spec fn shown_dependency(
    graph: DependencyGraph,
    filter: TreeFilter<'_>,
    m: Seq<char>,
    d: Seq<char>,
) -> bool {
    &&& graph@.dom().contains(m)
    &&& dependency_names(graph@[m].dependencies@).contains(d)
    &&& !spec_is_ignored_dependency(d)
    &&& spec_includes(filter, d)
}

/// `p` is a path without repeats in which each mod is a shown dependency of
/// the one before.
pub open spec fn shown_path(graph: DependencyGraph, filter: TreeFilter<'_>, p: Seq<Seq<char>>) -> bool {
    &&& p.no_duplicates()
    &&& forall|t: int, u: int|
        #![trigger p[t], p[u]]
        0 <= t && u == t + 1 && u < p.len() ==> shown_dependency(graph, filter, p[t], p[u])
}

/// A shown dependency is among the children of its mod in the tree.
proof fn lemma_shown_is_child(graph: DependencyGraph, filter: TreeFilter<'_>, m: Seq<char>, d: Seq<char>)
    requires
        shown_dependency(graph, filter, m, d),
    ensures
        tree_children(graph, filter, m).contains(d),
{
    let names = dependency_names(graph@[m].dependencies@);
    let pred = |n: Seq<char>| !spec_is_ignored_dependency(n) && spec_includes(filter, n);
    let q = names.index_of(d);
    names.lemma_filter_contains(pred, q);
    let w = wanted_dependencies(graph, filter, m);
    assert(w == names.filter(pred));
    crate::order::lemma_sort_seq(w);
    crate::order::lemma_same_multiset(sort_seq(w), w);
    assert(w.to_set().contains(d));
}

/// Below a node whose path from the root is `active`, the lines of
/// `children[i..]` show the end of every shown path that starts at one of
/// those children and avoids `active`, indented by four chars per step.
proof fn lemma_children_lines_reach(
    graph: DependencyGraph,
    filter: TreeFilter<'_>,
    children: Seq<Seq<char>>,
    i: int,
    k: int,
    prefix: Seq<char>,
    active: Seq<Seq<char>>,
    p: Seq<Seq<char>>,
)
    requires
        graph.table_wf(),
        0 <= i <= k < children.len(),
        p.len() >= 1,
        children[k] == p[0],
        dependency_universe(graph).contains(p[0]),
        shown_path(graph, filter, p),
        forall|t: int| 0 <= t < p.len() ==> !active.contains(#[trigger] p[t]),
    ensures
        exists|j: int, pre: Seq<char>, b: bool|
            #![trigger children_lines(graph, filter, children, i, prefix, active)[j], branch_line(pre, b, p.last())]
            0 <= j < children_lines(graph, filter, children, i, prefix, active).len()
                && children_lines(graph, filter, children, i, prefix, active)[j]
                == branch_line(pre, b, p.last()) && pre.len() == prefix.len() + 4 * (p.len() - 1),
    decreases dependency_universe(graph).difference(active.to_set()).len(), children.len() - i,
{
    let cl = children_lines(graph, filter, children, i, prefix, active);
    let u = dependency_universe(graph);
    lemma_dependency_universe(graph);
    let c = children[i];
    let last = i + 1 == children.len();
    let line = prefix + branch(last) + c;
    let rest = children_lines(graph, filter, children, i + 1, prefix, active);
    if i < k {
        lemma_children_lines_reach(graph, filter, children, i + 1, k, prefix, active, p);
        let (j, pre, b) = choose|j: int, pre: Seq<char>, b: bool|
            #![trigger rest[j], branch_line(pre, b, p.last())]
            0 <= j < rest.len() && rest[j] == branch_line(pre, b, p.last()) && pre.len()
                == prefix.len() + 4 * (p.len() - 1);
        let head = cl.len() - rest.len();
        if active.contains(c) {
            assert(cl == seq![line + " (cycle)"@] + rest);
        } else if !u.contains(c) {
            assert(cl == seq![line] + rest);
        } else {
            let sub = children_lines(
                graph,
                filter,
                tree_children(graph, filter, c),
                0,
                prefix + extension(last),
                active.push(c),
            );
            assert(cl == seq![line] + sub + rest);
        }
        assert(cl[head + j] == rest[j]);
    } else {
        assert(c == p[0]);
        assert(!active.contains(c));
        let sub = children_lines(
            graph,
            filter,
            tree_children(graph, filter, c),
            0,
            prefix + extension(last),
            active.push(c),
        );
        assert(cl == seq![line] + sub + rest);
        if p.len() == 1 {
            assert(cl[0] == branch_line(prefix, last, p.last()));
        } else {
            let q = p.drop_first();
            assert(p[0] == p[0] && p[1] == p[1]);
            assert(shown_dependency(graph, filter, p[0], p[1]));
            lemma_shown_is_child(graph, filter, p[0], p[1]);
            let kids = tree_children(graph, filter, c);
            let k2 = kids.index_of(p[1]);
            assert(depends_on(graph, p[0], p[1]));
            assert(u.contains(q[0]));
            assert forall|t: int, v: int|
                #![trigger q[t], q[v]]
                0 <= t && v == t + 1 && v < q.len() implies shown_dependency(graph, filter, q[t], q[v]) by {
                assert(q[t] == p[t + 1] && q[v] == p[v + 1]);
            }
            assert(q.no_duplicates()) by {
                assert forall|a: int, b: int| 0 <= a < b < q.len() implies q[a] != q[b] by {
                    assert(q[a] == p[a + 1] && q[b] == p[b + 1]);
                }
            }
            let act2 = active.push(c);
            assert forall|t: int| 0 <= t < q.len() implies !act2.contains(#[trigger] q[t]) by {
                assert(q[t] == p[t + 1]);
                assert(!active.contains(p[t + 1]));
                assert(p[t + 1] != p[0]);
                if act2.contains(q[t]) {
                    let x = act2.index_of(q[t]);
                    if x < active.len() {
                        assert(active[x] == q[t]);
                    }
                }
            }
            lemma_difference_shrinks(u, active, c);
            lemma_children_lines_reach(graph, filter, kids, 0, k2, prefix + extension(last), act2, q);
            let (j, pre, b) = choose|j: int, pre: Seq<char>, b: bool|
                #![trigger sub[j], branch_line(pre, b, q.last())]
                0 <= j < sub.len() && sub[j] == branch_line(pre, b, q.last()) && pre.len()
                    == (prefix + extension(last)).len() + 4 * (q.len() - 1);
            reveal_strlit("    ");
            reveal_strlit("│   ");
            assert(extension(last).len() == 4);
            assert(q.last() == p.last());
            assert(cl[1 + j] == sub[j]);
        }
    }
}

/// The tree of a mod shows every mod that can be reached from it along
/// shown dependencies without repeating a mod, at any depth: the last mod of
/// such a path gets a line of its own, after a branch indented by four chars
/// for every step beyond the first.
pub proof fn lemma_tree_shows_every_path(graph: DependencyGraph, filter: TreeFilter<'_>, p: Seq<Seq<char>>)
    requires
        graph.table_wf(),
        p.len() >= 2,
        shown_path(graph, filter, p),
    ensures
        exists|j: int, pre: Seq<char>, b: bool|
            #![trigger tree_lines(graph, filter, p[0])[j], branch_line(pre, b, p.last())]
            0 <= j < tree_lines(graph, filter, p[0]).len() && tree_lines(graph, filter, p[0])[j]
                == branch_line(pre, b, p.last()) && pre.len() == 4 * (p.len() - 2),
{
    let root = p[0];
    let q = p.drop_first();
    lemma_dependency_universe(graph);
    assert(p[0] == p[0] && p[1] == p[1]);
    assert(shown_dependency(graph, filter, p[0], p[1]));
    lemma_shown_is_child(graph, filter, root, p[1]);
    assert(depends_on(graph, root, p[1]));
    let kids = tree_children(graph, filter, root);
    let k = kids.index_of(p[1]);
    assert forall|t: int, v: int|
        #![trigger q[t], q[v]]
        0 <= t && v == t + 1 && v < q.len() implies shown_dependency(graph, filter, q[t], q[v]) by {
        assert(q[t] == p[t + 1] && q[v] == p[v + 1]);
    }
    assert(q.no_duplicates()) by {
        assert forall|a: int, b: int| 0 <= a < b < q.len() implies q[a] != q[b] by {
            assert(q[a] == p[a + 1] && q[b] == p[b + 1]);
        }
    }
    let active = seq![root];
    assert forall|t: int| 0 <= t < q.len() implies !active.contains(#[trigger] q[t]) by {
        assert(q[t] == p[t + 1]);
        assert(p[t + 1] != p[0]);
        if active.contains(q[t]) {
            assert(active[active.index_of(q[t])] == q[t]);
        }
    }
    lemma_children_lines_reach(graph, filter, kids, 0, k, Seq::empty(), active, q);
    let cl = children_lines(graph, filter, kids, 0, Seq::empty(), active);
    let (j, pre, b) = choose|j: int, pre: Seq<char>, b: bool|
        #![trigger cl[j], branch_line(pre, b, q.last())]
        0 <= j < cl.len() && cl[j] == branch_line(pre, b, q.last()) && pre.len() == 4 * (q.len()
            - 1);
    assert(tree_lines(graph, filter, root) == seq![root] + cl);
    assert(tree_lines(graph, filter, root)[1 + j] == cl[j]);
    assert(q.last() == p.last());
}

} // verus!
