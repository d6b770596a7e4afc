use vstd::prelude::*;
use vstd::set_lib::*;
use vstd::seq_lib::*;
use crate::models::{ModEntry, dependency_names, spec_is_ignored_dependency, is_ignored_dependency};
use crate::table::ModTable;
use crate::text::{views, contains_string};

verus! {

/// The dependency graph: each mod identifier maps to its graph entry.
pub type DependencyGraph = ModTable<ModEntry>;

/// `m` has an entry in `graph` that lists `d` among its dependencies, and
/// `d` is not one of the ignored core names.
pub open spec fn depends_on(graph: DependencyGraph, m: Seq<char>, d: Seq<char>) -> bool {
    &&& graph@.dom().contains(m)
    &&& dependency_names(graph@[m].dependencies@).contains(d)
    &&& !spec_is_ignored_dependency(d)
}

/// Every non-ignored dependency of a member of `s` is a member of `s`.
pub open spec fn is_closed(graph: DependencyGraph, s: Set<Seq<char>>) -> bool {
    forall|m: Seq<char>, d: Seq<char>|
        #![trigger s.contains(m), depends_on(graph, m, d)]
        s.contains(m) && depends_on(graph, m, d) ==> s.contains(d)
}

/// `s` is the dependency closure of `roots`: the least set that contains the
/// roots and is closed under the (non-ignored) dependencies of the graph.
pub open spec fn is_dependency_closure(
    graph: DependencyGraph,
    roots: Set<Seq<char>>,
    s: Set<Seq<char>>,
) -> bool {
    &&& roots.subset_of(s)
    &&& is_closed(graph, s)
    &&& forall|t: Set<Seq<char>>|
        #[trigger] is_closed(graph, t) && roots.subset_of(t) ==> s.subset_of(t)
}

/// The dependency closure of `roots` in `graph` (see `is_dependency_closure`;
/// `collect_needed_mods` computes it, and it is unique).
pub open spec fn needed_closure(graph: DependencyGraph, roots: Set<Seq<char>>) -> Set<Seq<char>> {
    choose|s: Set<Seq<char>>| is_dependency_closure(graph, roots, s)
}

/// There is at most one dependency closure of a set of roots.
pub proof fn lemma_closure_unique(
    graph: DependencyGraph,
    roots: Set<Seq<char>>,
    s1: Set<Seq<char>>,
    s2: Set<Seq<char>>,
)
    requires
        is_dependency_closure(graph, roots, s1),
        is_dependency_closure(graph, roots, s2),
    ensures
        s1 == s2,
{
    assert(is_closed(graph, s1));
    assert(is_closed(graph, s2));
    assert(s1 =~= s2);
}

/// A set that is a dependency closure is the one `needed_closure` names.
pub proof fn lemma_is_needed_closure(graph: DependencyGraph, roots: Set<Seq<char>>, s: Set<Seq<char>>)
    requires
        is_dependency_closure(graph, roots, s),
    ensures
        needed_closure(graph, roots) == s,
{
    lemma_closure_unique(graph, roots, needed_closure(graph, roots), s);
}

/// All dependency names that the given graph entries mention.
pub open spec fn all_dependency_names(entries: Seq<ModEntry>) -> Seq<Seq<char>>
    decreases entries.len(),
{
    if entries.len() == 0 {
        Seq::empty()
    } else {
        all_dependency_names(entries.drop_last()) + dependency_names(
            entries.last().dependencies@,
        )
    }
}

proof fn lemma_all_dependency_names(entries: Seq<ModEntry>, i: int, d: Seq<char>)
    requires
        0 <= i < entries.len(),
        dependency_names(entries[i].dependencies@).contains(d),
    ensures
        all_dependency_names(entries).contains(d),
    decreases entries.len(),
{
    let rest = all_dependency_names(entries.drop_last());
    let last = dependency_names(entries.last().dependencies@);
    if i == entries.len() - 1 {
        let j = last.index_of(d);
        assert((rest + last)[rest.len() + j] == d);
    } else {
        lemma_all_dependency_names(entries.drop_last(), i, d);
        let j = rest.index_of(d);
        assert((rest + last)[j] == d);
    }
}

/// Every dependency target of the graph lies in a finite set.
pub proof fn lemma_dependency_universe(graph: DependencyGraph)
    requires
        graph.table_wf(),
    ensures
        all_dependency_names(graph.value_seq()).to_set().finite(),
        forall|m: Seq<char>, d: Seq<char>|
            #[trigger] depends_on(graph, m, d) ==> all_dependency_names(
                graph.value_seq(),
            ).to_set().contains(d),
{
    seq_to_set_is_finite(all_dependency_names(graph.value_seq()));
    graph.lemma_view();
    assert forall|m: Seq<char>, d: Seq<char>| #[trigger] depends_on(graph, m, d) implies all_dependency_names(
        graph.value_seq(),
    ).to_set().contains(d) by {
        let i = graph.key_seq().index_of(m);
        assert(graph.key_seq()[i] == m);
        lemma_all_dependency_names(graph.value_seq(), i, d);
    }
}

/// The set of mods needed by `explicit_mods`: the explicit mods together with
/// every mod reachable from them through non-ignored dependencies of the
/// graph. The result has no duplicates.
pub fn collect_needed_mods(explicit_mods: Vec<String>, graph: &DependencyGraph) -> (r: Vec<String>)
    ensures
        views(r@).no_duplicates(),
        is_dependency_closure(*graph, views(explicit_mods@).to_set(), views(r@).to_set()),
        views(r@).to_set() == needed_closure(*graph, views(explicit_mods@).to_set()),
{
    let ghost g = *graph;
    let ghost roots = views(explicit_mods@).to_set();
    let _ = graph.len();
    proof {
        lemma_dependency_universe(g);
        seq_to_set_is_finite(views(explicit_mods@));
    }
    let ghost universe = roots.union(all_dependency_names(g.value_seq()).to_set());
    let mut needed: Vec<String> = Vec::new();
    let ghost mut seen: Set<Seq<char>> = Set::empty();
    let mut queue = explicit_mods;
    proof {
        assert(views(queue@).to_set() =~= roots);
        assert(views(needed@).to_set() =~= seen);
    }
    while queue.len() > 0
        invariant
            g == *graph,
            g.table_wf(),
            universe.finite(),
            universe == roots.union(all_dependency_names(g.value_seq()).to_set()),
            forall|m: Seq<char>, d: Seq<char>|
                #[trigger] depends_on(g, m, d) ==> all_dependency_names(
                    g.value_seq(),
                ).to_set().contains(d),
            seen == views(needed@).to_set(),
            views(needed@).no_duplicates(),
            seen.subset_of(universe),
            views(queue@).to_set().subset_of(universe),
            roots.subset_of(seen.union(views(queue@).to_set())),
            forall|m: Seq<char>, d: Seq<char>|
                #![trigger seen.contains(m), depends_on(g, m, d)]
                seen.contains(m) && depends_on(g, m, d) ==> seen.contains(d) || views(
                    queue@,
                ).contains(d),
            forall|t: Set<Seq<char>>|
                #[trigger] is_closed(g, t) && roots.subset_of(t) ==> seen.subset_of(t)
                    && views(queue@).to_set().subset_of(t),
        decreases universe.len() - seen.len(), queue.len(),
    {
        proof {
            lemma_len_subset(seen, universe);
        }
        let ghost old_queue = views(queue@);
        let m = queue.pop().unwrap();
        proof {
            assert(old_queue == views(queue@).push(m@));
            assert(old_queue[old_queue.len() - 1] == m@);
        }
        if !contains_string(&needed, m.as_str()) {
            let ghost old_seen = seen;
            let ghost prev_needed = views(needed@);
            let ghost mid_queue = views(queue@);
            needed.push(m.clone());
            proof {
                seen = seen.insert(m@);
                assert(views(needed@) =~= prev_needed.push(m@));
                assert forall|x: Seq<char>| views(needed@).to_set().contains(x) <==> #[trigger] prev_needed.to_set().insert(m@).contains(x) by {
                    if views(needed@).contains(x) {
                        let i = views(needed@).index_of(x);
                        if i < prev_needed.len() {
                            assert(prev_needed[i] == x);
                        }
                    }
                    if prev_needed.contains(x) {
                        let i = prev_needed.index_of(x);
                        assert(views(needed@)[i] == x);
                    }
                    if x == m@ {
                        assert(views(needed@)[prev_needed.len() as int] == x);
                    }
                }
                assert(views(needed@).to_set() =~= prev_needed.to_set().insert(m@));
                assert(old_queue.contains(m@));
                assert(old_queue.to_set().contains(m@));
            }
            match graph.get(m.as_str()) {
                Some(entry) => {
                    let deps = &entry.dependencies;
                    let k = deps.len();
                    let mut j: usize = 0;
                    #[verifier::loop_isolation(false)]
                    while j < k
                        invariant
                            j <= k,
                            k == deps@.len(),
                            *entry == g@[m@],
                            g@.dom().contains(m@),
                            views(queue@).len() >= mid_queue.len(),
                            forall|i: int| 0 <= i < mid_queue.len() ==> views(queue@)[i] == mid_queue[i],
                            forall|x: Seq<char>|
                                #[trigger] views(queue@).contains(x) ==> mid_queue.contains(x) || depends_on(
                                    g,
                                    m@,
                                    x,
                                ),
                            forall|jj: int|
                                0 <= jj < j && !spec_is_ignored_dependency(deps@[jj].name@)
                                    ==> #[trigger] views(queue@).contains(deps@[jj].name@),
                        decreases k - j,
                    {
                        if !is_ignored_dependency(deps[j].name.as_str()) {
                            let ghost before = views(queue@);
                            queue.push(deps[j].name.clone());
                            proof {
                                let d = deps@[j as int].name@;
                                assert(views(queue@) =~= before.push(d));
                                assert(dependency_names(g@[m@].dependencies@)[j as int] == d);
                                assert(depends_on(g, m@, d));
                                assert(views(queue@)[before.len() as int] == d);
                                assert forall|x: Seq<char>| #[trigger] views(queue@).contains(x) implies mid_queue.contains(x)
                                    || depends_on(g, m@, x) by {
                                    if x != d {
                                        let i = views(queue@).index_of(x);
                                        assert(before[i] == x);
                                        assert(before.contains(x));
                                    }
                                }
                                assert forall|jj: int|
                                    0 <= jj < j + 1 && !spec_is_ignored_dependency(deps@[jj].name@)
                                        implies #[trigger] views(queue@).contains(deps@[jj].name@) by {
                                    if jj < j {
                                        assert(before.contains(deps@[jj].name@));
                                        let i = before.index_of(deps@[jj].name@);
                                        assert(views(queue@)[i] == deps@[jj].name@);
                                    }
                                }
                            }
                        }
                        j = j + 1;
                    }
                    proof {
                        assert forall|d: Seq<char>| depends_on(g, m@, d) implies #[trigger] views(queue@).contains(d) by {
                            let jj = dependency_names(deps@).index_of(d);
                            assert(deps@[jj].name@ == d);
                        }
                    }
                },
                None => {},
            }
            proof {
                let q = views(queue@);
                assert(seen.subset_of(universe));
                assert(q.to_set().subset_of(universe)) by {
                    assert forall|x: Seq<char>| q.to_set().contains(x) implies universe.contains(x) by {
                        if mid_queue.contains(x) {
                            let i = mid_queue.index_of(x);
                            assert(old_queue[i] == x);
                            assert(old_queue.to_set().contains(x));
                        } else {
                            assert(depends_on(g, m@, x));
                        }
                    }
                }
                assert forall|x: Seq<char>| mid_queue.contains(x) implies #[trigger] q.contains(x) by {
                    let i = mid_queue.index_of(x);
                    assert(q[i] == x);
                }
                assert(roots.subset_of(seen.union(q.to_set()))) by {
                    assert forall|x: Seq<char>| roots.contains(x) implies seen.union(q.to_set()).contains(x) by {
                        if !old_seen.contains(x) {
                            assert(old_queue.to_set().contains(x));
                            let i = old_queue.index_of(x);
                            if i < mid_queue.len() {
                                assert(mid_queue[i] == x);
                                assert(q.contains(x));
                            }
                        }
                    }
                }
                assert forall|x: Seq<char>, d: Seq<char>|
                    #![trigger seen.contains(x), depends_on(g, x, d)]
                    seen.contains(x) && depends_on(g, x, d) implies seen.contains(d) || q.contains(d) by {
                    if x != m@ {
                        assert(old_seen.contains(x));
                        if !old_seen.contains(d) {
                            assert(old_queue.contains(d));
                            let i = old_queue.index_of(d);
                            if i < mid_queue.len() {
                                assert(mid_queue[i] == d);
                            }
                        }
                    }
                }
                assert forall|t: Set<Seq<char>>|
                    #[trigger] is_closed(g, t) && roots.subset_of(t) implies seen.subset_of(t) && q.to_set().subset_of(t) by {
                    assert(old_queue.to_set().subset_of(t));
                    assert(t.contains(m@));
                    assert forall|x: Seq<char>| q.to_set().contains(x) implies t.contains(x) by {
                        if mid_queue.contains(x) {
                            let i = mid_queue.index_of(x);
                            assert(old_queue[i] == x);
                            assert(old_queue.to_set().contains(x));
                        } else {
                            assert(depends_on(g, m@, x));
                        }
                    }
                }
                lemma_len_subset(seen, universe);
            }
        } else {
            proof {
                let q = views(queue@);
                assert(seen.contains(m@));
                assert forall|x: Seq<char>| #[trigger] q.contains(x) implies old_queue.contains(x) by {
                    let i = q.index_of(x);
                    assert(old_queue[i] == x);
                }
                assert(q.to_set().subset_of(old_queue.to_set()));
                assert(roots.subset_of(seen.union(q.to_set()))) by {
                    assert forall|x: Seq<char>| roots.contains(x) implies seen.union(q.to_set()).contains(x) by {
                        if !seen.contains(x) {
                            assert(old_queue.to_set().contains(x));
                            let i = old_queue.index_of(x);
                            if i < q.len() {
                                assert(q[i] == x);
                                assert(q.contains(x));
                            }
                        }
                    }
                }
                assert forall|x: Seq<char>, d: Seq<char>|
                    #![trigger seen.contains(x), depends_on(g, x, d)]
                    seen.contains(x) && depends_on(g, x, d) implies seen.contains(d) || q.contains(d) by {
                    if !seen.contains(d) {
                        assert(old_queue.contains(d));
                        let i = old_queue.index_of(d);
                        if i < q.len() {
                            assert(q[i] == d);
                        }
                    }
                }
            }
        }
    }
    proof {
        assert(views(queue@).to_set() =~= Set::empty());
        assert(is_dependency_closure(g, roots, seen));
        lemma_is_needed_closure(g, roots, seen);
    }
    needed
}

} // verus!

verus! {

/// The dependency closure of `roots` (see `collect_needed_mods`) in
/// ascending order, each mod once.
pub fn sorted_closure(roots: Vec<String>, graph: &DependencyGraph) -> (r: Vec<String>)
    ensures
        crate::order::is_sorted(views(r@)),
        views(r@).no_duplicates(),
        views(r@).to_set() == needed_closure(*graph, views(roots@).to_set()),
{
    let needed = collect_needed_mods(roots, graph);
    let r = crate::order::sorted_strings(&needed);
    proof {
        crate::order::lemma_same_multiset(views(r@), views(needed@));
    }
    r
}

} // verus!

verus! {

/// The ignored core names never enter a dependency closure unless they are
/// roots themselves.
pub proof fn lemma_closure_skips_ignored(
    graph: DependencyGraph,
    roots: Set<Seq<char>>,
    s: Set<Seq<char>>,
    name: Seq<char>,
)
    requires
        is_dependency_closure(graph, roots, s),
        spec_is_ignored_dependency(name),
        !roots.contains(name),
    ensures
        !s.contains(name),
{
    let t = s.remove(name);
    assert forall|m: Seq<char>, d: Seq<char>|
        #![trigger t.contains(m), depends_on(graph, m, d)]
        t.contains(m) && depends_on(graph, m, d) implies t.contains(d) by {
        assert(s.contains(m));
    }
    assert(is_closed(graph, t));
    assert(roots.subset_of(t));
}

/// Growing the roots can only grow the dependency closure.
pub proof fn lemma_closure_monotone(
    graph: DependencyGraph,
    roots1: Set<Seq<char>>,
    s1: Set<Seq<char>>,
    roots2: Set<Seq<char>>,
    s2: Set<Seq<char>>,
)
    requires
        is_dependency_closure(graph, roots1, s1),
        is_dependency_closure(graph, roots2, s2),
        roots1.subset_of(roots2),
    ensures
        s1.subset_of(s2),
{
    assert(is_closed(graph, s2));
}

} // verus!
