use vstd::prelude::*;
use crate::graph::{DependencyGraph, collect_needed_mods, needed_closure};
use crate::order::{is_sorted, lemma_same_multiset, sorted_strings};
use crate::state::{StateTable, set_loaded, with_loaded};
use crate::text::{contains_string, views};

verus! {

/// Why a mod named in an unload request is left alone.
#[derive(PartialEq, Eq, Structural, Debug, Clone, Copy)]
pub enum UnloadSkip {
    /// It is only a dependency of other mods.
    Dependency,
    /// It is not loaded.
    NotLoaded,
    /// The state does not record it.
    NotInstalled,
}

/// A request that names no mod at all.
#[derive(PartialEq, Eq, Structural, Debug, Clone, Copy)]
pub enum UnloadError {
    NoModIds,
}

/// The mods an unload request names, sorted into those to unload and those
/// left alone (with the reason, in request order).
pub struct UnloadRequests {
    pub accepted: Vec<String>,
    pub skipped: Vec<(String, UnloadSkip)>,
}

/// Why `id` cannot be unloaded on request, if it cannot.
pub open spec fn unload_skip_reason(state: StateTable, id: Seq<char>) -> Option<UnloadSkip> {
    if !state@.dom().contains(id) {
        Some(UnloadSkip::NotInstalled)
    } else if !state@[id].is_explicit {
        Some(UnloadSkip::Dependency)
    } else if !state@[id].loaded {
        Some(UnloadSkip::NotLoaded)
    } else {
        None
    }
}

/// The identifiers of `ids` that are left alone, in order, with the reason.
pub open spec fn skipped_unloads(state: StateTable, ids: Seq<Seq<char>>) -> Seq<
    (Seq<char>, UnloadSkip),
>
    decreases ids.len(),
{
    if ids.len() == 0 {
        Seq::empty()
    } else {
        let rest = skipped_unloads(state, ids.drop_last());
        match unload_skip_reason(state, ids.last()) {
            Some(reason) => rest.push((ids.last(), reason)),
            None => rest,
        }
    }
}

/// The character sequences and reasons of a list of skipped mods.
pub open spec fn skip_views(v: Seq<(String, UnloadSkip)>) -> Seq<(Seq<char>, UnloadSkip)> {
    Seq::new(v.len(), |i: int| (v[i].0@, v[i].1))
}

/// The explicit, loaded mods that are not asked to be unloaded: what they
/// need stays loaded.
pub open spec fn kept_roots(state: StateTable, requested: Set<Seq<char>>) -> Set<Seq<char>> {
    Set::new(
        |k: Seq<char>|
            state@.dom().contains(k) && state@[k].loaded && state@[k].is_explicit
                && !requested.contains(k),
    )
}

/// The loaded mods that nothing kept needs any more.
pub open spec fn mods_to_unload(
    state: StateTable,
    graph: DependencyGraph,
    requested: Set<Seq<char>>,
) -> Set<Seq<char>> {
    Set::new(
        |k: Seq<char>|
            state@.dom().contains(k) && state@[k].loaded && !needed_closure(
                graph,
                kept_roots(state, requested),
            ).contains(k),
    )
}

/// Sorts the mods an unload request names into those to unload (explicit
/// and loaded) and those left alone; a request naming no mod is an error.
pub fn unload_requests(state: &StateTable, mod_ids: &[String]) -> (r: Result<
    UnloadRequests,
    UnloadError,
>)
    ensures
        mod_ids.len() == 0 <==> r is Err,
        r matches Ok(req) ==> {
            &&& views(req.accepted@).no_duplicates()
            &&& views(req.accepted@).to_set() == Set::new(
                |k: Seq<char>| views(mod_ids@).contains(k) && unload_skip_reason(*state, k) is None,
            )
            &&& skip_views(req.skipped@) == skipped_unloads(*state, views(mod_ids@))
        },
{
    if mod_ids.len() == 0 {
        return Err(UnloadError::NoModIds);
    }
    let mut accepted: Vec<String> = Vec::new();
    let mut skipped: Vec<(String, UnloadSkip)> = Vec::new();
    let n = mod_ids.len();
    proof {
        assert(views(mod_ids@).take(0) =~= Seq::<Seq<char>>::empty());
        assert(skip_views(skipped@) =~= Seq::<(Seq<char>, UnloadSkip)>::empty());
    }
    for i in 0..n
        invariant
            n == mod_ids@.len(),
            views(accepted@).no_duplicates(),
            views(accepted@).to_set() == Set::new(
                |k: Seq<char>|
                    views(mod_ids@).take(i as int).contains(k) && unload_skip_reason(*state, k) is None,
            ),
            skip_views(skipped@) == skipped_unloads(*state, views(mod_ids@).take(i as int)),
    {
        let id = &mod_ids[i];
        let ghost ids_i = views(mod_ids@).take(i as int);
        let ghost ids_next = views(mod_ids@).take(i + 1);
        proof {
            assert(ids_next.drop_last() =~= ids_i);
            assert(ids_next.last() == id@);
        }
        let reason = match state.get(id.as_str()) {
            None => Some(UnloadSkip::NotInstalled),
            Some(s) => {
                if !s.is_explicit {
                    Some(UnloadSkip::Dependency)
                } else if !s.loaded {
                    Some(UnloadSkip::NotLoaded)
                } else {
                    None
                }
            },
        };
        assert(reason == unload_skip_reason(*state, id@));
        match reason {
            Some(why) => {
                let ghost before = skip_views(skipped@);
                skipped.push((id.clone(), why));
                proof {
                    assert(skip_views(skipped@) =~= before.push((id@, why)));
                    assert(views(accepted@).to_set() =~= Set::new(
                        |k: Seq<char>| ids_next.contains(k) && unload_skip_reason(*state, k) is None,
                    )) by {
                        assert forall|k: Seq<char>| ids_next.contains(k) implies #[trigger] ids_i.contains(k) || k == id@ by {
                            let j = ids_next.index_of(k);
                            if j < i {
                                assert(ids_i[j] == k);
                            }
                        }
                        assert forall|k: Seq<char>| ids_i.contains(k) implies #[trigger] ids_next.contains(k) by {
                            let j = ids_i.index_of(k);
                            assert(ids_next[j] == k);
                        }
                    }
                }
            },
            None => {
                let already = contains_string(&accepted, id.as_str());
                let ghost before = views(accepted@);
                if !already {
                    accepted.push(id.clone());
                }
                proof {
                    if !already {
                        assert(views(accepted@) =~= before.push(id@));
                    }
                    assert(views(accepted@).to_set() =~= Set::new(
                        |k: Seq<char>| ids_next.contains(k) && unload_skip_reason(*state, k) is None,
                    )) by {
                        assert forall|k: Seq<char>| ids_next.contains(k) implies #[trigger] ids_i.contains(k) || k == id@ by {
                            let j = ids_next.index_of(k);
                            if j < i {
                                assert(ids_i[j] == k);
                            }
                        }
                        assert forall|k: Seq<char>| ids_i.contains(k) implies #[trigger] ids_next.contains(k) by {
                            let j = ids_i.index_of(k);
                            assert(ids_next[j] == k);
                        }
                        assert(ids_next[i as int] == id@);
                        assert forall|k: Seq<char>| views(accepted@).contains(k) implies #[trigger] before.contains(k) || k == id@ by {
                            let j = views(accepted@).index_of(k);
                            if j < before.len() {
                                assert(before[j] == k);
                            }
                        }
                        assert forall|k: Seq<char>| before.contains(k) implies #[trigger] views(accepted@).contains(k) by {
                            let j = before.index_of(k);
                            assert(views(accepted@)[j] == k);
                        }
                        if !already {
                            assert(views(accepted@)[before.len() as int] == id@);
                        }
                        assert(views(accepted@).contains(id@));
                        assert forall|k: Seq<char>| #[trigger] views(accepted@).contains(k) <==> (ids_next.contains(k)
                            && unload_skip_reason(*state, k) is None) by {
                            if k != id@ {
                                assert(views(accepted@).contains(k) <==> before.contains(k));
                                assert(before.to_set().contains(k) <==> before.contains(k));
                                assert(ids_next.contains(k) <==> ids_i.contains(k));
                            }
                        }
                    }
                }
            },
        }
    }
    proof {
        assert(views(mod_ids@).take(n as int) =~= views(mod_ids@));
    }
    Ok(UnloadRequests { accepted, skipped })
}


/// Unloads every loaded mod outside the dependency closure of the loaded
/// explicit mods not in `requested`, clearing their `loaded` flags; the
/// result lists them in ascending order.
fn unload_closure(
    state: &mut StateTable,
    graph: &DependencyGraph,
    requested: &[String],
) -> (r: Vec<String>)
    ensures
        is_sorted(views(r@)),
        views(r@).no_duplicates(),
        views(r@).to_set() == mods_to_unload(*old(state), *graph, views(requested@).to_set()),
        final(state).key_seq() == old(state).key_seq(),
        final(state)@.dom() == old(state)@.dom(),
        forall|k: Seq<char>|
            #[trigger] old(state)@.dom().contains(k) ==> final(state)@[k] == if views(
                r@,
            ).contains(k) {
                with_loaded(old(state)@[k], false)
            } else {
                old(state)@[k]
            },
        forall|k: Seq<char>|
            #[trigger] needed_closure(*graph, kept_roots(*old(state), views(requested@).to_set())).contains(k)
                && old(state)@.dom().contains(k) ==> final(state)@[k] == old(state)@[k],
        forall|k: Seq<char>|
            #[trigger] kept_roots(*old(state), views(requested@).to_set()).contains(k)
                ==> final(state)@[k] == old(state)@[k],
        forall|k: Seq<char>|
            #[trigger] final(state)@.dom().contains(k) && final(state)@[k].loaded ==> needed_closure(
                *graph,
                kept_roots(*old(state), views(requested@).to_set()),
            ).contains(k),
{
    let ghost req = views(requested@).to_set();
    let ghost st = *state;
    let keys = state.keys();
    let n = keys.len();
    proof {
        st.lemma_view();
    }
    let mut roots: Vec<String> = Vec::new();
    for i in 0..n
        invariant
            n == keys.len(),
            st == *state,
            st.table_wf(),
            req == views(requested@).to_set(),
            n == st.key_seq().len(),
            forall|j: int| 0 <= j < n ==> #[trigger] keys@[j]@ == st.key_seq()[j],
            st@.dom() == st.key_seq().to_set(),
            forall|k: Seq<char>|
                #[trigger] views(roots@).contains(k) <==> (st.key_seq().take(i as int).contains(k)
                    && st@[k].loaded && st@[k].is_explicit && !req.contains(k)),
    {
        let v = state.value_at(i);
        let ghost k = st.key_seq()[i as int];
        proof {
            assert(st.key_seq().take(i + 1) =~= st.key_seq().take(i as int).push(k));
        }
        let ghost before = views(roots@);
        if v.loaded && v.is_explicit && !contains_string(requested, keys[i].as_str()) {
            roots.push(keys[i].clone());
            proof {
                assert(views(roots@) =~= before.push(k));
            }
        }
        proof {
            let t0 = st.key_seq().take(i as int);
            let t1 = st.key_seq().take(i + 1);
            assert forall|q: Seq<char>| #[trigger] views(roots@).contains(q) <==> (t1.contains(q)
                && st@[q].loaded && st@[q].is_explicit && !req.contains(q)) by {
                assert(t1[i as int] == k);
                if q != k {
                    assert(t1.contains(q) <==> t0.contains(q)) by {
                        if t1.contains(q) {
                            let x = t1.index_of(q);
                            assert(t0[x] == q);
                        }
                        if t0.contains(q) {
                            let x = t0.index_of(q);
                            assert(t1[x] == q);
                        }
                    }
                    assert(views(roots@).contains(q) <==> before.contains(q)) by {
                        if views(roots@).contains(q) {
                            let x = views(roots@).index_of(q);
                            assert(before[x] == q);
                        }
                        if before.contains(q) {
                            let x = before.index_of(q);
                            assert(views(roots@)[x] == q);
                        }
                    }
                } else {
                    if views(roots@).len() > before.len() {
                        assert(views(roots@)[before.len() as int] == q);
                    } else {
                        if before.contains(q) {
                            let x = t0.index_of(q);
                            assert(st.key_seq()[x] == q);
                        }
                    }
                }
            }
        }
    }
    proof {
        assert(st.key_seq().take(n as int) =~= st.key_seq());
        assert(views(roots@).to_set() =~= kept_roots(st, req));
    }
    let needed = collect_needed_mods(roots, graph);
    let ghost needed_set = needed_closure(*graph, kept_roots(st, req));
    assert(kept_roots(st, req).subset_of(needed_set));
    let mut candidates: Vec<String> = Vec::new();
    for i in 0..n
        invariant
            n == keys.len(),
            st == *state,
            st.table_wf(),
            n == st.key_seq().len(),
            forall|j: int| 0 <= j < n ==> #[trigger] keys@[j]@ == st.key_seq()[j],
            st@.dom() == st.key_seq().to_set(),
            views(needed@).to_set() == needed_set,
            views(candidates@).no_duplicates(),
            forall|k: Seq<char>|
                #[trigger] views(candidates@).contains(k) <==> (st.key_seq().take(i as int).contains(
                    k,
                ) && st@[k].loaded && !needed_set.contains(k)),
    {
        let v = state.value_at(i);
        let ghost k = st.key_seq()[i as int];
        proof {
            assert(st.key_seq().take(i + 1) =~= st.key_seq().take(i as int).push(k));
        }
        let ghost before = views(candidates@);
        if v.loaded && !contains_string(&needed, keys[i].as_str()) {
            candidates.push(keys[i].clone());
            proof {
                assert(views(candidates@) =~= before.push(k));
                if before.contains(k) {
                    let j = st.key_seq().take(i as int).index_of(k);
                    assert(st.key_seq()[j] == k);
                }
            }
        }
        proof {
            let t0 = st.key_seq().take(i as int);
            let t1 = st.key_seq().take(i + 1);
            assert forall|q: Seq<char>| #[trigger] views(candidates@).contains(q) <==> (t1.contains(q)
                && st@[q].loaded && !needed_set.contains(q)) by {
                assert(t1[i as int] == k);
                if q != k {
                    assert(t1.contains(q) <==> t0.contains(q)) by {
                        if t1.contains(q) {
                            let x = t1.index_of(q);
                            assert(t0[x] == q);
                        }
                        if t0.contains(q) {
                            let x = t0.index_of(q);
                            assert(t1[x] == q);
                        }
                    }
                    assert(views(candidates@).contains(q) <==> before.contains(q)) by {
                        if views(candidates@).contains(q) {
                            let x = views(candidates@).index_of(q);
                            assert(before[x] == q);
                        }
                        if before.contains(q) {
                            let x = before.index_of(q);
                            assert(views(candidates@)[x] == q);
                        }
                    }
                } else {
                    if views(candidates@).len() > before.len() {
                        assert(views(candidates@)[before.len() as int] == q);
                    } else {
                        if before.contains(q) {
                            let x = t0.index_of(q);
                            assert(st.key_seq()[x] == q);
                        }
                        assert(views(needed@).to_set().contains(q) == views(needed@).contains(q));
                    }
                }
            }
        }
    }
    let sorted = sorted_strings(&candidates);
    proof {
        lemma_same_multiset(views(sorted@), views(candidates@));
        assert(st.key_seq().take(n as int) =~= st.key_seq());
        assert(views(sorted@).to_set() =~= mods_to_unload(st, *graph, req)) by {
            assert forall|k: Seq<char>| #[trigger] views(sorted@).to_set().contains(k) <==> mods_to_unload(st, *graph, req).contains(k) by {
                assert(views(sorted@).to_set().contains(k) <==> views(candidates@).to_set().contains(k));
            }
        }
    }
    let m = sorted.len();
    for j in 0..m
        invariant
            m == sorted.len(),
            state.key_seq() == st.key_seq(),
            state@.dom() == st@.dom(),
            forall|k: Seq<char>|
                #[trigger] st@.dom().contains(k) ==> state@[k] == if views(sorted@).take(j as int).contains(k) {
                    with_loaded(st@[k], false)
                } else {
                    st@[k]
                },
    {
        let ghost before = *state;
        set_loaded(state, sorted[j].as_str(), false);
        proof {
            let t = views(sorted@).take(j + 1);
            assert(t =~= views(sorted@).take(j as int).push(sorted@[j as int]@));
            assert(state@.dom() =~= st@.dom());
            assert forall|k: Seq<char>| #[trigger] st@.dom().contains(k) implies state@[k] == if t.contains(k) {
                with_loaded(st@[k], false)
            } else {
                st@[k]
            } by {
                if k == sorted@[j as int]@ {
                    assert(t[j as int] == k);
                } else {
                    assert(t.contains(k) <==> views(sorted@).take(j as int).contains(k)) by {
                        if t.contains(k) {
                            let q = t.index_of(k);
                            assert(views(sorted@).take(j as int)[q] == k);
                        }
                        if views(sorted@).take(j as int).contains(k) {
                            let q = views(sorted@).take(j as int).index_of(k);
                            assert(t[q] == k);
                        }
                    }
                }
            }
        }
    }
    proof {
        assert(views(sorted@).take(m as int) =~= views(sorted@));
        assert forall|k: Seq<char>| #[trigger] needed_set.contains(k) && st@.dom().contains(k) implies state@[k] == st@[k] by {
            assert(!views(sorted@).to_set().contains(k));
        }
        assert forall|k: Seq<char>| #[trigger] kept_roots(st, req).contains(k) implies state@[k] == st@[k] by {
            assert(needed_set.contains(k));
            assert(!views(sorted@).to_set().contains(k));
        }
        assert forall|k: Seq<char>| #[trigger] state@.dom().contains(k) && state@[k].loaded implies needed_set.contains(k) by {
            if views(sorted@).contains(k) {
                assert(views(sorted@).to_set().contains(k));
            } else {
                assert(!views(sorted@).to_set().contains(k));
            }
        }
    }
    sorted
}

/// Some mod named in `ids` is recorded as explicit and loaded, so the
/// request can be carried out.
pub open spec fn any_accepted(state: StateTable, ids: Seq<Seq<char>>) -> bool {
    exists|k: Seq<char>| ids.contains(k) && #[trigger] unload_skip_reason(state, k) is None
}

/// Unloads the mods `requested` names together with every loaded mod that no
/// remaining loaded explicit mod needs.
///
/// A request naming no mod is an error and changes nothing. When no named mod
/// is both explicit and loaded, nothing is unloaded and the state stays as it
/// is. Otherwise exactly the loaded mods outside the dependency closure of the
/// loaded explicit mods not requested are unloaded: their `loaded` flags are
/// cleared and the result lists them in ascending order. What the kept mods
/// need keeps its record unchanged, and afterwards every loaded mod is needed
/// by a kept one.
pub fn unload_from_state(
    state: &mut StateTable,
    graph: &DependencyGraph,
    requested: &[String],
) -> (r: Result<Vec<String>, UnloadError>)
    ensures
        r is Err <==> requested.len() == 0,
        final(state).key_seq() == old(state).key_seq(),
        final(state)@.dom() == old(state)@.dom(),
        r is Err || !any_accepted(*old(state), views(requested@)) ==> final(state)@ == old(state)@,
        r matches Ok(v) ==> (!any_accepted(*old(state), views(requested@)) ==> v.len() == 0),
        r matches Ok(v) ==> (any_accepted(*old(state), views(requested@)) ==> {
            &&& is_sorted(views(v@))
            &&& views(v@).no_duplicates()
            &&& views(v@).to_set() == mods_to_unload(*old(state), *graph, views(requested@).to_set())
            &&& forall|k: Seq<char>|
                #[trigger] old(state)@.dom().contains(k) ==> final(state)@[k] == if views(
                    v@,
                ).contains(k) {
                    with_loaded(old(state)@[k], false)
                } else {
                    old(state)@[k]
                }
            &&& forall|k: Seq<char>|
                #[trigger] needed_closure(*graph, kept_roots(*old(state), views(requested@).to_set())).contains(k)
                    && old(state)@.dom().contains(k) ==> final(state)@[k] == old(state)@[k]
            &&& forall|k: Seq<char>|
                #[trigger] kept_roots(*old(state), views(requested@).to_set()).contains(k)
                    ==> final(state)@[k] == old(state)@[k]
            &&& forall|k: Seq<char>|
                #[trigger] final(state)@.dom().contains(k) && final(state)@[k].loaded ==> needed_closure(
                    *graph,
                    kept_roots(*old(state), views(requested@).to_set()),
                ).contains(k)
        }),
{
    let requests = match unload_requests(state, requested) {
        Ok(req) => req,
        Err(e) => {
            return Err(e);
        },
    };
    if requests.accepted.len() == 0 {
        proof {
            assert forall|k: Seq<char>|
                views(requested@).contains(k) implies !(#[trigger] unload_skip_reason(*state, k) is None) by {
                if unload_skip_reason(*state, k) is None {
                    assert(views(requests.accepted@).to_set().contains(k));
                }
            }
        }
        return Ok(Vec::new());
    }
    proof {
        let k = views(requests.accepted@)[0];
        assert(views(requests.accepted@).to_set().contains(k));
        assert(views(requested@).contains(k) && unload_skip_reason(*state, k) is None);
    }
    Ok(unload_closure(state, graph, requested))
}

} // verus!
