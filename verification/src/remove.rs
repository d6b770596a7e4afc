use vstd::prelude::*;
use crate::graph::{DependencyGraph, collect_needed_mods, needed_closure};
use crate::models::ModState;
use crate::state::StateTable;
use crate::text::{contains_string, lemma_push_contains, lemma_take_next, views};

verus! {

/// What happens to one mod named in a remove request.
#[derive(PartialEq, Eq, Structural, Debug, Clone, Copy)]
pub enum RemoveOutcome {
    /// It was explicit and is removed from the state; `was_loaded` tells
    /// whether its link in the mods directory must go too.
    Removed { was_loaded: bool },
    /// It is only a dependency and cannot be removed directly.
    Dependency,
    /// The state does not record it (any more).
    NotInstalled,
}

/// The state and the outcomes after handling `ids` one after the other.
pub open spec fn remove_explicit_spec(m: Map<Seq<char>, ModState>, ids: Seq<Seq<char>>) -> (
    Map<Seq<char>, ModState>,
    Seq<RemoveOutcome>,
)
    decreases ids.len(),
{
    if ids.len() == 0 {
        (m, Seq::empty())
    } else {
        let (m0, out0) = remove_explicit_spec(m, ids.drop_last());
        let id = ids.last();
        if !m0.dom().contains(id) {
            (m0, out0.push(RemoveOutcome::NotInstalled))
        } else if !m0[id].is_explicit {
            (m0, out0.push(RemoveOutcome::Dependency))
        } else {
            (m0.remove(id), out0.push(RemoveOutcome::Removed { was_loaded: m0[id].loaded }))
        }
    }
}

/// The names of a list of (name, flag) pairs.
pub open spec fn pair_names(v: Seq<(String, bool)>) -> Seq<Seq<char>> {
    Seq::new(v.len(), |i: int| v[i].0@)
}

/// The explicit mods recorded in a state.
pub open spec fn explicit_mods(m: Map<Seq<char>, ModState>) -> Set<Seq<char>> {
    Set::new(|k: Seq<char>| m.dom().contains(k) && m[k].is_explicit)
}

/// Removes, one after the other, each named mod that the state records as
/// explicit; dependencies and unknown mods are left alone. The outcome of
/// each name is reported in request order.
pub fn remove_explicit(state: &mut StateTable, mod_ids: &[String]) -> (r: Vec<RemoveOutcome>)
    ensures
        (final(state)@, r@) == remove_explicit_spec(old(state)@, views(mod_ids@)),
{
    let ghost st = old(state)@;
    let mut r: Vec<RemoveOutcome> = Vec::new();
    let n = mod_ids.len();
    proof {
        assert(views(mod_ids@).take(0) =~= Seq::<Seq<char>>::empty());
        assert((state@, r@) == remove_explicit_spec(st, views(mod_ids@).take(0)));
    }
    for i in 0..n
        invariant
            n == mod_ids@.len(),
            (state@, r@) == remove_explicit_spec(st, views(mod_ids@).take(i as int)),
    {
        let id = mod_ids[i].as_str();
        proof {
            let t = views(mod_ids@).take(i + 1);
            assert(t.drop_last() =~= views(mod_ids@).take(i as int));
            assert(t.last() == id@);
        }
        let outcome = match state.get(id) {
            None => RemoveOutcome::NotInstalled,
            Some(s) => {
                if !s.is_explicit {
                    RemoveOutcome::Dependency
                } else {
                    RemoveOutcome::Removed { was_loaded: s.loaded }
                }
            },
        };
        if let RemoveOutcome::Removed { .. } = outcome {
            state.remove(id);
        }
        r.push(outcome);
    }
    proof {
        assert(views(mod_ids@).take(n as int) =~= views(mod_ids@));
    }
    r
}

/// Removes every mod that no explicit mod needs any more: exactly the
/// recorded mods outside the dependency closure of the explicit mods. The
/// result names each removed mod once (in table order) with whether it was
/// loaded. Explicit mods stay, and afterwards every recorded mod is needed
/// by an explicit one, so a second pass removes nothing.
pub fn remove_orphans(state: &mut StateTable, graph: &DependencyGraph) -> (r: Vec<(String, bool)>)
    ensures
        ({
            let needed = needed_closure(*graph, explicit_mods(old(state)@));
            let names = pair_names(r@);
            &&& names.no_duplicates()
            &&& names.to_set() == old(state)@.dom().difference(needed)
            &&& forall|i: int|
                0 <= i < r@.len() ==> #[trigger] r@[i].1 == old(state)@[r@[i].0@].loaded
            &&& final(state)@.dom() == old(state)@.dom().intersect(needed)
            &&& forall|k: Seq<char>|
                #[trigger] final(state)@.dom().contains(k) ==> final(state)@[k] == old(state)@[k]
            &&& explicit_mods(old(state)@).subset_of(final(state)@.dom())
            &&& final(state)@.dom().subset_of(needed_closure(*graph, explicit_mods(final(state)@)))
        }),
{
    let ghost st = *state;
    let ghost roots = explicit_mods(st@);
    let keys = state.keys();
    let n = keys.len();
    proof {
        st.lemma_view();
    }
    let mut explicit: Vec<String> = Vec::new();
    for i in 0..n
        invariant
            n == keys.len(),
            st == *state,
            st.table_wf(),
            n == st.key_seq().len(),
            forall|j: int| 0 <= j < n ==> #[trigger] keys@[j]@ == st.key_seq()[j],
            st@.dom() == st.key_seq().to_set(),
            forall|k: Seq<char>|
                #[trigger] views(explicit@).contains(k) <==> (st.key_seq().take(i as int).contains(k)
                    && st@[k].is_explicit),
    {
        let v = state.value_at(i);
        let ghost k = st.key_seq()[i as int];
        let ghost before = views(explicit@);
        proof {
            lemma_take_next(st.key_seq(), i as int);
        }
        if v.is_explicit {
            explicit.push(keys[i].clone());
            proof {
                assert(views(explicit@) =~= before.push(k));
                lemma_push_contains(before, k);
            }
        }
    }
    proof {
        assert(st.key_seq().take(n as int) =~= st.key_seq());
        assert(views(explicit@).to_set() =~= roots);
    }
    let needed = collect_needed_mods(explicit, graph);
    let ghost needed_set = needed_closure(*graph, roots);
    assert(roots.subset_of(needed_set));
    let mut orphans: Vec<(String, bool)> = Vec::new();
    for i in 0..n
        invariant
            n == keys.len(),
            st == *state,
            st.table_wf(),
            n == st.key_seq().len(),
            forall|j: int| 0 <= j < n ==> #[trigger] keys@[j]@ == st.key_seq()[j],
            st@.dom() == st.key_seq().to_set(),
            views(needed@).to_set() == needed_set,
            pair_names(orphans@).no_duplicates(),
            forall|j: int|
                0 <= j < orphans@.len() ==> #[trigger] orphans@[j].1 == st@[orphans@[j].0@].loaded,
            forall|k: Seq<char>|
                #[trigger] pair_names(orphans@).contains(k) <==> (
                st.key_seq().take(i as int).contains(k) && !needed_set.contains(k)),
    {
        let v = state.value_at(i);
        let ghost k = st.key_seq()[i as int];
        let ghost before = pair_names(orphans@);
        proof {
            lemma_take_next(st.key_seq(), i as int);
        }
        if !contains_string(&needed, keys[i].as_str()) {
            orphans.push((keys[i].clone(), v.loaded));
            proof {
                let after = pair_names(orphans@);
                assert(after =~= before.push(k));
                lemma_push_contains(before, k);
                if before.contains(k) {
                    let j = st.key_seq().take(i as int).index_of(k);
                    assert(st.key_seq()[j] == k);
                }
            }
        }
    }
    proof {
        assert(st.key_seq().take(n as int) =~= st.key_seq());
    }
    let ghost names = pair_names(orphans@);
    let m = orphans.len();
    for j in 0..m
        invariant
            m == orphans@.len(),
            names == pair_names(orphans@),
            state@.dom() == st@.dom().difference(names.take(j as int).to_set()),
            forall|k: Seq<char>| #[trigger] state@.dom().contains(k) ==> state@[k] == st@[k],
    {
        state.remove(orphans[j].0.as_str());
        proof {
            lemma_take_next(names, j as int);
            assert(state@.dom() =~= st@.dom().difference(names.take(j + 1).to_set()));
        }
    }
    proof {
        assert(names.take(m as int) =~= names);
        assert(state@.dom() =~= st@.dom().intersect(needed_set));
        assert(names.to_set() =~= st@.dom().difference(needed_set));
        assert(explicit_mods(state@) =~= roots);
    }
    orphans
}

} // verus!

verus! {

/// The named mods that the state records as explicit.
pub open spec fn named_explicit(m: Map<Seq<char>, ModState>, ids: Seq<Seq<char>>) -> Set<Seq<char>> {
    Set::new(|k: Seq<char>| ids.contains(k) && m.dom().contains(k) && m[k].is_explicit)
}

/// Removing named mods takes out of the state exactly the named mods it
/// records as explicit, loaded or not, and keeps every other record as it
/// was. Each name gets one outcome: `Removed` (with its loaded flag) at the
/// first mention of an explicit mod, `Dependency` for a recorded mod that is
/// not explicit, `NotInstalled` otherwise.
pub proof fn lemma_remove_explicit_effect(m: Map<Seq<char>, ModState>, ids: Seq<Seq<char>>)
    ensures
        ({
            let (m2, out) = remove_explicit_spec(m, ids);
            &&& m2.dom() == m.dom().difference(named_explicit(m, ids))
            &&& forall|k: Seq<char>| #[trigger] m2.dom().contains(k) ==> m2[k] == m[k]
            &&& out.len() == ids.len()
            &&& forall|i: int|
                0 <= i < ids.len() ==> match #[trigger] out[i] {
                    RemoveOutcome::Removed { was_loaded } => {
                        &&& m.dom().contains(ids[i])
                        &&& m[ids[i]].is_explicit
                        &&& !ids.take(i).contains(ids[i])
                        &&& was_loaded == m[ids[i]].loaded
                    },
                    RemoveOutcome::Dependency => m.dom().contains(ids[i]) && !m[ids[i]].is_explicit,
                    RemoveOutcome::NotInstalled => !m.dom().contains(ids[i]) || (
                    m[ids[i]].is_explicit && ids.take(i).contains(ids[i])),
                }
        }),
    decreases ids.len(),
{
    if ids.len() == 0 {
        assert(m.dom().difference(named_explicit(m, ids)) =~= m.dom());
    } else {
        let d = ids.drop_last();
        let n = ids.len() - 1;
        lemma_remove_explicit_effect(m, d);
        let (m0, out0) = remove_explicit_spec(m, d);
        let id = ids.last();
        let (m2, out) = remove_explicit_spec(m, ids);
        assert(ids.take(n) =~= d);
        assert forall|k: Seq<char>| #[trigger] ids.contains(k) <==> d.contains(k) || k == id by {
            if ids.contains(k) {
                let q = ids.index_of(k);
                if q < n {
                    assert(d[q] == k);
                }
            }
            if d.contains(k) {
                let q = d.index_of(k);
                assert(ids[q] == k);
            }
            assert(ids[n] == id);
        }
        if !m0.dom().contains(id) {
            assert(m2.dom() =~= m.dom().difference(named_explicit(m, ids)));
        } else if !m0[id].is_explicit {
            assert(m2.dom() =~= m.dom().difference(named_explicit(m, ids)));
        } else {
            assert(m2.dom() =~= m.dom().difference(named_explicit(m, ids)));
        }
        assert forall|i: int| 0 <= i < ids.len() implies match #[trigger] out[i] {
            RemoveOutcome::Removed { was_loaded } => {
                &&& m.dom().contains(ids[i])
                &&& m[ids[i]].is_explicit
                &&& !ids.take(i).contains(ids[i])
                &&& was_loaded == m[ids[i]].loaded
            },
            RemoveOutcome::Dependency => m.dom().contains(ids[i]) && !m[ids[i]].is_explicit,
            RemoveOutcome::NotInstalled => !m.dom().contains(ids[i]) || (m[ids[i]].is_explicit
                && ids.take(i).contains(ids[i])),
        } by {
            if i < n {
                assert(out[i] == out0[i]);
                assert(ids[i] == d[i]);
                assert(ids.take(i) =~= d.take(i));
            } else {
                assert(ids[i] == id);
            }
        }
    }
}

} // verus!
