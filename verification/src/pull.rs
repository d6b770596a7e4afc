use vstd::prelude::*;
use crate::graph::{DependencyGraph, needed_closure, sorted_closure};
use crate::models::{ModInfo, ModState, dependency_names};
use crate::order::is_sorted;
use crate::remove::explicit_mods;
use crate::state::StateTable;
use crate::table::ModTable;
use crate::text::{contains_string, copy_strings, lemma_push_contains, lemma_take_next, str_equal, views};

verus! {

/// The update list: each mod identifier maps to what the list says of it.
pub type UpdateList = ModTable<ModInfo>;

/// Where the archive of a mod that needs fetching comes from.
pub enum FetchSource {
    /// The update list names no GameBanana file for it.
    NoFileId,
    /// The update list gives no hash to check the archive against.
    NoHash,
    /// Download GameBanana file `file_id` and check it against `hashes`.
    Download { file_id: u32, hashes: Vec<String> },
}

/// What pulling one target mod amounts to.
pub enum PullAction {
    /// The update list does not know the mod.
    NotListed,
    /// The recorded version is the listed one; `mark_explicit` tells whether
    /// the record must now become explicit because the mod was requested.
    UpToDate { version: String, mark_explicit: bool },
    /// The mod must be fetched: `current_version` is the recorded version, if
    /// any, `version` the listed one, `optional_dependencies` the names the
    /// graph lists as optional for it.
    Fetch {
        current_version: Option<String>,
        version: String,
        optional_dependencies: Vec<String>,
        source: FetchSource,
    },
}

/// The mods a pull must bring up to date: the dependency closure of the
/// explicit mods of the state together with the requested ones.
pub open spec fn pull_roots(state: StateTable, requested: Set<Seq<char>>) -> Set<Seq<char>> {
    explicit_mods(state@).union(requested)
}

/// The targets of a pull, in ascending order, each once: the dependency
/// closure of the recorded explicit mods and the (resolved) requested ones.
pub fn pull_targets(state: &StateTable, graph: &DependencyGraph, requested: &[String]) -> (r: Vec<
    String,
>)
    ensures
        is_sorted(views(r@)),
        views(r@).no_duplicates(),
        views(r@).to_set() == needed_closure(*graph, pull_roots(*state, views(requested@).to_set())),
{
    let ghost st = *state;
    let keys = state.keys();
    let n = keys.len();
    proof {
        st.lemma_view();
    }
    let mut roots: Vec<String> = Vec::new();
    for i in 0..n
        invariant
            n == keys.len(),
            st == *state,
            st.table_wf(),
            n == st.key_seq().len(),
            forall|j: int| 0 <= j < n ==> #[trigger] keys@[j]@ == st.key_seq()[j],
            st@.dom() == st.key_seq().to_set(),
            forall|k: Seq<char>|
                #[trigger] views(roots@).contains(k) <==> (st.key_seq().take(i as int).contains(k)
                    && st@[k].is_explicit),
    {
        let v = state.value_at(i);
        let ghost k = st.key_seq()[i as int];
        let ghost before = views(roots@);
        proof {
            lemma_take_next(st.key_seq(), i as int);
        }
        if v.is_explicit {
            roots.push(keys[i].clone());
            proof {
                assert(views(roots@) =~= before.push(k));
                lemma_push_contains(before, k);
            }
        }
    }
    let m = requested.len();
    let ghost base = views(roots@);
    for j in 0..m
        invariant
            m == requested@.len(),
            views(roots@) == base + views(requested@).take(j as int),
    {
        let ghost before = views(roots@);
        roots.push(requested[j].clone());
        proof {
            assert(views(requested@).take(j + 1) =~= views(requested@).take(j as int).push(requested@[j as int]@));
            assert(views(roots@) =~= before.push(requested@[j as int]@));
        }
    }
    proof {
        assert(st.key_seq().take(n as int) =~= st.key_seq());
        assert(views(requested@).take(m as int) =~= views(requested@));
        assert(views(roots@).to_set() =~= pull_roots(st, views(requested@).to_set())) by {
            assert forall|k: Seq<char>| #[trigger] views(roots@).contains(k) <==> (base.contains(k) || views(requested@).contains(k)) by {
                if views(roots@).contains(k) {
                    let x = views(roots@).index_of(k);
                    if x < base.len() {
                        assert(base[x] == k);
                    } else {
                        assert(views(requested@)[x - base.len()] == k);
                    }
                }
                if base.contains(k) {
                    let x = base.index_of(k);
                    assert(views(roots@)[x] == k);
                }
                if views(requested@).contains(k) {
                    let x = views(requested@).index_of(k);
                    assert(views(roots@)[base.len() + x] == k);
                }
            }
        }
    }
    sorted_closure(roots, graph)
}


/// The names of the optional dependencies the graph lists for `m`.
pub open spec fn optional_dependency_names(graph: DependencyGraph, m: Seq<char>) -> Seq<Seq<char>> {
    if graph@.dom().contains(m) {
        dependency_names(graph@[m].optional_dependencies@)
    } else {
        Seq::empty()
    }
}

/// The recorded version of `m` is the listed one.
pub open spec fn up_to_date(state: StateTable, update_list: UpdateList, m: Seq<char>) -> bool {
    &&& update_list@.dom().contains(m)
    &&& state@.dom().contains(m)
    &&& state@[m].version@ == update_list@[m].version@
}

/// Decides what pulling the target `mod_id` amounts to: nothing when the
/// update list does not know it or the recorded version is the listed one
/// (then the record becomes explicit if the mod was requested), otherwise a
/// fetch, from the listed GameBanana file checked against the listed hashes
/// when the list gives both.
pub fn pull_action(
    state: &StateTable,
    graph: &DependencyGraph,
    update_list: &UpdateList,
    requested: &[String],
    mod_id: &str,
) -> (r: PullAction)
    ensures
        match r {
            PullAction::NotListed => !update_list@.dom().contains(mod_id@),
            PullAction::UpToDate { version, mark_explicit } => {
                &&& up_to_date(*state, *update_list, mod_id@)
                &&& version@ == update_list@[mod_id@].version@
                &&& mark_explicit == (views(requested@).contains(mod_id@)
                    && !state@[mod_id@].is_explicit)
            },
            PullAction::Fetch { current_version, version, optional_dependencies, source } => {
                let info = update_list@[mod_id@];
                &&& update_list@.dom().contains(mod_id@)
                &&& !up_to_date(*state, *update_list, mod_id@)
                &&& (current_version is None <==> !state@.dom().contains(mod_id@))
                &&& (current_version matches Some(v) ==> v@ == state@[mod_id@].version@)
                &&& version@ == info.version@
                &&& views(optional_dependencies@) == optional_dependency_names(*graph, mod_id@)
                &&& match source {
                    FetchSource::NoFileId => info.game_banana_file_id is None,
                    FetchSource::NoHash => info.game_banana_file_id is Some && info.xxhash@.len()
                        == 0,
                    FetchSource::Download { file_id, hashes } => {
                        &&& info.game_banana_file_id == Some(file_id)
                        &&& info.xxhash@.len() > 0
                        &&& views(hashes@) == views(info.xxhash@)
                    },
                }
            },
        },
{
    let info = match update_list.get(mod_id) {
        Some(i) => i,
        None => {
            return PullAction::NotListed;
        },
    };
    let current = state.get(mod_id);
    if let Some(s) = current {
        if str_equal(s.version.as_str(), info.version.as_str()) {
            let mark = contains_string(requested, mod_id) && !s.is_explicit;
            return PullAction::UpToDate { version: info.version.clone(), mark_explicit: mark };
        }
    }
    let current_version = match current {
        Some(s) => Some(s.version.clone()),
        None => None,
    };
    let mut optional: Vec<String> = Vec::new();
    match graph.get(mod_id) {
        Some(entry) => {
            let opts = &entry.optional_dependencies;
            let n = opts.len();
            for j in 0..n
                invariant
                    n == opts@.len(),
                    optional.len() == j,
                    forall|q: int| 0 <= q < j ==> #[trigger] optional@[q]@ == opts@[q].name@,
            {
                optional.push(opts[j].name.clone());
            }
            proof {
                assert(views(optional@) =~= dependency_names(opts@));
            }
        },
        None => {
            proof {
                assert(views(optional@) =~= Seq::<Seq<char>>::empty());
            }
        },
    }
    let source = match info.game_banana_file_id {
        None => FetchSource::NoFileId,
        Some(file_id) => {
            if info.xxhash.len() == 0 {
                FetchSource::NoHash
            } else {
                FetchSource::Download { file_id, hashes: copy_strings(&info.xxhash) }
            }
        },
    };
    PullAction::Fetch {
        current_version,
        version: info.version.clone(),
        optional_dependencies: optional,
        source,
    }
}

/// Records a freshly pulled mod: its new version, explicit when it was
/// requested or already explicit, loaded when it already was.
pub fn record_pull(state: &mut StateTable, mod_id: &str, version: &str, requested: &[String])
    ensures
        final(state)@.dom() == old(state)@.dom().insert(mod_id@),
        final(state)@[mod_id@].version@ == version@,
        final(state)@[mod_id@].is_explicit == (views(requested@).contains(mod_id@) || (old(
            state,
        )@.dom().contains(mod_id@) && old(state)@[mod_id@].is_explicit)),
        final(state)@[mod_id@].loaded == (old(state)@.dom().contains(mod_id@) && old(
            state,
        )@[mod_id@].loaded),
        forall|k: Seq<char>|
            k != mod_id@ && #[trigger] old(state)@.dom().contains(k) ==> final(state)@[k] == old(
                state,
            )@[k],
{
    let was_explicit = match state.get(mod_id) {
        Some(s) => s.is_explicit,
        None => false,
    };
    let was_loaded = match state.get(mod_id) {
        Some(s) => s.loaded,
        None => false,
    };
    let value = ModState {
        version: String::from_str(version),
        is_explicit: contains_string(requested, mod_id) || was_explicit,
        loaded: was_loaded,
    };
    state.insert(String::from_str(mod_id), value);
}

} // verus!
