use vstd::prelude::*;
use crate::text::str_equal;

verus! {

/// Names of the game and loader themselves: they appear as dependencies but
/// are never managed as mods.
pub open spec fn spec_is_ignored_dependency(name: Seq<char>) -> bool {
    name == "Celeste"@ || name == "Everest"@ || name == "EverestCore"@
}

/// Whether `name` is one of the dependencies that are never managed as mods.
pub fn is_ignored_dependency(name: &str) -> (r: bool)
    ensures
        r == spec_is_ignored_dependency(name@),
{
    str_equal(name, "Celeste") || str_equal(name, "Everest") || str_equal(name, "EverestCore")
}

} // verus!

verus! {

/// What the update list says of one mod.
pub struct ModInfo {
    pub version: String,
    pub game_banana_id: u32,
    pub game_banana_file_id: Option<u32>,
    pub xxhash: Vec<String>,
}

/// What the local state file records of one pulled mod.
pub struct ModState {
    pub version: String,
    pub is_explicit: bool,
    pub loaded: bool,
}

/// One dependency named in the dependency graph.
pub struct DependencyEntry {
    pub name: String,
    pub version: String,
}

/// The dependency graph's entry for one mod.
pub struct ModEntry {
    pub dependencies: Vec<DependencyEntry>,
    pub optional_dependencies: Vec<DependencyEntry>,
    pub url: String,
}

/// The names of a list of dependencies, in order.
pub open spec fn dependency_names(deps: Seq<DependencyEntry>) -> Seq<Seq<char>> {
    Seq::new(deps.len(), |i: int| deps[i].name@)
}

} // verus!
