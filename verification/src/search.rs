//! Where a search of configurations looks, and how its choices are shown.
use vstd::prelude::*;
use std::collections::HashMap;
use crate::module::MapPath;
use crate::registry::ModuleInfo;
use crate::tabs::AppTab;
use crate::uuid::ModuleID;

verus! {

/// The maps that a search of configurations looks at.
#[derive(Debug, Clone)]
pub enum SearchScope {
    AllMods,
    AllOpenMods,
    AllOpenMaps,
    Mod(ModuleID),
    SingleMap(MapPath),
}

/// Whether two map paths name the same map.
pub open spec fn same_path(a: MapPath, b: MapPath) -> bool {
    a.module == b.module && a.sid@ == b.sid@
}

/// Whether the scopes in `targets` include the module `m`.
pub open spec fn targets_mod(targets: Seq<SearchScope>, m: ModuleID) -> bool {
    exists|i: int| 0 <= i < targets.len() && #[trigger] targets[i] == SearchScope::Mod(m)
}

/// Whether the scopes in `targets` include the map `p`.
pub open spec fn targets_map(targets: Seq<SearchScope>, p: MapPath) -> bool {
    exists|i: int| 0 <= i < targets.len() && (#[trigger] targets[i] matches SearchScope::SingleMap(q) && same_path(q, p))
}

/// Whether a scope takes in the map `id`, given the scopes of the open
/// projects and maps.
pub open spec fn spec_filter_map(s: SearchScope, id: MapPath, targets: Seq<SearchScope>) -> bool {
    match s {
        SearchScope::AllMods => true,
        SearchScope::AllOpenMods => targets_mod(targets, id.module),
        SearchScope::AllOpenMaps => targets_map(targets, id),
        SearchScope::Mod(m) => id.module == m,
        SearchScope::SingleMap(m) => same_path(id, m),
    }
}

fn same_map(a: &MapPath, b: &MapPath) -> (r: bool)
    ensures
        r == same_path(*a, *b),
{
    a.module.0 == b.module.0 && a.sid == b.sid
}

impl SearchScope {
    /// Whether this scope takes in the map `id`; `collected_targets` are
    /// the scopes of the projects and maps that are open.
    pub fn filter_map(&self, id: &MapPath, collected_targets: &[SearchScope]) -> (r: bool)
        ensures
            r == spec_filter_map(*self, *id, collected_targets@),
    {
        match self {
            SearchScope::AllMods => true,
            SearchScope::AllOpenMods => {
                let mut i: usize = 0;
                while i < collected_targets.len()
                    invariant
                        i <= collected_targets@.len(),
                        *self == SearchScope::AllOpenMods,
                        forall|j: int| 0 <= j < i ==> collected_targets@[j] != SearchScope::Mod(id.module),
                    decreases collected_targets@.len() - i,
                {
                    match &collected_targets[i] {
                        SearchScope::Mod(m) => {
                            if m.0 == id.module.0 {
                                proof {
                                    assert(collected_targets@[i as int] == SearchScope::Mod(id.module));
                                    assert(targets_mod(collected_targets@, id.module));
                                }
                                return true;
                            }
                        },
                        _ => {},
                    }
                    i = i + 1;
                }
                false
            },
            SearchScope::AllOpenMaps => {
                let mut i: usize = 0;
                while i < collected_targets.len()
                    invariant
                        i <= collected_targets@.len(),
                        *self == SearchScope::AllOpenMaps,
                        forall|j: int| 0 <= j < i ==> !(#[trigger] collected_targets@[j] matches SearchScope::SingleMap(q) && same_path(q, *id)),
                    decreases collected_targets@.len() - i,
                {
                    match &collected_targets[i] {
                        SearchScope::SingleMap(q) => {
                            if same_map(q, id) {
                                proof {
                                    assert(collected_targets@[i as int] matches SearchScope::SingleMap(q) && same_path(q, *id));
                                    assert(targets_map(collected_targets@, *id));
                                }
                                return true;
                            }
                        },
                        _ => {},
                    }
                    i = i + 1;
                }
                false
            },
            SearchScope::Mod(m) => id.module.0 == m.0,
            SearchScope::SingleMap(m) => same_map(id, m),
        }
    }

    /// The text a scope is shown with; a project is shown by its name, or
    /// as a dead reference when it is no longer loaded.
    pub fn text(&self, modules: &HashMap<u32, ModuleInfo>) -> (r: String)
        ensures
            r@ == match *self {
                SearchScope::AllMods => "All Mods"@,
                SearchScope::AllOpenMods => "All Open Projects"@,
                SearchScope::AllOpenMaps => "All Open Maps"@,
                SearchScope::Mod(m) => if modules@.contains_key(m.0) {
                    modules@[m.0].everest_metadata.name@
                } else {
                    "<dead project ref>"@
                },
                SearchScope::SingleMap(m) => m.sid@,
            },
    {
        match self {
            SearchScope::AllMods => String::from_str("All Mods"),
            SearchScope::AllOpenMods => String::from_str("All Open Projects"),
            SearchScope::AllOpenMaps => String::from_str("All Open Maps"),
            SearchScope::Mod(m) => match modules.get(&m.0) {
                Some(module) => module.everest_metadata.name.clone(),
                None => String::from_str("<dead project ref>"),
            },
            SearchScope::SingleMap(m) => m.sid.clone(),
        }
    }
}

/// The kind of configuration a search looks for.
#[derive(Debug, Copy, Clone, PartialEq, Eq, Structural)]
pub enum ConfigSearchType {
    Entities,
    Triggers,
    Stylegrounds,
}

impl ConfigSearchType {
    /// The name of the kind.
    pub fn to_string(&self) -> (r: String)
        ensures
            r@ == match *self {
                ConfigSearchType::Entities => "Entities"@,
                ConfigSearchType::Triggers => "Triggers"@,
                ConfigSearchType::Stylegrounds => "Stylegrounds"@,
            },
    {
        match self {
            ConfigSearchType::Entities => String::from_str("Entities"),
            ConfigSearchType::Triggers => String::from_str("Triggers"),
            ConfigSearchType::Stylegrounds => String::from_str("Stylegrounds"),
        }
    }
}

/// Which configurations a search keeps.
#[derive(Debug, Clone)]
pub enum ConfigSearchFilter {
    All,
    NoConfig,
    NoDrawConfig,
    NoAttrConfig,
    Matches(String),
}

impl ConfigSearchFilter {
    /// The label the filter is offered under.
    pub fn to_string(&self) -> (r: String)
        ensures
            r@ == match *self {
                ConfigSearchFilter::All => "All"@,
                ConfigSearchFilter::NoConfig => "Unconfigured"@,
                ConfigSearchFilter::NoDrawConfig => "No draw config"@,
                ConfigSearchFilter::NoAttrConfig => "Missing attribute config"@,
                ConfigSearchFilter::Matches(_) => "Search by name..."@,
            },
    {
        match self {
            ConfigSearchFilter::All => String::from_str("All"),
            ConfigSearchFilter::NoConfig => String::from_str("Unconfigured"),
            ConfigSearchFilter::NoDrawConfig => String::from_str("No draw config"),
            ConfigSearchFilter::NoAttrConfig => String::from_str("Missing attribute config"),
            ConfigSearchFilter::Matches(_) => String::from_str("Search by name..."),
        }
    }
}

/// The scopes of the projects shown by `tabs`, in order.
pub open spec fn project_scopes(tabs: Seq<AppTab>) -> Seq<SearchScope>
    decreases tabs.len(),
{
    if tabs.len() == 0 {
        Seq::empty()
    } else {
        let rest = project_scopes(tabs.drop_last());
        match tabs.last() {
            AppTab::ProjectOverview(p) => rest.push(SearchScope::Mod(p)),
            _ => rest,
        }
    }
}

/// The scopes of the maps edited in `tabs`, in order, each by the path
/// `paths` gives it.
pub open spec fn map_scopes(tabs: Seq<AppTab>, paths: Map<u32, MapPath>) -> Seq<SearchScope>
    decreases tabs.len(),
{
    if tabs.len() == 0 {
        Seq::empty()
    } else {
        let rest = map_scopes(tabs.drop_last(), paths);
        match tabs.last() {
            AppTab::MapEditor(id) => rest.push(SearchScope::SingleMap(paths[id.0])),
            _ => rest,
        }
    }
}

/// A scope by its values.
pub open spec fn scope_view(s: SearchScope) -> (int, ModuleID, Seq<char>) {
    match s {
        SearchScope::AllMods => (0, ModuleID(0), Seq::empty()),
        SearchScope::AllOpenMods => (1, ModuleID(0), Seq::empty()),
        SearchScope::AllOpenMaps => (2, ModuleID(0), Seq::empty()),
        SearchScope::Mod(m) => (3, m, Seq::empty()),
        SearchScope::SingleMap(p) => (4, p.module, p.sid@),
    }
}

/// Scopes by their values.
pub open spec fn scopes_view(v: Seq<SearchScope>) -> Seq<(int, ModuleID, Seq<char>)> {
    v.map_values(|s: SearchScope| scope_view(s))
}

/// The scopes a search can be given: all open projects, all open maps and
/// all mods, then each open project, then each map open in an editor tab.
/// `map_paths` gives the path of each loaded map, which every editor tab's
/// map must have.
pub fn collect_search_targets(tabs: &Vec<AppTab>, map_paths: &HashMap<u32, MapPath>) -> (r: Vec<SearchScope>)
    requires
        forall|i: int| 0 <= i < tabs@.len() ==> (#[trigger] tabs@[i] matches AppTab::MapEditor(id) ==> map_paths@.contains_key(id.0)),
    ensures
        scopes_view(r@) == scopes_view(
            seq![SearchScope::AllOpenMods, SearchScope::AllOpenMaps, SearchScope::AllMods]
                + project_scopes(tabs@) + map_scopes(tabs@, map_paths@),
        ),
{
    let mut result: Vec<SearchScope> = Vec::new();
    result.push(SearchScope::AllOpenMods);
    result.push(SearchScope::AllOpenMaps);
    result.push(SearchScope::AllMods);
    let ghost head = seq![SearchScope::AllOpenMods, SearchScope::AllOpenMaps, SearchScope::AllMods];
    proof {
        assert(scopes_view(result@) =~= scopes_view(head + project_scopes(tabs@.take(0))));
    }
    let mut i: usize = 0;
    while i < tabs.len()
        invariant
            i <= tabs@.len(),
            scopes_view(result@) == scopes_view(head + project_scopes(tabs@.take(i as int))),
        decreases tabs@.len() - i,
    {
        proof {
            assert(tabs@.take(i + 1).drop_last() =~= tabs@.take(i as int));
        }
        match tabs[i] {
            AppTab::ProjectOverview(p) => {
                let ghost before = result@;
                result.push(SearchScope::Mod(p));
                proof {
                    let ps = project_scopes(tabs@.take(i as int));
                    let x = SearchScope::Mod(p);
                    assert(tabs@.take(i + 1).last() == tabs@[i as int]);
                    assert(project_scopes(tabs@.take(i + 1)) == ps.push(x));
                    assert(head + ps.push(x) =~= (head + ps).push(x));
                    assert(scopes_view((head + ps).push(x)) =~= scopes_view(head + ps).push(scope_view(x)));
                    assert(scopes_view(result@) =~= scopes_view(before).push(scope_view(x)));
                }
            },
            _ => {},
        }
        i = i + 1;
    }
    proof {
        assert(tabs@.take(tabs@.len() as int) =~= tabs@);
    }
    let ghost mid = head + project_scopes(tabs@);
    proof {
        assert(scopes_view(result@) =~= scopes_view(mid + map_scopes(tabs@.take(0), map_paths@)));
    }
    let mut j: usize = 0;
    while j < tabs.len()
        invariant
            j <= tabs@.len(),
            forall|i: int| 0 <= i < tabs@.len() ==> (#[trigger] tabs@[i] matches AppTab::MapEditor(id) ==> map_paths@.contains_key(id.0)),
            scopes_view(result@) == scopes_view(mid + map_scopes(tabs@.take(j as int), map_paths@)),
        decreases tabs@.len() - j,
    {
        proof {
            assert(tabs@.take(j + 1).drop_last() =~= tabs@.take(j as int));
        }
        match tabs[j] {
            AppTab::MapEditor(id) => {
                proof {
                    assert(tabs@[j as int] matches AppTab::MapEditor(id));
                }
                match map_paths.get(&id.0) {
                    Some(path) => {
                        let copy = MapPath { module: path.module, sid: path.sid.clone() };
                        let ghost before = result@;
                        result.push(SearchScope::SingleMap(copy));
                        proof {
                            let ms = map_scopes(tabs@.take(j as int), map_paths@);
                            let x = SearchScope::SingleMap(map_paths@[id.0]);
                            assert(copy == map_paths@[id.0]);
                            assert(tabs@.take(j + 1).last() == tabs@[j as int]);
                            assert(map_scopes(tabs@.take(j + 1), map_paths@) == ms.push(x));
                            assert(mid + ms.push(x) =~= (mid + ms).push(x));
                            assert(scopes_view((mid + ms).push(x)) =~= scopes_view(mid + ms).push(scope_view(x)));
                            assert(scopes_view(result@) =~= scopes_view(before).push(scope_view(x)));
                        }
                    },
                    None => {},
                }
            },
            _ => {},
        }
        j = j + 1;
    }
    proof {
        assert(tabs@.take(tabs@.len() as int) =~= tabs@);
    }
    result
}

} // verus!
