use arborio::tabs::collect_garbage;
use std::collections::HashMap;

use arborio::everest::{EverestModuleVersion, EverestYaml, EverestYamlDependency};
use arborio::registry::{dep_mods, step_modules_lookup, ModuleInfo, ModulesLookup};
use arborio::uuid::ModuleID;
use arborio::module::MapPath;
use arborio::search::{collect_search_targets, ConfigSearchFilter, ConfigSearchType, SearchScope};
use arborio::tabs::{garbage_collect, AppTab};
use arborio::uuid::MapID;

fn yaml(name: &str, deps: &[&str]) -> EverestYaml {
    EverestYaml {
        name: name.to_string(),
        version: EverestModuleVersion(vec![1, 0, 0]),
        dll: None,
        dependencies: deps
            .iter()
            .map(|d| EverestYamlDependency {
                name: d.to_string(),
                version: EverestModuleVersion(vec![1]),
            })
            .collect(),
    }
}

fn info(name: &str, ext: Option<&str>, deps: &[&str]) -> ModuleInfo {
    ModuleInfo {
        root_ext: ext.map(|e| e.to_string()),
        everest_metadata: yaml(name, deps),
    }
}

fn register(modules: &HashMap<u32, ModuleInfo>, order: &[u32]) -> ModulesLookup {
    let mut lookup = ModulesLookup::new();
    for id in order {
        step_modules_lookup(&mut lookup, modules, ModuleID(*id), &modules[id]);
    }
    lookup
}

#[test]
fn first_module_under_a_name_is_kept() {
    let mut modules = HashMap::new();
    modules.insert(1, info("Foo", Some(""), &[]));
    modules.insert(2, info("Foo", Some(""), &[]));
    let lookup = register(&modules, &[1, 2]);
    assert_eq!(lookup.get(&"Foo".to_string()), Some(ModuleID(1)));
    assert_eq!(lookup.get(&"Bar".to_string()), None);
}

#[test]
fn unpacked_folder_wins_over_zip() {
    let mut modules = HashMap::new();
    modules.insert(1, info("Foo", Some("zip"), &[]));
    modules.insert(2, info("Foo", Some(""), &[]));
    assert_eq!(register(&modules, &[1, 2]).get(&"Foo".to_string()), Some(ModuleID(2)));
    assert_eq!(register(&modules, &[2, 1]).get(&"Foo".to_string()), Some(ModuleID(2)));
}

#[test]
fn builtin_keeps_its_name() {
    let mut modules = HashMap::new();
    modules.insert(1, info("Celeste", None, &[]));
    modules.insert(2, info("Celeste", Some(""), &[]));
    assert_eq!(register(&modules, &[1, 2]).get(&"Celeste".to_string()), Some(ModuleID(1)));
}

#[test]
fn dependency_order_for_a_map() {
    let mut modules = HashMap::new();
    modules.insert(1, info("Celeste", None, &[]));
    modules.insert(2, info("Arborio", None, &[]));
    modules.insert(3, info("Helper", Some("zip"), &[]));
    modules.insert(4, info("MyMod", Some(""), &["Everest", "Celeste", "Missing", "Helper"]));
    let lookup = register(&modules, &[1, 2, 3, 4]);
    let got = dep_mods(&modules, &lookup, ModuleID(4));
    let expect: Vec<(String, ModuleID)> = vec![
        ("Arborio".to_string(), ModuleID(2)),
        ("Celeste".to_string(), ModuleID(1)),
        ("Helper".to_string(), ModuleID(3)),
        ("MyMod".to_string(), ModuleID(4)),
    ];
    assert_eq!(got, expect);
    let game = dep_mods(&modules, &lookup, ModuleID(1));
    assert_eq!(game, vec![("Arborio".to_string(), ModuleID(2)), ("Celeste".to_string(), ModuleID(1))]);
    let unknown = dep_mods(&modules, &lookup, ModuleID(9));
    assert_eq!(unknown.len(), 2);
}

#[test]
fn search_scopes_filter_maps() {
    let p = MapPath { module: ModuleID(3), sid: "a/1".to_string() };
    let q = MapPath { module: ModuleID(4), sid: "b/2".to_string() };
    let open = vec![SearchScope::Mod(ModuleID(3)), SearchScope::SingleMap(q.clone())];
    assert!(SearchScope::AllMods.filter_map(&p, &[]));
    assert!(SearchScope::AllOpenMods.filter_map(&p, &open));
    assert!(!SearchScope::AllOpenMods.filter_map(&q, &open));
    assert!(SearchScope::AllOpenMaps.filter_map(&q, &open));
    assert!(!SearchScope::AllOpenMaps.filter_map(&p, &open));
    assert!(SearchScope::Mod(ModuleID(4)).filter_map(&q, &[]));
    assert!(!SearchScope::Mod(ModuleID(4)).filter_map(&p, &[]));
    assert!(SearchScope::SingleMap(p.clone()).filter_map(&p, &[]));
    assert!(!SearchScope::SingleMap(p.clone()).filter_map(&q, &[]));
}

#[test]
fn search_labels() {
    let mut modules = HashMap::new();
    modules.insert(5, info("Proj", Some(""), &[]));
    assert_eq!(SearchScope::AllMods.text(&modules), "All Mods");
    assert_eq!(SearchScope::AllOpenMods.text(&modules), "All Open Projects");
    assert_eq!(SearchScope::Mod(ModuleID(5)).text(&modules), "Proj");
    assert_eq!(SearchScope::Mod(ModuleID(6)).text(&modules), "<dead project ref>");
    let p = MapPath { module: ModuleID(5), sid: "x/y".to_string() };
    assert_eq!(SearchScope::SingleMap(p).text(&modules), "x/y");
    assert_eq!(ConfigSearchType::Stylegrounds.to_string(), "Stylegrounds");
    assert_eq!(ConfigSearchFilter::NoDrawConfig.to_string(), "No draw config");
    assert_eq!(ConfigSearchFilter::Matches("q".to_string()).to_string(), "Search by name...");
}

#[test]
fn closing_dead_tabs() {
    let mut modules = HashMap::new();
    modules.insert(1, info("Celeste", None, &[]));
    let mut maps = HashMap::new();
    maps.insert(10u32, ModuleID(1));
    maps.insert(11u32, ModuleID(7));
    let mut tabs = vec![
        AppTab::CelesteOverview,
        AppTab::ProjectOverview(ModuleID(7)),
        AppTab::MapEditor(MapID(10)),
        AppTab::MapMeta(MapID(11)),
        AppTab::Logs,
        AppTab::MapMeta(MapID(10)),
    ];
    let mut current = 4usize;
    let mut poison = 0usize;
    let open = garbage_collect(&mut tabs, &mut current, &mut poison, &modules, &maps);
    assert_eq!(tabs, vec![AppTab::MapEditor(MapID(10)), AppTab::Logs, AppTab::MapMeta(MapID(10))]);
    assert_eq!(current, 1);
    assert_eq!(tabs[current], AppTab::Logs);
    assert_eq!(poison, usize::MAX);
    assert_eq!(open, vec![MapID(10), MapID(10)]);
}

#[test]
fn closing_the_current_tab_moves_back() {
    let modules: HashMap<u32, ModuleInfo> = HashMap::new();
    let maps: HashMap<u32, ModuleID> = HashMap::new();
    let mut tabs = vec![AppTab::Logs, AppTab::ConfigEditor, AppTab::CelesteOverview];
    let mut current = 1usize;
    let mut poison = 1usize;
    garbage_collect(&mut tabs, &mut current, &mut poison, &modules, &maps);
    assert_eq!(tabs, vec![AppTab::Logs, AppTab::CelesteOverview]);
    assert_eq!(current, 0);
    let mut tabs = vec![AppTab::ProjectOverview(ModuleID(3)), AppTab::Logs];
    let mut current = 0usize;
    let mut poison = usize::MAX;
    garbage_collect(&mut tabs, &mut current, &mut poison, &modules, &maps);
    assert_eq!(tabs, vec![AppTab::Logs]);
    assert_eq!(current, 0);
}

#[test]
fn search_targets_from_tabs() {
    let mut paths = HashMap::new();
    paths.insert(7u32, MapPath { module: ModuleID(2), sid: "m/1".to_string() });
    let tabs = vec![
        AppTab::MapEditor(MapID(7)),
        AppTab::ProjectOverview(ModuleID(2)),
        AppTab::Logs,
        AppTab::MapMeta(MapID(9)),
    ];
    let got = collect_search_targets(&tabs, &paths);
    assert_eq!(got.len(), 5);
    assert!(matches!(got[0], SearchScope::AllOpenMods));
    assert!(matches!(got[1], SearchScope::AllOpenMaps));
    assert!(matches!(got[2], SearchScope::AllMods));
    assert!(matches!(got[3], SearchScope::Mod(ModuleID(2))));
    match &got[4] {
        SearchScope::SingleMap(p) => assert_eq!((p.module, p.sid.as_str()), (ModuleID(2), "m/1")),
        _ => panic!("expected a map scope"),
    }
}

#[test]
fn collecting_garbage_unloads_maps_without_tabs() {
    let mut modules = HashMap::new();
    modules.insert(1, info("Celeste", None, &[]));
    let mut maps = HashMap::new();
    maps.insert(10u32, ModuleID(1));
    maps.insert(11u32, ModuleID(1));
    maps.insert(12u32, ModuleID(7));
    let path = |sid: &str| MapPath { module: ModuleID(1), sid: sid.to_string() };
    let mut lookup = vec![(path("a"), MapID(10)), (path("b"), MapID(11)), (path("c"), MapID(12))];
    let mut tabs = vec![
        AppTab::MapEditor(MapID(10)),
        AppTab::MapEditor(MapID(11)),
        AppTab::MapMeta(MapID(12)),
        AppTab::Logs,
    ];
    let mut current = 3usize;
    let mut poison = 1usize;
    collect_garbage(&mut tabs, &mut current, &mut poison, &modules, &mut maps, &mut lookup);
    assert_eq!(tabs, vec![AppTab::MapEditor(MapID(10)), AppTab::Logs]);
    assert_eq!(current, 1);
    assert_eq!(poison, usize::MAX);
    assert_eq!(maps.len(), 1);
    assert_eq!(maps.get(&10), Some(&ModuleID(1)));
    assert_eq!(lookup.len(), 1);
    assert_eq!(lookup[0].0.sid, "a");
    assert_eq!(lookup[0].1, MapID(10));
}
