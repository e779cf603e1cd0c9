//! The editor's decisions on its tabs and its log: which tab an event opens,
//! selects or closes, and what it records.
use vstd::prelude::*;
use std::collections::HashMap;
use crate::registry::ModuleInfo;
use crate::tabs::{garbage_collect, retain_open_maps, kept_prefix, moved_current, open_ids, shown_maps, AppTab};
use crate::uuid::ModuleID;
use crate::layer::Layer;
use crate::selectable::{DecalSelectable, EntitySelectable, TileSelectable, TriggerSelectable};

verus! {

/// How grave a log message is, gravest first.
#[derive(Debug, Clone, Copy, PartialEq, Eq, Structural)]
pub enum LogLevel {
    Error,
    Warn,
    Info,
    Debug,
    Trace,
}

/// A message of the log.
#[derive(Debug, Clone)]
pub struct LogMessage {
    pub level: LogLevel,
    pub message: String,
}

/// What the editor's decisions on tabs and the log read and change: the
/// open tabs, the current one, the one marked for closing, the log, and the
/// error shown in the status bar.
pub struct AppCore {
    pub tabs: Vec<AppTab>,
    pub current_tab: usize,
    pub poison_tab: usize,
    pub logs: Vec<LogMessage>,
    pub error_message: String,
}

/// An event on tabs or the log.
pub enum AppEventCore {
    Log { message: LogMessage },
    OpenModuleOverviewTab { module: ModuleID },
    OpenInstallationTab,
    OpenLogsTab,
    OpenConfigEditorTab,
    SelectTab { idx: usize },
    CloseTab { idx: usize },
}

/// What the editor does next: select a tab, or switch the current tool off
/// or on.
#[derive(Debug, Clone, Copy, PartialEq, Eq, Structural)]
pub enum AppAction {
    SelectTab { idx: usize },
    SwitchOffTool,
    SwitchOnTool,
}

/// The index of the first tab equal to `t`, if any.
pub open spec fn tab_from(tabs: Seq<AppTab>, t: AppTab, k: int) -> Option<int>
    decreases tabs.len() - k,
{
    if k < 0 || k >= tabs.len() { None } else if tabs[k] == t { Some(k) } else { tab_from(tabs, t, k + 1) }
}

/// What opening a tab like `t` does: select the first such tab where there
/// is one, else add `t` at the end and select it.
pub open spec fn opened(tabs0: Seq<AppTab>, t: AppTab, tabs1: Seq<AppTab>, out: Seq<AppAction>) -> bool {
    match tab_from(tabs0, t, 0) {
        Some(i) => tabs1 == tabs0 && out == seq![AppAction::SelectTab { idx: i as usize }],
        None => tabs1 == tabs0.push(t) && out == seq![AppAction::SelectTab { idx: tabs0.len() as usize }],
    }
}

proof fn lemma_tab_from(tabs: Seq<AppTab>, t: AppTab, k: int)
    requires
        0 <= k,
    ensures
        tab_from(tabs, t, k) matches Some(i) ==> k <= i < tabs.len() && tabs[i] == t,
        tab_from(tabs, t, k) is None ==> forall|j: int| k <= j < tabs.len() ==> tabs[j] != t,
    decreases tabs.len() - k,
{
    if k < tabs.len() && tabs[k] != t {
        lemma_tab_from(tabs, t, k + 1);
    }
}

/// Opening a tab selects a tab showing what was asked for: one already
/// open where there is one, the tabs unchanged, else a new one added at the
/// end; a tab is added only where none showed it.
pub proof fn law_open_selects_the_tab(tabs0: Seq<AppTab>, t: AppTab, tabs1: Seq<AppTab>, out: Seq<AppAction>)
    requires
        tabs0.len() < usize::MAX,
        opened(tabs0, t, tabs1, out),
    ensures
        out.len() == 1,
        out[0] matches AppAction::SelectTab { idx } && idx < tabs1.len() && tabs1[idx as int] == t,
        tabs1.len() == tabs0.len() || (tabs1.len() == tabs0.len() + 1 && !tabs0.contains(t)),
        forall|j: int| 0 <= j < tabs0.len() ==> #[trigger] tabs1[j] == tabs0[j],
{
    lemma_tab_from(tabs0, t, 0);
}

fn open_tab(tabs: &mut Vec<AppTab>, t: AppTab) -> (out: Vec<AppAction>)
    requires
        old(tabs)@.len() < usize::MAX,
    ensures
        opened(old(tabs)@, t, final(tabs)@, out@),
{
    let mut i: usize = 0;
    while i < tabs.len()
        invariant
            i <= tabs@.len(),
            tabs@ == old(tabs)@,
            tab_from(tabs@, t, 0) == tab_from(tabs@, t, i as int),
        decreases tabs@.len() - i,
    {
        if tabs[i] == t {
            let mut out = Vec::new();
            out.push(AppAction::SelectTab { idx: i });
            proof { assert(out@ =~= seq![AppAction::SelectTab { idx: i }]); }
            return out;
        }
        i = i + 1;
    }
    let n = tabs.len();
    tabs.push(t);
    let mut out = Vec::new();
    out.push(AppAction::SelectTab { idx: n });
    proof { assert(out@ =~= seq![AppAction::SelectTab { idx: n }]); }
    out
}

/// Applies an event on tabs or the log. A log message is kept, and an
/// error also shown in the status bar. Opening the overview of a project,
/// of the installation or of the log selects the first such tab, or adds
/// one and selects it; opening the log also clears the shown error; a
/// configuration editor is always added. Selecting a tab that exists makes
/// it current, switching the tool off, and on again for a map tab.
/// Closing a tab marks it and closes it with every tab whose project or map
/// is gone, keeping of `maps` (the project of each loaded map) those that
/// an open tab still shows.
pub fn app_step(state: &mut AppCore, event: AppEventCore, modules: &HashMap<u32, ModuleInfo>,
    maps: &mut HashMap<u32, ModuleID>) -> (out: Vec<AppAction>)
    requires
        old(state).tabs@.len() < usize::MAX,
    ensures
        match event {
            AppEventCore::Log { message } => {
                &&& final(state).logs@ == old(state).logs@.push(message)
                &&& final(state).error_message@ == (if message.level == LogLevel::Error { message.message@ } else { old(state).error_message@ })
                &&& final(state).tabs@ == old(state).tabs@ && final(state).current_tab == old(state).current_tab
                &&& final(state).poison_tab == old(state).poison_tab && final(maps)@ == old(maps)@
                &&& out@.len() == 0
            },
            AppEventCore::OpenModuleOverviewTab { module } => {
                &&& opened(old(state).tabs@, AppTab::ProjectOverview(module), final(state).tabs@, out@)
                &&& final(state).error_message@ == old(state).error_message@
            },
            AppEventCore::OpenInstallationTab => {
                &&& opened(old(state).tabs@, AppTab::CelesteOverview, final(state).tabs@, out@)
                &&& final(state).error_message@ == old(state).error_message@
            },
            AppEventCore::OpenLogsTab => {
                &&& opened(old(state).tabs@, AppTab::Logs, final(state).tabs@, out@)
                &&& final(state).error_message@.len() == 0
            },
            AppEventCore::OpenConfigEditorTab => {
                &&& final(state).tabs@ == old(state).tabs@.push(AppTab::ConfigEditor)
                &&& out@ == seq![AppAction::SelectTab { idx: old(state).tabs@.len() as usize }]
                &&& final(state).error_message@ == old(state).error_message@
            },
            AppEventCore::SelectTab { idx } => {
                &&& final(state).tabs@ == old(state).tabs@ && final(state).error_message@ == old(state).error_message@
                &&& if idx < old(state).tabs@.len() {
                    &&& final(state).current_tab == idx
                    &&& out@ == (if old(state).tabs@[idx as int] is MapEditor {
                        seq![AppAction::SwitchOffTool, AppAction::SwitchOnTool]
                    } else {
                        seq![AppAction::SwitchOffTool]
                    })
                } else {
                    final(state).current_tab == old(state).current_tab && out@.len() == 0
                }
            },
            AppEventCore::CloseTab { idx } => {
                &&& final(state).tabs@ == kept_prefix(old(state).tabs@, idx as int, modules@, old(maps)@, old(state).tabs@.len() as int)
                &&& final(state).current_tab as int == moved_current(old(state).tabs@, idx as int, modules@, old(maps)@, old(state).current_tab as int)
                &&& final(state).poison_tab == usize::MAX
                &&& final(state).error_message@ == old(state).error_message@
                &&& out@.len() == 0
            },
        },
        !(event is CloseTab) ==> final(maps)@ == old(maps)@,
        event is CloseTab ==> final(maps)@ == old(maps)@.restrict(open_ids(shown_maps(final(state).tabs@))),
        !(event is Log) ==> final(state).logs@ == old(state).logs@,
        !(event is CloseTab || event is SelectTab) ==> final(state).current_tab == old(state).current_tab
            && final(state).poison_tab == old(state).poison_tab,
{
    match event {
        AppEventCore::Log { message } => {
            if message.level == LogLevel::Error {
                state.error_message = message.message.clone();
            }
            state.logs.push(message);
            Vec::new()
        },
        AppEventCore::OpenModuleOverviewTab { module } => open_tab(&mut state.tabs, AppTab::ProjectOverview(module)),
        AppEventCore::OpenInstallationTab => open_tab(&mut state.tabs, AppTab::CelesteOverview),
        AppEventCore::OpenLogsTab => {
            state.error_message = String::new();
            open_tab(&mut state.tabs, AppTab::Logs)
        },
        AppEventCore::OpenConfigEditorTab => {
            let n = state.tabs.len();
            state.tabs.push(AppTab::ConfigEditor);
            let mut out = Vec::new();
            out.push(AppAction::SelectTab { idx: n });
            proof { assert(out@ =~= seq![AppAction::SelectTab { idx: n }]); }
            out
        },
        AppEventCore::SelectTab { idx } => {
            let mut out = Vec::new();
            if idx < state.tabs.len() {
                out.push(AppAction::SwitchOffTool);
                state.current_tab = idx;
                if let AppTab::MapEditor(_) = state.tabs[idx] {
                    out.push(AppAction::SwitchOnTool);
                    proof { assert(out@ =~= seq![AppAction::SwitchOffTool, AppAction::SwitchOnTool]); }
                } else {
                    proof { assert(out@ =~= seq![AppAction::SwitchOffTool]); }
                }
            }
            out
        },
        AppEventCore::CloseTab { idx } => {
            state.poison_tab = idx;
            let open = garbage_collect(&mut state.tabs, &mut state.current_tab, &mut state.poison_tab, modules, maps);
            retain_open_maps(maps, &open);
            Vec::new()
        },
    }
}

/// What the palette has chosen: the layer worked on, the foreground and
/// background tiles, the object tile, and the entity, trigger and decal
/// that the tools place.
#[derive(Debug, Clone, Copy)]
pub struct Palette {
    pub current_layer: Layer,
    pub current_fg_tile: TileSelectable,
    pub current_bg_tile: TileSelectable,
    pub current_objtile: u32,
    pub current_entity: EntitySelectable,
    pub current_trigger: TriggerSelectable,
    pub current_decal: DecalSelectable,
}

/// A choice made in the palette.
#[derive(Debug, Clone, Copy)]
pub enum PaletteEvent {
    SelectLayer { layer: Layer },
    SelectPaletteTile { fg: bool, tile: TileSelectable },
    SelectPaletteObjectTile { tile: u32 },
    SelectPaletteEntity { entity: EntitySelectable },
    SelectPaletteTrigger { trigger: TriggerSelectable },
    SelectPaletteDecal { decal: DecalSelectable },
}

/// What a choice in the palette makes of it: the one choice it names is
/// replaced, the rest kept.
pub open spec fn palette_chosen(p: Palette, ev: PaletteEvent) -> Palette {
    match ev {
        PaletteEvent::SelectLayer { layer } => Palette { current_layer: layer, ..p },
        PaletteEvent::SelectPaletteTile { fg, tile } => if fg {
            Palette { current_fg_tile: tile, ..p }
        } else {
            Palette { current_bg_tile: tile, ..p }
        },
        PaletteEvent::SelectPaletteObjectTile { tile } => Palette { current_objtile: tile, ..p },
        PaletteEvent::SelectPaletteEntity { entity } => Palette { current_entity: entity, ..p },
        PaletteEvent::SelectPaletteTrigger { trigger } => Palette { current_trigger: trigger, ..p },
        PaletteEvent::SelectPaletteDecal { decal } => Palette { current_decal: decal, ..p },
    }
}

/// Records a choice made in the palette.
pub fn palette_step(p: &mut Palette, ev: PaletteEvent)
    ensures
        *final(p) == palette_chosen(*old(p), ev),
{
    match ev {
        PaletteEvent::SelectLayer { layer } => p.current_layer = layer,
        PaletteEvent::SelectPaletteTile { fg, tile } => {
            if fg {
                p.current_fg_tile = tile;
            } else {
                p.current_bg_tile = tile;
            }
        },
        PaletteEvent::SelectPaletteObjectTile { tile } => p.current_objtile = tile,
        PaletteEvent::SelectPaletteEntity { entity } => p.current_entity = entity,
        PaletteEvent::SelectPaletteTrigger { trigger } => p.current_trigger = trigger,
        PaletteEvent::SelectPaletteDecal { decal } => p.current_decal = decal,
    }
}

} // verus!
