//! Closing the tabs of the editor whose project or map is gone.
use vstd::prelude::*;
use std::collections::HashMap;
use crate::registry::ModuleInfo;
use crate::module::MapPath;
use crate::uuid::{MapID, ModuleID};

verus! {

/// An open tab of the editor, by what it shows.
#[derive(Debug, Clone, Copy, PartialEq, Eq, Structural)]
pub enum AppTab {
    CelesteOverview,
    ProjectOverview(ModuleID),
    MapEditor(MapID),
    ConfigEditor,
    Logs,
    MapMeta(MapID),
}

/// Whether what a tab shows is still there: a project that is loaded, or
/// a map that is loaded and whose project is loaded.
pub open spec fn tab_alive(t: AppTab, modules: Map<u32, ModuleInfo>, maps: Map<u32, ModuleID>) -> bool {
    match t {
        AppTab::ProjectOverview(p) => modules.contains_key(p.0),
        AppTab::MapEditor(id) => maps.contains_key(id.0) && modules.contains_key(maps[id.0].0),
        AppTab::MapMeta(id) => maps.contains_key(id.0) && modules.contains_key(maps[id.0].0),
        _ => true,
    }
}

/// Whether the tab at `i` stays open: it is not marked for closing and
/// what it shows is still there.
pub open spec fn tab_kept(
    tabs: Seq<AppTab>,
    poison: int,
    modules: Map<u32, ModuleInfo>,
    maps: Map<u32, ModuleID>,
    i: int,
) -> bool {
    i != poison && tab_alive(tabs[i], modules, maps)
}

/// The tabs among the first `k` that stay open, in order.
pub open spec fn kept_prefix(
    tabs: Seq<AppTab>,
    poison: int,
    modules: Map<u32, ModuleInfo>,
    maps: Map<u32, ModuleID>,
    k: int,
) -> Seq<AppTab>
    decreases k,
{
    if k <= 0 {
        Seq::empty()
    } else {
        let rest = kept_prefix(tabs, poison, modules, maps, k - 1);
        if tab_kept(tabs, poison, modules, maps, k - 1) {
            rest.push(tabs[k - 1])
        } else {
            rest
        }
    }
}

/// How many of the first `k` tabs close.
pub open spec fn closed_prefix(
    tabs: Seq<AppTab>,
    poison: int,
    modules: Map<u32, ModuleInfo>,
    maps: Map<u32, ModuleID>,
    k: int,
) -> int
    decreases k,
{
    if k <= 0 {
        0
    } else {
        closed_prefix(tabs, poison, modules, maps, k - 1) + if tab_kept(tabs, poison, modules, maps, k - 1) {
            0int
        } else {
            1int
        }
    }
}

/// The maps shown by `ts`, in order.
pub open spec fn shown_maps(ts: Seq<AppTab>) -> Seq<MapID>
    decreases ts.len(),
{
    if ts.len() == 0 {
        Seq::empty()
    } else {
        let rest = shown_maps(ts.drop_last());
        match ts.last() {
            AppTab::MapEditor(id) => rest.push(id),
            AppTab::MapMeta(id) => rest.push(id),
            _ => rest,
        }
    }
}

/// The current tab after closing: moved back by the number of closed tabs
/// at or before it, and no further than the first.
pub open spec fn moved_current(
    tabs: Seq<AppTab>,
    poison: int,
    modules: Map<u32, ModuleInfo>,
    maps: Map<u32, ModuleID>,
    current: int,
) -> int {
    let closed = closed_prefix(tabs, poison, modules, maps, if current + 1 < tabs.len() { current + 1 } else { tabs.len() as int });
    if current >= closed { current - closed } else { 0 }
}

pub proof fn lemma_prefix_counts(
    tabs: Seq<AppTab>,
    poison: int,
    modules: Map<u32, ModuleInfo>,
    maps: Map<u32, ModuleID>,
    k: int,
)
    requires
        0 <= k,
    ensures
        kept_prefix(tabs, poison, modules, maps, k).len() + closed_prefix(tabs, poison, modules, maps, k) == k,
        closed_prefix(tabs, poison, modules, maps, k) >= 0,
    decreases k,
{
    if k > 0 {
        lemma_prefix_counts(tabs, poison, modules, maps, k - 1);
    }
}

pub proof fn lemma_prefix_grows(
    tabs: Seq<AppTab>,
    poison: int,
    modules: Map<u32, ModuleInfo>,
    maps: Map<u32, ModuleID>,
    j: int,
    k: int,
)
    requires
        0 <= j <= k,
    ensures
        kept_prefix(tabs, poison, modules, maps, j).len() <= kept_prefix(tabs, poison, modules, maps, k).len(),
        forall|i: int| 0 <= i < kept_prefix(tabs, poison, modules, maps, j).len()
            ==> kept_prefix(tabs, poison, modules, maps, k)[i] == #[trigger] kept_prefix(tabs, poison, modules, maps, j)[i],
    decreases k - j,
{
    if j < k {
        lemma_prefix_grows(tabs, poison, modules, maps, j, k - 1);
    }
}

/// Closing tabs keeps the current tab pointing at a tab that is open, and
/// at the same tab where that one stays open.
pub proof fn law_current_tab_stays_valid(
    tabs: Seq<AppTab>,
    poison: int,
    modules: Map<u32, ModuleInfo>,
    maps: Map<u32, ModuleID>,
    current: int,
)
    requires
        0 <= current < tabs.len(),
        kept_prefix(tabs, poison, modules, maps, tabs.len() as int).len() > 0,
    ensures
        moved_current(tabs, poison, modules, maps, current) < kept_prefix(tabs, poison, modules, maps, tabs.len() as int).len(),
        tab_kept(tabs, poison, modules, maps, current) ==> kept_prefix(tabs, poison, modules, maps, tabs.len() as int)[
            moved_current(tabs, poison, modules, maps, current)] == tabs[current],
{
    let n = tabs.len() as int;
    lemma_prefix_counts(tabs, poison, modules, maps, current + 1);
    lemma_prefix_counts(tabs, poison, modules, maps, current);
    lemma_prefix_grows(tabs, poison, modules, maps, current + 1, n);
    let kp = kept_prefix(tabs, poison, modules, maps, current + 1);
    if tab_kept(tabs, poison, modules, maps, current) {
        assert(kp[kp.len() - 1] == tabs[current]);
    }
}

/// The positions of the first `k` tabs that stay open, in order.
pub open spec fn kept_positions(
    tabs: Seq<AppTab>,
    poison: int,
    modules: Map<u32, ModuleInfo>,
    maps: Map<u32, ModuleID>,
    k: int,
) -> Seq<int>
    decreases k,
{
    if k <= 0 {
        Seq::empty()
    } else {
        let rest = kept_positions(tabs, poison, modules, maps, k - 1);
        if tab_kept(tabs, poison, modules, maps, k - 1) { rest.push(k - 1) } else { rest }
    }
}

proof fn lemma_kept_positions(
    tabs: Seq<AppTab>,
    poison: int,
    modules: Map<u32, ModuleInfo>,
    maps: Map<u32, ModuleID>,
    k: int,
)
    requires
        0 <= k <= tabs.len(),
    ensures
        ({
            let r = kept_prefix(tabs, poison, modules, maps, k);
            let idx = kept_positions(tabs, poison, modules, maps, k);
            &&& idx.len() == r.len()
            &&& forall|i: int| 0 <= i < idx.len() ==> 0 <= #[trigger] idx[i] < k && r[i] == tabs[idx[i]]
            &&& forall|i1: int, i2: int| 0 <= i1 < i2 < idx.len() ==> #[trigger] idx[i1] < #[trigger] idx[i2]
        }),
    decreases k,
{
    if k > 0 {
        lemma_kept_positions(tabs, poison, modules, maps, k - 1);
        let r0 = kept_prefix(tabs, poison, modules, maps, k - 1);
        let i0 = kept_positions(tabs, poison, modules, maps, k - 1);
        let r = kept_prefix(tabs, poison, modules, maps, k);
        let idx = kept_positions(tabs, poison, modules, maps, k);
        assert forall|i: int| 0 <= i < idx.len() implies 0 <= #[trigger] idx[i] < k && r[i] == tabs[idx[i]] by {
            if i < i0.len() {
                assert(idx[i] == i0[i] && r[i] == r0[i]);
            }
        }
        assert forall|i1: int, i2: int| 0 <= i1 < i2 < idx.len() implies #[trigger] idx[i1] < #[trigger] idx[i2] by {
            assert(idx[i1] == i0[i1]);
            if i2 < i0.len() {
                assert(idx[i2] == i0[i2]);
            }
        }
    }
}

/// Whether `t` is one of the first `k` tabs that stay open.
pub open spec fn kept_among(
    tabs: Seq<AppTab>,
    poison: int,
    modules: Map<u32, ModuleInfo>,
    maps: Map<u32, ModuleID>,
    k: int,
    t: AppTab,
) -> bool {
    exists|j: int| 0 <= j < k && tab_kept(tabs, poison, modules, maps, j) && #[trigger] tabs[j] == t
}

proof fn lemma_kept_prefix_members(
    tabs: Seq<AppTab>,
    poison: int,
    modules: Map<u32, ModuleInfo>,
    maps: Map<u32, ModuleID>,
    k: int,
)
    requires
        0 <= k <= tabs.len(),
    ensures
        ({
            let r = kept_prefix(tabs, poison, modules, maps, k);
            &&& forall|i: int| 0 <= i < r.len() ==> kept_among(tabs, poison, modules, maps, k, #[trigger] r[i])
            &&& forall|j: int| 0 <= j < k && tab_kept(tabs, poison, modules, maps, j) ==> r.contains(#[trigger] tabs[j])
            &&& (0 <= poison < k ==> closed_prefix(tabs, poison, modules, maps, k) >= 1)
        }),
    decreases k,
{
    if k > 0 {
        lemma_kept_prefix_members(tabs, poison, modules, maps, k - 1);
        let before = kept_prefix(tabs, poison, modules, maps, k - 1);
        let r = kept_prefix(tabs, poison, modules, maps, k);
        assert forall|i: int| 0 <= i < r.len() implies kept_among(tabs, poison, modules, maps, k, #[trigger] r[i]) by {
            if i < before.len() {
                assert(r[i] == before[i]);
                assert(kept_among(tabs, poison, modules, maps, k - 1, before[i]));
                let j = choose|j: int| 0 <= j < k - 1 && tab_kept(tabs, poison, modules, maps, j) && #[trigger] tabs[j] == before[i];
                assert(tabs[j] == r[i]);
            } else {
                assert(r[i] == tabs[k - 1]);
            }
        }
        assert forall|j: int| 0 <= j < k && tab_kept(tabs, poison, modules, maps, j) implies r.contains(#[trigger] tabs[j]) by {
            if j < k - 1 {
                let i = choose|i: int| 0 <= i < before.len() && before[i] == tabs[j];
                assert(r[i] == before[i]);
            } else {
                assert(r[r.len() - 1] == tabs[j]);
            }
        }
        lemma_prefix_counts(tabs, poison, modules, maps, k - 1);
    }
}

/// Closing tabs keeps exactly the tabs that still show something: every tab
/// left open was open before and is not one whose project is unloaded, nor
/// a map editor or map properties tab whose map is not loaded or whose
/// project is unloaded; every tab other than the one marked for closing
/// that shows a loaded project, or a loaded map of a loaded project, or
/// nothing of either, stays open; and the tab marked, when there is one,
/// closes. The tabs left open keep their order.
pub proof fn law_closing_keeps_live_tabs(
    tabs: Seq<AppTab>,
    poison: int,
    modules: Map<u32, ModuleInfo>,
    maps: Map<u32, ModuleID>,
)
    ensures
        ({
            let r = kept_prefix(tabs, poison, modules, maps, tabs.len() as int);
            &&& forall|i: int| 0 <= i < r.len() ==> tabs.contains(#[trigger] r[i]) && match r[i] {
                AppTab::ProjectOverview(p) => modules.contains_key(p.0),
                AppTab::MapEditor(id) => maps.contains_key(id.0) && modules.contains_key(maps[id.0].0),
                AppTab::MapMeta(id) => maps.contains_key(id.0) && modules.contains_key(maps[id.0].0),
                _ => true,
            }
            &&& forall|j: int| 0 <= j < tabs.len() && j != poison && match #[trigger] tabs[j] {
                AppTab::ProjectOverview(p) => modules.contains_key(p.0),
                AppTab::MapEditor(id) => maps.contains_key(id.0) && modules.contains_key(maps[id.0].0),
                AppTab::MapMeta(id) => maps.contains_key(id.0) && modules.contains_key(maps[id.0].0),
                _ => true,
            } ==> r.contains(tabs[j])
            &&& r.len() <= tabs.len()
            &&& 0 <= poison < tabs.len() ==> r.len() < tabs.len()
            &&& exists|idx: Seq<int>| idx.len() == r.len()
                && (forall|i: int| 0 <= i < idx.len() ==> 0 <= #[trigger] idx[i] < tabs.len() && r[i] == tabs[idx[i]])
                && (forall|i1: int, i2: int| 0 <= i1 < i2 < idx.len() ==> #[trigger] idx[i1] < #[trigger] idx[i2])
        }),
{
    let n = tabs.len() as int;
    lemma_kept_prefix_members(tabs, poison, modules, maps, n);
    lemma_kept_positions(tabs, poison, modules, maps, n);
    let idx = kept_positions(tabs, poison, modules, maps, n);
    assert(idx.len() == kept_prefix(tabs, poison, modules, maps, n).len());
    lemma_prefix_counts(tabs, poison, modules, maps, n);
    let r = kept_prefix(tabs, poison, modules, maps, n);
    assert forall|i: int| 0 <= i < r.len() implies tabs.contains(#[trigger] r[i]) && match r[i] {
        AppTab::ProjectOverview(p) => modules.contains_key(p.0),
        AppTab::MapEditor(id) => maps.contains_key(id.0) && modules.contains_key(maps[id.0].0),
        AppTab::MapMeta(id) => maps.contains_key(id.0) && modules.contains_key(maps[id.0].0),
        _ => true,
    } by {
        assert(kept_among(tabs, poison, modules, maps, n, r[i]));
        let j = choose|j: int| 0 <= j < n && tab_kept(tabs, poison, modules, maps, j) && #[trigger] tabs[j] == r[i];
        assert(tabs[j] == r[i]);
    }
    assert forall|j: int| 0 <= j < tabs.len() && j != poison && match #[trigger] tabs[j] {
        AppTab::ProjectOverview(p) => modules.contains_key(p.0),
        AppTab::MapEditor(id) => maps.contains_key(id.0) && modules.contains_key(maps[id.0].0),
        AppTab::MapMeta(id) => maps.contains_key(id.0) && modules.contains_key(maps[id.0].0),
        _ => true,
    } implies r.contains(tabs[j]) by {
        assert(tab_kept(tabs, poison, modules, maps, j));
    }
}

/// Closes the tabs marked for closing (the one at `poison_tab`) and those
/// whose project or map is gone, moves the current tab back by the number
/// of closed tabs at or before it, clears the mark, and gives the maps the
/// open tabs still show. `maps` gives the project of each loaded map.
pub fn garbage_collect(
    tabs: &mut Vec<AppTab>,
    current_tab: &mut usize,
    poison_tab: &mut usize,
    modules: &HashMap<u32, ModuleInfo>,
    maps: &HashMap<u32, ModuleID>,
) -> (open_maps: Vec<MapID>)
    ensures
        final(tabs)@ == kept_prefix(old(tabs)@, *old(poison_tab) as int, modules@, maps@, old(tabs)@.len() as int),
        *final(current_tab) as int == moved_current(old(tabs)@, *old(poison_tab) as int, modules@, maps@, *old(current_tab) as int),
        *final(poison_tab) == usize::MAX,
        open_maps@ == shown_maps(final(tabs)@),
{
    let ghost t0 = tabs@;
    let ghost p = *poison_tab as int;
    let n = tabs.len();
    let c = *current_tab;
    let mut kept: Vec<AppTab> = Vec::new();
    let mut open: Vec<MapID> = Vec::new();
    let mut delta: usize = 0;
    let mut idx: usize = 0;
    while idx < n
        invariant
            n == t0.len(),
            tabs@ == t0,
            p == *poison_tab as int,
            idx <= n,
            kept@ == kept_prefix(t0, p, modules@, maps@, idx as int),
            open@ == shown_maps(kept@),
            delta == closed_prefix(t0, p, modules@, maps@, if c + 1 < idx { c + 1 } else { idx as int }),
            delta <= idx,
        decreases n - idx,
    {
        proof {
            lemma_prefix_counts(t0, p, modules@, maps@, idx as int);
        }
        let tab = tabs[idx];
        let alive = match tab {
            AppTab::ProjectOverview(project) => modules.contains_key(&project.0),
            AppTab::MapEditor(id) => match maps.get(&id.0) {
                Some(m) => modules.contains_key(&m.0),
                None => false,
            },
            AppTab::MapMeta(id) => match maps.get(&id.0) {
                Some(m) => modules.contains_key(&m.0),
                None => false,
            },
            _ => true,
        };
        let keep = idx != *poison_tab && alive;
        proof {
            assert(keep == tab_kept(t0, p, modules@, maps@, idx as int));
        }
        if keep {
            let ghost before = kept@;
            kept.push(tab);
            proof {
                assert(kept@.drop_last() =~= before);
            }
            match tab {
                AppTab::MapEditor(id) => {
                    open.push(id);
                },
                AppTab::MapMeta(id) => {
                    open.push(id);
                },
                _ => {},
            }
        } else if c >= idx {
            delta = delta + 1;
        }
        idx = idx + 1;
    }
    proof {
        lemma_prefix_counts(t0, p, modules@, maps@, if c + 1 < n { c + 1 } else { n as int });
    }
    *tabs = kept;
    *current_tab = if c >= delta { c - delta } else { 0 };
    *poison_tab = usize::MAX;
    open
}

/// The identifiers of the maps in `open`.
pub open spec fn open_ids(open: Seq<MapID>) -> Set<u32> {
    Set::new(|k: u32| exists|i: int| 0 <= i < open.len() && (#[trigger] open[i]).0 == k)
}

/// Keeps of the loaded maps (by identifier, with their project) exactly
/// those that `open` names, as closing tabs does with the maps no open tab
/// shows any more.
pub fn retain_open_maps(loaded: &mut HashMap<u32, ModuleID>, open: &Vec<MapID>)
    ensures
        final(loaded)@ == old(loaded)@.restrict(open_ids(open@)),
{
    let mut kept: HashMap<u32, ModuleID> = HashMap::new();
    let mut i: usize = 0;
    while i < open.len()
        invariant
            i <= open@.len(),
            kept@ == old(loaded)@.restrict(open_ids(open@.take(i as int))),
            *loaded == *old(loaded),
        decreases open@.len() - i,
    {
        let id = open[i].0;
        proof {
            assert(open_ids(open@.take(i + 1)) =~= open_ids(open@.take(i as int)).insert(id)) by {
                assert forall|k: u32| open_ids(open@.take(i + 1)).contains(k) implies open_ids(open@.take(i as int)).insert(id).contains(k) by {
                    let j = choose|j: int| 0 <= j < open@.take(i + 1).len() && (#[trigger] open@.take(i + 1)[j]).0 == k;
                    if j < i {
                        assert(open@.take(i as int)[j] == open@.take(i + 1)[j]);
                    }
                }
                assert forall|k: u32| open_ids(open@.take(i as int)).insert(id).contains(k) implies open_ids(open@.take(i + 1)).contains(k) by {
                    if k == id {
                        assert(open@.take(i + 1)[i as int].0 == k);
                    } else {
                        let j = choose|j: int| 0 <= j < open@.take(i as int).len() && (#[trigger] open@.take(i as int)[j]).0 == k;
                        assert(open@.take(i + 1)[j] == open@.take(i as int)[j]);
                    }
                }
            }
        }
        match loaded.get(&id) {
            Some(m) => {
                kept.insert(id, *m);
                proof {
                    assert(kept@ =~= old(loaded)@.restrict(open_ids(open@.take(i + 1))));
                }
            },
            None => {
                proof {
                    assert(kept@ =~= old(loaded)@.restrict(open_ids(open@.take(i + 1))));
                }
            },
        }
        i = i + 1;
    }
    proof {
        assert(open@.take(open@.len() as int) =~= open@);
    }
    *loaded = kept;
}


/// The entries, of the first `n`, whose map is one of `ids`.
pub open spec fn kept_entries(s: Seq<(MapPath, MapID)>, ids: Set<u32>, n: nat) -> Seq<(MapPath, MapID)>
    decreases n,
{
    if n == 0 {
        Seq::empty()
    } else {
        let before = kept_entries(s, ids, (n - 1) as nat);
        if ids.contains(s[n - 1].1.0) { before.push(s[n - 1]) } else { before }
    }
}

fn shows(open: &Vec<MapID>, id: u32) -> (r: bool)
    ensures
        r == open_ids(open@).contains(id),
{
    let mut i: usize = 0;
    while i < open.len()
        invariant
            i <= open@.len(),
            forall|j: int| 0 <= j < i ==> open@[j].0 != id,
        decreases open@.len() - i,
    {
        if open[i].0 == id {
            assert(open@[i as int].0 == id);
            return true;
        }
        i = i + 1;
    }
    false
}

/// Keeps, in order, the entries of the path-to-map lookup whose map is shown.
pub fn retain_open_lookup(lookup: &mut Vec<(MapPath, MapID)>, open: &Vec<MapID>)
    ensures
        final(lookup)@ == kept_entries(old(lookup)@, open_ids(open@), old(lookup)@.len()),
{
    let ghost s = lookup@;
    let mut rest: Vec<(MapPath, MapID)> = Vec::new();
    std::mem::swap(&mut rest, lookup);
    let mut kept: Vec<(MapPath, MapID)> = Vec::new();
    let mut k: usize = 0;
    let total = rest.len();
    let mut src = rest;
    while src.len() > 0
        invariant
            total == s.len(),
            k + src@.len() == total,
            src@ == s.subrange(k as int, total as int),
            kept@ == kept_entries(s, open_ids(open@), k as nat),
        decreases src@.len(),
    {
        let ghost before = src@;
        let e = src.remove(0);
        proof {
            assert(e == s[k as int]);
            assert(src@ =~= s.subrange(k + 1, total as int));
        }
        if shows(open, e.1.0) {
            kept.push(e);
        }
        k = k + 1;
    }
    *lookup = kept;
}

/// Closes the tabs whose project or map is gone, or that were marked for
/// closing, as `garbage_collect` does, then lets go of the loaded maps, and
/// the entries of the path-to-map lookup, that no remaining tab shows.
pub fn collect_garbage(
    tabs: &mut Vec<AppTab>,
    current_tab: &mut usize,
    poison_tab: &mut usize,
    modules: &HashMap<u32, ModuleInfo>,
    maps: &mut HashMap<u32, ModuleID>,
    lookup: &mut Vec<(MapPath, MapID)>,
)
    ensures
        final(tabs)@ == kept_prefix(old(tabs)@, *old(poison_tab) as int, modules@, old(maps)@, old(tabs)@.len() as int),
        *final(current_tab) as int == moved_current(old(tabs)@, *old(poison_tab) as int, modules@, old(maps)@, *old(current_tab) as int),
        *final(poison_tab) == usize::MAX,
        final(maps)@ == old(maps)@.restrict(open_ids(shown_maps(final(tabs)@))),
        final(lookup)@ == kept_entries(old(lookup)@, open_ids(shown_maps(final(tabs)@)), old(lookup)@.len()),
{
    let open = garbage_collect(tabs, current_tab, poison_tab, modules, maps);
    retain_open_maps(maps, &open);
    retain_open_lookup(lookup, &open);
}
} // verus!
