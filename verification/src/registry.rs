//! The bookkeeping of loaded modules: which module a name stands for, and
//! from which modules, in what order, a map draws its resources.
use vstd::prelude::*;
use std::collections::HashMap;
use crate::everest::{EverestYaml, EverestYamlDependency};
use crate::uuid::ModuleID;

verus! {

/// What the module bookkeeping reads of a loaded module: its metadata and
/// the extension of the path it was loaded from.
pub struct ModuleInfo {
    /// The extension of the module's root path, empty when the path has
    /// none; `None` when the module has no root on disk or the extension is
    /// not valid text.
    pub root_ext: Option<String>,
    pub everest_metadata: EverestYaml,
}

/// An optional text by its characters.
pub open spec fn ext_view(e: Option<String>) -> Option<Seq<char>> {
    match e {
        Some(s) => Some(s@),
        None => None,
    }
}

/// Whether a module loaded from a root with extension `new` takes over a
/// name held by one loaded from a root with extension `existing`: an
/// unpacked folder wins over a zip archive, and nothing else changes hands.
pub open spec fn unpacked_wins(existing: Option<Seq<char>>, new: Option<Seq<char>>) -> bool {
    existing == Some("zip"@) && new == Some(Seq::<char>::empty())
}

/// Only an unpacked folder takes a name over, and only from a zip archive:
/// a module whose root has no extension replaces a holder whose root ends
/// in `zip`; no other pair of roots changes hands.
pub proof fn law_unpacked_takes_over_zip(existing: Option<Seq<char>>, new: Option<Seq<char>>)
    ensures
        unpacked_wins(existing, new) <==> (existing == Some(seq!['z', 'i', 'p']) && new == Some(Seq::<char>::empty())),
{
    reveal_strlit("zip");
    assert("zip"@ =~= seq!['z', 'i', 'p']);
}

/// Module identifiers by module name.
pub struct ModulesLookup {
    entries: Vec<(String, ModuleID)>,
}

/// The identifier of the last entry named `n`.
pub open spec fn last_named(s: Seq<(String, ModuleID)>, n: Seq<char>) -> Option<ModuleID>
    decreases s.len(),
{
    if s.len() == 0 {
        None
    } else if s.last().0@ == n {
        Some(s.last().1)
    } else {
        last_named(s.drop_last(), n)
    }
}

impl View for ModulesLookup {
    type V = Map<Seq<char>, ModuleID>;

    closed spec fn view(&self) -> Map<Seq<char>, ModuleID> {
        Map::new(
            |n: Seq<char>| last_named(self.entries@, n) is Some,
            |n: Seq<char>| last_named(self.entries@, n)->0,
        )
    }
}

proof fn lemma_last_named_none(s: Seq<(String, ModuleID)>, n: Seq<char>)
    requires
        forall|j: int| 0 <= j < s.len() ==> (#[trigger] s[j]).0@ != n,
    ensures
        last_named(s, n) is None,
    decreases s.len(),
{
    if s.len() > 0 {
        lemma_last_named_none(s.drop_last(), n);
    }
}

proof fn lemma_last_named_at(s: Seq<(String, ModuleID)>, n: Seq<char>, k: int)
    requires
        0 <= k < s.len(),
        s[k].0@ == n,
        forall|j: int| k < j < s.len() ==> (#[trigger] s[j]).0@ != n,
    ensures
        last_named(s, n) == Some(s[k].1),
    decreases s.len(),
{
    if k < s.len() - 1 {
        lemma_last_named_at(s.drop_last(), n, k);
    }
}

proof fn lemma_last_named_push(s: Seq<(String, ModuleID)>, p: (String, ModuleID), n: Seq<char>)
    ensures
        last_named(s.push(p), n) == (if p.0@ == n { Some(p.1) } else { last_named(s, n) }),
{
    assert(s.push(p).drop_last() =~= s);
}

proof fn lemma_last_named_update(s: Seq<(String, ModuleID)>, k: int, p: (String, ModuleID), m: Seq<char>)
    requires
        0 <= k < s.len(),
        s[k].0@ == p.0@,
        forall|j: int| k < j < s.len() ==> (#[trigger] s[j]).0@ != p.0@,
    ensures
        last_named(s.update(k, p), m) == (if m == p.0@ { Some(p.1) } else { last_named(s, m) }),
    decreases s.len(),
{
    let u = s.update(k, p);
    if k == s.len() - 1 {
        assert(u.drop_last() =~= s.drop_last());
    } else {
        assert(u.drop_last() =~= s.drop_last().update(k, p));
        lemma_last_named_update(s.drop_last(), k, p, m);
    }
}

impl ModulesLookup {
    /// No name has two entries.
    #[verifier::type_invariant]
    spec fn distinct_names(self) -> bool {
        forall|i: int, j: int|
            0 <= i < j < self.entries@.len() ==> (#[trigger] self.entries@[i]).0@ != (#[trigger] self.entries@[j]).0@
    }

    /// A lookup with no names in it.
    pub fn new() -> (r: Self)
        ensures
            r@ == Map::<Seq<char>, ModuleID>::empty(),
    {
        let r = ModulesLookup { entries: Vec::new() };
        proof {
            assert(r@ =~= Map::<Seq<char>, ModuleID>::empty());
        }
        r
    }

    /// The position of the last entry named `name`.
    fn find(&self, name: &String) -> (r: Option<usize>)
        ensures
            match r {
                Some(k) => k < self.entries@.len() && self.entries@[k as int].0@ == name@
                    && forall|j: int| k < j < self.entries@.len() ==> (#[trigger] self.entries@[j]).0@ != name@,
                None => forall|j: int| 0 <= j < self.entries@.len() ==> (#[trigger] self.entries@[j]).0@ != name@,
            },
    {
        let mut i: usize = self.entries.len();
        while i > 0
            invariant
                i <= self.entries@.len(),
                forall|j: int| i <= j < self.entries@.len() ==> (#[trigger] self.entries@[j]).0@ != name@,
            decreases i,
        {
            i = i - 1;
            if self.entries[i].0 == *name {
                return Some(i);
            }
        }
        None
    }

    /// The module that `name` stands for.
    pub fn get(&self, name: &String) -> (r: Option<ModuleID>)
        ensures
            r == (if self@.contains_key(name@) { Some(self@[name@]) } else { None }),
    {
        match self.find(name) {
            Some(k) => {
                proof {
                    lemma_last_named_at(self.entries@, name@, k as int);
                }
                Some(self.entries[k].1)
            },
            None => {
                proof {
                    lemma_last_named_none(self.entries@, name@);
                }
                None
            },
        }
    }

    /// Lets `name` stand for `id`, in place of what it stood for before.
    pub fn insert(&mut self, name: String, id: ModuleID)
        ensures
            final(self)@ == old(self)@.insert(name@, id),
    {
        proof {
            use_type_invariant(&*self);
        }
        let found = self.find(&name);
        let ghost s = self.entries@;
        let ghost n = name@;
        let mut entries: Vec<(String, ModuleID)> = Vec::new();
        std::mem::swap(&mut entries, &mut self.entries);
        match found {
            Some(k) => {
                entries.set(k, (name, id));
                proof {
                    assert forall|m: Seq<char>| #[trigger] last_named(entries@, m)
                        == (if m == n { Some(id) } else { last_named(s, m) }) by {
                        lemma_last_named_update(s, k as int, entries@[k as int], m);
                    }
                }
            },
            None => {
                entries.push((name, id));
                proof {
                    assert forall|m: Seq<char>| #[trigger] last_named(entries@, m)
                        == (if m == n { Some(id) } else { last_named(s, m) }) by {
                        lemma_last_named_push(s, entries@.last(), m);
                        assert(entries@ =~= s.push(entries@.last()));
                    }
                }
            },
        }
        self.entries = entries;
        proof {
            assert(self@ =~= old(self)@.insert(n, id));
        }
    }
}

fn is_zip(ext: &Option<String>) -> (r: bool)
    ensures
        r == (ext_view(*ext) == Some("zip"@)),
{
    match ext {
        Some(e) => *e == String::from_str("zip"),
        None => false,
    }
}

fn is_bare(ext: &Option<String>) -> (r: bool)
    ensures
        r == (ext_view(*ext) == Some(Seq::<char>::empty())),
{
    match ext {
        Some(e) => {
            let n = e.as_str().unicode_len();
            proof {
                if n == 0 {
                    assert(e@ =~= Seq::<char>::empty());
                }
            }
            n == 0
        },
        None => false,
    }
}

/// Records `module`, loaded as `id`, under its name in `lookup`. A name
/// not yet known goes to the module; a name already held stays with its
/// holder unless the holder was loaded from a zip archive and the new
/// module from an unpacked folder.
pub fn step_modules_lookup(
    lookup: &mut ModulesLookup,
    modules: &HashMap<u32, ModuleInfo>,
    id: ModuleID,
    module: &ModuleInfo,
)
    requires
        old(lookup)@.contains_key(module.everest_metadata.name@) ==> modules@.contains_key(
            old(lookup)@[module.everest_metadata.name@].0,
        ),
    ensures
        final(lookup)@ == (if !old(lookup)@.contains_key(module.everest_metadata.name@) || unpacked_wins(
            ext_view(modules@[old(lookup)@[module.everest_metadata.name@].0].root_ext),
            ext_view(module.root_ext),
        ) {
            old(lookup)@.insert(module.everest_metadata.name@, id)
        } else {
            old(lookup)@
        }),
{
    match lookup.get(&module.everest_metadata.name) {
        None => {
            lookup.insert(module.everest_metadata.name.clone(), id);
        },
        Some(existing) => {
            match modules.get(&existing.0) {
                Some(holder) => {
                    if is_zip(&holder.root_ext) && is_bare(&module.root_ext) {
                        lookup.insert(module.everest_metadata.name.clone(), id);
                    }
                },
                None => {},
            }
        },
    }
}

/// The module that the name `n` stands for, when it is loaded.
pub open spec fn resolve(lookup: Map<Seq<char>, ModuleID>, mods: Map<u32, ModuleInfo>, n: Seq<char>) -> Option<u32> {
    if lookup.contains_key(n) && mods.contains_key(lookup[n].0) {
        Some(lookup[n].0)
    } else {
        None
    }
}

/// The module named `n`, shown as `shown`, when it is loaded.
pub open spec fn named_entry(
    lookup: Map<Seq<char>, ModuleID>,
    mods: Map<u32, ModuleInfo>,
    n: Seq<char>,
) -> Seq<(Seq<char>, ModuleID)> {
    match resolve(lookup, mods, n) {
        Some(k) => seq![(n, ModuleID(k))],
        None => Seq::empty(),
    }
}

/// The loaded modules among `deps`, in their order, each under its own
/// name; the game and its mod loader are left out.
pub open spec fn deps_chain(
    deps: Seq<EverestYamlDependency>,
    lookup: Map<Seq<char>, ModuleID>,
    mods: Map<u32, ModuleInfo>,
) -> Seq<(Seq<char>, ModuleID)>
    decreases deps.len(),
{
    if deps.len() == 0 {
        Seq::empty()
    } else {
        let rest = deps_chain(deps.drop_last(), lookup, mods);
        let d = deps.last().name@;
        if d == "Celeste"@ || d == "Everest"@ {
            rest
        } else {
            match resolve(lookup, mods, d) {
                Some(k) => rest.push((mods[k].everest_metadata.name@, ModuleID(k))),
                None => rest,
            }
        }
    }
}

/// The modules a map of the module `current` draws on, each later one
/// overriding the earlier: the editor's own module, the game, the loaded
/// dependencies of `current`, and `current` itself unless it is the game.
pub open spec fn spec_dep_mods(
    mods: Map<u32, ModuleInfo>,
    lookup: Map<Seq<char>, ModuleID>,
    current: ModuleID,
) -> Seq<(Seq<char>, ModuleID)> {
    named_entry(lookup, mods, "Arborio"@) + named_entry(lookup, mods, "Celeste"@) + if mods.contains_key(current.0) {
        let m = mods[current.0].everest_metadata;
        deps_chain(m.dependencies@, lookup, mods) + if m.name@ != "Celeste"@ {
            seq![(m.name@, current)]
        } else {
            Seq::empty()
        }
    } else {
        Seq::empty()
    }
}

/// Names and identifiers, the names by their characters.
pub open spec fn shown(v: Seq<(String, ModuleID)>) -> Seq<(Seq<char>, ModuleID)> {
    v.map_values(|p: (String, ModuleID)| (p.0@, p.1))
}

fn push_named(
    out: &mut Vec<(String, ModuleID)>,
    modules: &HashMap<u32, ModuleInfo>,
    lookup: &ModulesLookup,
    name: String,
)
    ensures
        shown(final(out)@) == shown(old(out)@) + named_entry(lookup@, modules@, name@),
{
    match lookup.get(&name) {
        Some(k) => {
            if modules.contains_key(&k.0) {
                let ghost n = name@;
                out.push((name, ModuleID(k.0)));
                proof {
                    assert(shown(out@) =~= shown(old(out)@) + seq![(n, ModuleID(k.0))]);
                }
            } else {
                proof {
                    assert(shown(out@) =~= shown(old(out)@) + Seq::<(Seq<char>, ModuleID)>::empty());
                }
            }
        },
        None => {
            proof {
                assert(shown(out@) =~= shown(old(out)@) + Seq::<(Seq<char>, ModuleID)>::empty());
            }
        },
    }
}

/// The modules, with the names they go by, that a map of the module
/// `current` draws its resources from, each later one overriding the earlier.
pub fn dep_mods(
    modules: &HashMap<u32, ModuleInfo>,
    modules_lookup: &ModulesLookup,
    current_module: ModuleID,
) -> (r: Vec<(String, ModuleID)>)
    ensures
        shown(r@) == spec_dep_mods(modules@, modules_lookup@, current_module),
{
    let mut out: Vec<(String, ModuleID)> = Vec::new();
    proof {
        assert(shown(out@) =~= Seq::<(Seq<char>, ModuleID)>::empty());
    }
    push_named(&mut out, modules, modules_lookup, String::from_str("Arborio"));
    push_named(&mut out, modules, modules_lookup, String::from_str("Celeste"));
    let ghost head = shown(out@);
    match modules.get(&current_module.0) {
        Some(m) => {
            let deps = &m.everest_metadata.dependencies;
            let celeste = String::from_str("Celeste");
            let everest = String::from_str("Everest");
            let mut i: usize = 0;
            while i < deps.len()
                invariant
                    i <= deps@.len(),
                    deps@ == modules@[current_module.0].everest_metadata.dependencies@,
                    modules@.contains_key(current_module.0),
                    celeste@ == "Celeste"@,
                    everest@ == "Everest"@,
                    shown(out@) == head + deps_chain(deps@.take(i as int), modules_lookup@, modules@),
                decreases deps@.len() - i,
            {
                let dep = &deps[i];
                proof {
                    assert(deps@.take(i + 1).drop_last() =~= deps@.take(i as int));
                }
                if dep.name != celeste && dep.name != everest {
                    match modules_lookup.get(&dep.name) {
                        Some(k) => {
                            match modules.get(&k.0) {
                                Some(dm) => {
                                    let ghost before = shown(out@);
                                    out.push((dm.everest_metadata.name.clone(), ModuleID(k.0)));
                                    proof {
                                        assert(shown(out@) =~= before.push((dm.everest_metadata.name@, ModuleID(k.0))));
                                    }
                                },
                                None => {},
                            }
                        },
                        None => {},
                    }
                }
                i = i + 1;
            }
            proof {
                assert(deps@.take(deps@.len() as int) =~= deps@);
            }
            if m.everest_metadata.name != celeste {
                let ghost before = shown(out@);
                out.push((m.everest_metadata.name.clone(), current_module));
                proof {
                    assert(shown(out@) =~= before + seq![(m.everest_metadata.name@, current_module)]);
                }
            } else {
                proof {
                    assert(shown(out@) =~= shown(out@) + Seq::<(Seq<char>, ModuleID)>::empty());
                }
            }
        },
        None => {
            proof {
                assert(shown(out@) =~= shown(out@) + Seq::<(Seq<char>, ModuleID)>::empty());
            }
        },
    }
    out
}

} // verus!
