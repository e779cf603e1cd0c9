use vstd::prelude::*;
use crate::uuid::ModuleID;

verus! {
/// A map within a module: the module and the map's SID.
#[derive(Clone, Debug, PartialEq, Eq, Hash)]
pub struct MapPath {
    pub module: ModuleID,
    pub sid: String,
}

/// Where a module comes from.
#[derive(Copy, Clone, Debug, PartialEq, Eq, Structural)]
pub enum CelesteModuleKind {
    Builtin,
    Zip,
    Directory,
}

/// The kind of a module: built in when its name is `Celeste` or it has no
/// place on disk; else a zip when its path's extension is `zip`, a directory
/// otherwise. `root_is_zip` tells whether it has a place on disk and, if so,
/// whether that path's extension is `zip`.
pub fn module_kind(name: &String, root_is_zip: Option<bool>) -> (r: CelesteModuleKind)
    ensures
        r == (if name@ == "Celeste"@ {
            CelesteModuleKind::Builtin
        } else {
            match root_is_zip {
                Some(true) => CelesteModuleKind::Zip,
                Some(false) => CelesteModuleKind::Directory,
                None => CelesteModuleKind::Builtin,
            }
        }),
{
    let celeste = String::from_str("Celeste");
    if *name == celeste {
        return CelesteModuleKind::Builtin;
    }
    match root_is_zip {
        Some(true) => CelesteModuleKind::Zip,
        Some(false) => CelesteModuleKind::Directory,
        None => CelesteModuleKind::Builtin,
    }
}

/// A text of a map's metadata, or nothing where it is empty.
pub fn if_not_default(s: String) -> (r: Option<String>)
    ensures
        r == (if s@.len() == 0 { None } else { Some(s) }),
{
    if s.as_str().unicode_len() == 0 {
        None
    } else {
        Some(s)
    }
}

} // verus!
