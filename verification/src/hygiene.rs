//! The hygiene of a legacy Space on disk: Task roots and worktrees that no
//! registry declares, and the modes and links inside a Task's memory.
use crate::audit::{Audit, mode_mismatch};
use crate::member::{Finding, note, shown};
use crate::territory::Entry;
use crate::text::{join, render_mode, same};
use vstd::prelude::*;

verus! {

/// What stands at a path: a link, a directory or anything else (a file).
#[derive(Clone, Copy, Debug, PartialEq, Eq, Structural)]
pub enum Stand {
    Link,
    Directory,
    File,
}

/// Where in a Task's memory an entry lies: the memory itself, or its
/// private resources.
#[derive(Clone, Copy, Debug, PartialEq, Eq, Structural)]
pub enum Zone {
    Memory,
    Resources,
}

fn declared(names: &Vec<String>, name: &str) -> (r: bool)
    ensures
        r == names.deep_view().contains(name@),
{
    let ghost d = names.deep_view();
    let mut i: usize = 0;
    while i < names.len()
        invariant
            i <= names@.len(),
            d == names.deep_view(),
            d.len() == names@.len(),
            forall|j: int| 0 <= j < i ==> d[j] != name@,
        decreases names@.len() - i,
    {
        if same(names[i].as_str(), name) {
            proof {
                assert(d[i as int] == name@);
            }
            return true;
        }
        i = i + 1;
    }
    false
}

/// The directories under a Domain's task root that its registry does not
/// declare; each entry comes with whether it is a directory.
pub open spec fn stray_roots(declared: Seq<Seq<char>>, entries: Seq<(Entry, bool)>) -> Seq<Finding>
    decreases entries.len(),
{
    if entries.len() == 0 {
        Seq::empty()
    } else {
        let (e, dir) = entries.last();
        stray_roots(declared, entries.drop_last()) + if dir && !declared.contains(e.name@) {
            seq![("registry"@, e.path@, "task root has no registry entry"@)]
        } else {
            Seq::<Finding>::empty()
        }
    }
}

/// Faults every directory under a Domain's task root that the registry
/// (`declared`, its Task names) does not declare.
pub fn undeclared_tasks(audit: &mut Audit, declared_names: &Vec<String>, entries: &Vec<(Entry, bool)>)
    ensures
        final(audit).target == old(audit).target,
        final(audit).observations == old(audit).observations,
        shown(final(audit).faults@) == shown(old(audit).faults@) + stray_roots(declared_names.deep_view(), entries@),
{
    let ghost before = shown(audit.faults@);
    let ghost names = declared_names.deep_view();
    let mut i: usize = 0;
    proof {
        assert(entries@.take(0) =~= Seq::<(Entry, bool)>::empty());
        assert(before + Seq::<Finding>::empty() =~= before);
    }
    while i < entries.len()
        invariant
            i <= entries@.len(),
            names == declared_names.deep_view(),
            audit.target == old(audit).target,
            audit.observations == old(audit).observations,
            before == shown(old(audit).faults@),
            shown(audit.faults@) == before + stray_roots(names, entries@.take(i as int)),
        decreases entries@.len() - i,
    {
        proof {
            assert(entries@.take(i + 1).drop_last() =~= entries@.take(i as int));
        }
        let ghost prior = stray_roots(names, entries@.take(i as int));
        let (e, dir) = &entries[i];
        if *dir && !declared(declared_names, e.name.as_str()) {
            note(audit, "registry", e.path.as_str(), String::from_str("task root has no registry entry"));
            proof {
                reveal_strlit("registry");
                let x = ("registry"@, e.path@, "task root has no registry entry"@);
                assert(before + prior + seq![x] =~= (before + prior).push(x));
            }
        } else {
            proof {
                assert(before + prior + Seq::<Finding>::empty() =~= before + prior);
            }
        }
        i = i + 1;
    }
    proof {
        assert(entries@.take(entries@.len() as int) =~= entries@);
    }
}

/// An entry under a Task's root: its name and path, whether it is a
/// directory, and whether it holds a `.git`.
#[derive(Clone, Debug, PartialEq, Eq)]
pub struct Seated {
    pub entry: Entry,
    pub directory: bool,
    pub git: bool,
}

/// The Git worktrees under a Task's root that the registry does not
/// declare as Members; the memory directory is never one.
pub open spec fn stray_worktrees(declared: Seq<Seq<char>>, entries: Seq<Seated>) -> Seq<Finding>
    decreases entries.len(),
{
    if entries.len() == 0 {
        Seq::empty()
    } else {
        let s = entries.last();
        stray_worktrees(declared, entries.drop_last()) + if s.entry.name@ != ".task"@ && s.directory && s.git && !declared.contains(s.entry.name@) {
            seq![("registry"@, s.entry.path@, "Git worktree under task root is undeclared"@)]
        } else {
            Seq::<Finding>::empty()
        }
    }
}

/// Faults every Git worktree under a Task's root that is not one of its
/// declared Members (`declared`, their names).
pub fn undeclared_worktrees(audit: &mut Audit, declared_names: &Vec<String>, entries: &Vec<Seated>)
    ensures
        final(audit).target == old(audit).target,
        final(audit).observations == old(audit).observations,
        shown(final(audit).faults@) == shown(old(audit).faults@) + stray_worktrees(declared_names.deep_view(), entries@),
{
    let ghost before = shown(audit.faults@);
    let ghost names = declared_names.deep_view();
    let mut i: usize = 0;
    proof {
        assert(entries@.take(0) =~= Seq::<Seated>::empty());
        assert(before + Seq::<Finding>::empty() =~= before);
    }
    while i < entries.len()
        invariant
            i <= entries@.len(),
            names == declared_names.deep_view(),
            audit.target == old(audit).target,
            audit.observations == old(audit).observations,
            before == shown(old(audit).faults@),
            shown(audit.faults@) == before + stray_worktrees(names, entries@.take(i as int)),
        decreases entries@.len() - i,
    {
        proof {
            assert(entries@.take(i + 1).drop_last() =~= entries@.take(i as int));
        }
        let ghost prior = stray_worktrees(names, entries@.take(i as int));
        let s = &entries[i];
        if !same(s.entry.name.as_str(), ".task") && s.directory && s.git && !declared(declared_names, s.entry.name.as_str()) {
            note(audit, "registry", s.entry.path.as_str(), String::from_str("Git worktree under task root is undeclared"));
            proof {
                reveal_strlit("registry");
                let x = ("registry"@, s.entry.path@, "Git worktree under task root is undeclared"@);
                assert(before + prior + seq![x] =~= (before + prior).push(x));
            }
        } else {
            proof {
                assert(before + prior + Seq::<Finding>::empty() =~= before + prior);
            }
        }
        i = i + 1;
    }
    proof {
        assert(entries@.take(entries@.len() as int) =~= entries@);
    }
}

/// The permission fault of a path holding a mode other than the one
/// wanted.
pub open spec fn mode_finding(path: Seq<char>, held: Option<u32>, wanted: u32) -> Seq<Finding> {
    match held {
        Some(h) if h != wanted => seq![("permission"@, path, mode_mismatch(h, wanted))],
        _ => Seq::empty(),
    }
}

fn hold(audit: &mut Audit, path: &str, held: Option<u32>, wanted: u32)
    ensures
        final(audit).target == old(audit).target,
        final(audit).observations == old(audit).observations,
        shown(final(audit).faults@) == shown(old(audit).faults@) + mode_finding(path@, held, wanted),
{
    let ghost before = shown(audit.faults@);
    match held {
        Some(h) => {
            if h != wanted {
                let a = join("mode ", render_mode(h).as_str());
                let b = join(a.as_str(), " must be ");
                note(audit, "permission", path, join(b.as_str(), render_mode(wanted).as_str()));
                proof {
                    reveal_strlit("permission");
                    assert(before + mode_finding(path@, held, wanted) =~= before.push(("permission"@, path@, mode_mismatch(h, wanted))));
                }
            } else {
                proof {
                    assert(before + mode_finding(path@, held, wanted) =~= before);
                }
            }
        },
        None => {
            proof {
                assert(before + mode_finding(path@, held, wanted) =~= before);
            }
        },
    }
}

/// The faults of a Task's memory directory: its mode must be 0700, and it
/// must hold a MAIN.md file.
pub open spec fn root_findings(root: Seq<char>, held: Option<u32>, main: Seq<char>, main_file: bool) -> Seq<Finding> {
    mode_finding(root, held, 0o700) + if main_file {
        Seq::<Finding>::empty()
    } else {
        seq![("presence"@, main, "task memory exists without MAIN.md"@)]
    }
}

/// Checks a Task's memory directory that exists: its mode (`held`, where
/// the platform has one) and that `main` is a file.
pub fn memory_root(audit: &mut Audit, root: &str, held: Option<u32>, main: &str, main_file: bool)
    ensures
        final(audit).target == old(audit).target,
        final(audit).observations == old(audit).observations,
        shown(final(audit).faults@) == shown(old(audit).faults@) + root_findings(root@, held, main@, main_file),
{
    let ghost before = shown(audit.faults@);
    hold(audit, root, held, 0o700);
    let ghost mid = shown(audit.faults@);
    if !main_file {
        note(audit, "presence", main, String::from_str("task memory exists without MAIN.md"));
        proof {
            reveal_strlit("presence");
            let x = ("presence"@, main@, "task memory exists without MAIN.md"@);
            assert(before + root_findings(root@, held, main@, main_file) =~= mid.push(x));
        }
    } else {
        proof {
            assert(before + root_findings(root@, held, main@, main_file) =~= mid);
        }
    }
}

/// The faults of one entry of a Task's memory.  In the memory, a link is
/// a fault, a directory must hold 0700 and a file 0600; among the private
/// resources, a link is a fault, a directory must hold 0700 and a file
/// must give nothing to group or others.
pub open spec fn entry_findings(path: Seq<char>, zone: Zone, stand: Stand, held: Option<u32>) -> Seq<Finding> {
    match (zone, stand) {
        (Zone::Memory, Stand::Link) => seq![("memory"@, path, "symbolic links are not managed memory"@)],
        (Zone::Resources, Stand::Link) => seq![("resource"@, path, "symbolic links are not private resources"@)],
        (_, Stand::Directory) => mode_finding(path, held, 0o700),
        (Zone::Memory, Stand::File) => mode_finding(path, held, 0o600),
        (Zone::Resources, Stand::File) => match held {
            Some(h) if h & 0o077 != 0 => seq![("permission"@, path, "mode "@ + crate::text::mode_text(h as nat) + " exposes a private resource"@)],
            _ => Seq::empty(),
        },
    }
}

/// Where the entries of a directory of a Task's memory lie: the resources
/// directory at the memory's top opens the private resources; any other
/// directory keeps the zone it is in.
pub open spec fn inner_zone(zone: Zone, top: bool, name: Seq<char>, stand: Stand) -> Option<Zone> {
    if stand != Stand::Directory {
        None
    } else if zone == Zone::Memory && top && name == "resources"@ {
        Some(Zone::Resources)
    } else {
        Some(zone)
    }
}

/// Checks one entry of a Task's memory (`top` when it lies directly in
/// the memory directory) and gives the zone of its own entries when it is
/// a directory to walk.
pub fn memory_entry(audit: &mut Audit, path: &str, name: &str, top: bool, zone: Zone, stand: Stand, held: Option<u32>) -> (r: Option<Zone>)
    ensures
        final(audit).target == old(audit).target,
        final(audit).observations == old(audit).observations,
        shown(final(audit).faults@) == shown(old(audit).faults@) + entry_findings(path@, zone, stand, held),
        r == inner_zone(zone, top, name@, stand),
{
    let ghost before = shown(audit.faults@);
    match stand {
        Stand::Link => {
            match zone {
                Zone::Memory => {
                    note(audit, "memory", path, String::from_str("symbolic links are not managed memory"));
                    proof {
                        reveal_strlit("memory");
                    }
                },
                Zone::Resources => {
                    note(audit, "resource", path, String::from_str("symbolic links are not private resources"));
                    proof {
                        reveal_strlit("resource");
                    }
                },
            }
            proof {
                assert(before + entry_findings(path@, zone, stand, held) =~= shown(audit.faults@));
            }
            None
        },
        Stand::Directory => {
            hold(audit, path, held, 0o700);
            if zone == Zone::Memory && top && same(name, "resources") {
                Some(Zone::Resources)
            } else {
                Some(zone)
            }
        },
        Stand::File => {
            match zone {
                Zone::Memory => {
                    hold(audit, path, held, 0o600);
                },
                Zone::Resources => {
                    match held {
                        Some(h) => {
                            if h & 0o077 != 0 {
                                let a = join("mode ", render_mode(h).as_str());
                                note(audit, "permission", path, join(a.as_str(), " exposes a private resource"));
                                proof {
                                    reveal_strlit("permission");
                                    let x = ("permission"@, path@, "mode "@ + crate::text::mode_text(h as nat) + " exposes a private resource"@);
                                    assert(before + entry_findings(path@, zone, stand, held) =~= before.push(x));
                                }
                            } else {
                                proof {
                                    assert(before + entry_findings(path@, zone, stand, held) =~= before);
                                }
                            }
                        },
                        None => {
                            proof {
                                assert(before + entry_findings(path@, zone, stand, held) =~= before);
                            }
                        },
                    }
                },
            }
            None
        },
    }
}

} // verus!
