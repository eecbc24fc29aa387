//! Where the estate lives: the Space's seat and the files in it, the
//! configured Space root, and the refusals around opening an estate.
use crate::error::Error;
use crate::prepare::{Fault, raises};
use crate::text::{decimal, join, render_usize};
use vstd::prelude::*;

verus! {

/// A relative path joined onto a base, as `Path::join` does on Unix: the
/// part alone onto an empty base, appended directly after a trailing `/`,
/// else after one `/`.
pub open spec fn joined(base: Seq<char>, part: Seq<char>) -> Seq<char> {
    if base.len() == 0 {
        part
    } else if base.last() == '/' {
        base + part
    } else {
        base + "/"@ + part
    }
}

/// Joins a relative path onto a base.
pub fn join_path(base: &str, part: &str) -> (r: String)
    ensures
        r@ == joined(base@, part@),
{
    let n = base.unicode_len();
    if n == 0 {
        return String::from_str(part);
    }
    if base.get_char(n - 1) == '/' {
        return join(base, part);
    }
    let a = join(base, "/");
    join(a.as_str(), part)
}

/// The seat of a Space: the Space and its `.concord` directory.
#[derive(Clone, Debug)]
pub struct Seat {
    pub space: String,
    pub root: String,
}

impl Seat {
    /// The seat of a Space.
    pub fn new(space: &str) -> (r: Seat)
        ensures
            r.space@ == space@,
            r.root@ == joined(space@, ".concord"@),
    {
        Seat { root: join_path(space, ".concord"), space: String::from_str(space) }
    }

    /// The estate's database.
    pub fn database(&self) -> (r: String)
        ensures
            r@ == joined(self.root@, "estate.sqlite3"@),
    {
        join_path(self.root.as_str(), "estate.sqlite3")
    }

    /// The file that holds the estate's sudo possession.
    pub fn sudo(&self) -> (r: String)
        ensures
            r@ == joined(self.root@, "sudo"@),
    {
        join_path(self.root.as_str(), "sudo")
    }

    /// Refuses to open an estate whose database or possession is missing.
    pub fn present(&self, database: bool, sudo: bool) -> (r: Result<(), Error>)
        ensures
            database && sudo ==> r is Ok,
            !(database && sudo) ==> (r matches Err(e) && raises(e, ("concord.estate.absent"@, "Concord estate is absent at "@ + self.root@ + "; bootstrap a new Space or follow the v0.11.0 release migration contract for a legacy Space"@))),
    {
        if !database || !sudo {
            let a = join("Concord estate is absent at ", self.root.as_str());
            return Err(Error::typed("concord.estate.absent", join(a.as_str(), "; bootstrap a new Space or follow the v0.11.0 release migration contract for a legacy Space")));
        }
        Ok(())
    }
}

/// Refuses an estate that holds other than exactly one Space.
pub fn one_space(count: usize) -> (r: Result<(), Error>)
    ensures
        count == 1 ==> r is Ok,
        count != 1 ==> (r matches Err(e) && raises(e, ("concord.estate.space"@, "Concord estate needs exactly one Space, found "@ + decimal(count as int)))),
{
    if count != 1 {
        return Err(Error::typed("concord.estate.space", join("Concord estate needs exactly one Space, found ", render_usize(count).as_str())));
    }
    Ok(())
}

/// Refuses to bootstrap over an occupied store that kept no possession.
pub fn possession(retained: bool, occupied: bool) -> (r: Result<bool, Error>)
    ensures
        retained ==> r == Ok::<bool, Error>(true),
        !retained && occupied ==> (r matches Err(e) && raises(e, ("concord.estate.sudo_absent"@, "occupied Concord estate has no retained sudo possession"@))),
        !retained && !occupied ==> r == Ok::<bool, Error>(false),
{
    if retained {
        return Ok(true);
    }
    if occupied {
        return Err(Error::said("concord.estate.sudo_absent", "occupied Concord estate has no retained sudo possession"));
    }
    Ok(false)
}

/// A store failure as the estate reports it.
pub fn fault(text: String) -> (e: Error)
    ensures
        e.coded("concord.estate.error"@),
        e.message@ == text@,
{
    Error::typed("concord.estate.error", text)
}

/// A store that needs an upgrade, as the estate reports it.
pub fn upgrade(text: &str) -> (e: Error)
    ensures
        raises(e, ("concord.estate.upgrade_required"@, text@ + "; follow the exact migration contract for the target Concord release"@)),
{
    Error::typed("concord.estate.upgrade_required", join(text, "; follow the exact migration contract for the target Concord release"))
}

/// The configured root of the Space, resolved.
#[derive(Clone, Debug)]
pub struct Root {
    pub path: String,
}

/// An absolute path on Unix.
pub open spec fn absolute(path: Seq<char>) -> bool {
    path.len() > 0 && path[0] == '/'
}

impl Root {
    /// Accepts a configured root: absolute, resolvable (`resolved` is what
    /// resolving it gave) and a directory (`directory` says whether the
    /// resolved path is one).
    pub fn new(path: &str, resolved: Result<String, String>, directory: bool) -> (r: Result<Root, Error>)
        ensures
            !absolute(path@) ==> (r matches Err(e) && e.code is None && e.message@ == "domain_space_root must be absolute"@),
            absolute(path@) ==> match resolved {
                Err(m) => r matches Err(e) && e.code is None && e.message@ == "cannot resolve domain_space_root "@ + path@ + ": "@ + m@,
                Ok(p) => if directory {
                    r matches Ok(root) && root.path == p
                } else {
                    r matches Err(e) && e.code is None && e.message@ == "domain_space_root is not a directory: "@ + p@
                },
            },
    {
        let n = path.unicode_len();
        if n == 0 || path.get_char(0) != '/' {
            return Err(Error::new(String::from_str("domain_space_root must be absolute")));
        }
        match resolved {
            Err(m) => {
                let a = join("cannot resolve domain_space_root ", path);
                let b = join(a.as_str(), ": ");
                Err(Error::new(join(b.as_str(), m.as_str())))
            },
            Ok(p) => {
                if !directory {
                    return Err(Error::new(join("domain_space_root is not a directory: ", p.as_str())));
                }
                Ok(Root { path: p })
            },
        }
    }

    /// The resolved root.
    pub fn path(&self) -> (r: &str)
        ensures
            r@ == self.path@,
    {
        self.path.as_str()
    }
}

/// Where the configuration lives on Unix: the file chosen explicitly, else
/// `.concord/concord.toml` under the home directory.
pub fn config_path(explicit: Option<&str>, home: Option<&str>) -> (r: Result<String, Error>)
    ensures
        explicit matches Some(c) ==> (r matches Ok(p) && p@ == c@),
        explicit is None && home is Some ==> (r matches Ok(p) && p@ == joined(home->0@, ".concord/concord.toml"@)),
        explicit is None && home is None ==> (r matches Err(e) && e.code is None && e.message@ == "HOME is required to locate Concord config"@),
{
    if let Some(c) = explicit {
        return Ok(String::from_str(c));
    }
    match home {
        Some(h) => Ok(join_path(h, ".concord/concord.toml")),
        None => Err(Error::new(String::from_str("HOME is required to locate Concord config"))),
    }
}

/// The home directory that repository sources expand against.
pub fn home(variable: Option<&str>) -> (r: Result<String, Error>)
    ensures
        variable matches Some(h) ==> (r matches Ok(p) && p@ == h@),
        variable is None ==> (r matches Err(e) && e.code is None && e.message@ == "HOME is required to expand repository source"@),
{
    match variable {
        Some(h) => Ok(String::from_str(h)),
        None => Err(Error::new(String::from_str("HOME is required to expand repository source"))),
    }
}

} // verus!
