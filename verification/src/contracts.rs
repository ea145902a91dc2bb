//! Where the embedded Nickel contracts are written out for an
//! evaluation: one directory, holding `docket.ncl` and `register.ncl`
//! (with the files they import) side by side.

use vstd::prelude::*;
use crate::text::{chars_of, owned};

verus! {

/// A directory holding the materialized contracts.
pub struct MaterializedContracts {
    dir: String,
}

/// `dir` joined with `name` (`Path::join` for a relative `name`): a `/`
/// between them unless `dir` is empty or already ends in one.
pub open spec fn spec_join(dir: Seq<char>, name: Seq<char>) -> Seq<char> {
    if dir.len() == 0 {
        name
    } else if dir.last() == '/' {
        dir + name
    } else {
        dir + "/"@ + name
    }
}

fn join(dir: &str, name: &str) -> (r: String)
    ensures
        r@ == spec_join(dir@, name@),
{
    let v = chars_of(dir);
    if v.len() == 0 {
        return owned(name);
    }
    let mut s = owned(dir);
    if v[v.len() - 1] != '/' {
        s.append("/");
    }
    s.append(name);
    proof { reveal_strlit("/"); }
    s
}

impl MaterializedContracts {
    pub closed spec fn dir(&self) -> Seq<char> {
        self.dir@
    }

    /// The contracts as written out in `dir`.
    pub fn at(dir: String) -> (r: MaterializedContracts)
        ensures
            r.dir() == dir@,
    {
        MaterializedContracts { dir }
    }

    /// The directory itself.
    pub fn dir_path(&self) -> (r: String)
        ensures
            r@ == self.dir(),
    {
        owned(self.dir.as_str())
    }

    /// The config contract's path.
    pub fn docket_path(&self) -> (r: String)
        ensures
            r@ == spec_join(self.dir(), "docket.ncl"@),
    {
        join(self.dir.as_str(), "docket.ncl")
    }

    /// The register's path.
    pub fn register_path(&self) -> (r: String)
        ensures
            r@ == spec_join(self.dir(), "register.ncl"@),
    {
        join(self.dir.as_str(), "register.ncl")
    }
}

} // verus!
