//! Package identifiers: an author/name pair, with a reserved synthetic
//! identifier for the project being resolved.

use vstd::prelude::*;

verus! {

/// The spec-level identity of a package: its author and name strings.
pub type PkgKey = (Seq<char>, Seq<char>);

/// A package identifier. Registry packages are `author/name`; the project
/// under resolution is the synthetic `root` package with an empty name,
/// which no registry package can collide with.
#[derive(Debug, PartialEq, Eq, Hash, Clone)]
pub struct Pkg {
    pub author: String,
    pub name: String,
}

impl View for Pkg {
    type V = PkgKey;

    open spec fn view(&self) -> PkgKey {
        (self.author@, self.name@)
    }
}

impl Pkg {
    pub fn new(author: &str, name: &str) -> (r: Pkg)
        ensures
            r@ == (author@, name@),
    {
        Pkg { author: String::from_str(author), name: String::from_str(name) }
    }

    /// The synthetic root package identifier.
    pub fn root() -> (r: Pkg)
        ensures
            r@ == ("root"@, ""@),
    {
        Pkg::new("root", "")
    }

    pub fn eq_pkg(&self, other: &Pkg) -> (r: bool)
        ensures
            r == (self@ == other@),
    {
        let r = self.author == other.author && self.name == other.name;
        proof {
            if self.author@ == other.author@ && self.name@ == other.name@ {
                assert(self@ == other@);
            }
        }
        r
    }

    /// A copy whose identity is known to equal the original's.
    pub fn duplicate(&self) -> (r: Pkg)
        ensures
            r@ == self@,
    {
        Pkg { author: self.author.clone(), name: self.name.clone() }
    }
}

} // verus!
