use vstd::prelude::*;
use vstd::string::*;
use crate::text::node_label;

verus! {

/// How a package is consumed by the one that depends on it.
#[derive(Debug, Clone, Copy, PartialEq, Eq, Structural)]
pub enum DepKind {
    Build,
    Dev,
    Optional,
    Normal,
}

/// A resolved dependency as the model sees it.
pub struct DepView {
    pub name: Seq<char>,
    pub ver: Seq<char>,
    pub kind: DepKind,
}

impl DepView {
    /// Whether this is the package `name` at version `ver`. The kind plays
    /// no part in a lookup.
    pub open spec fn is(self, name: Seq<char>, ver: Seq<char>) -> bool {
        self.name == name && self.ver == ver
    }
}

/// A resolved dependency: a package name, its version, and its kind.
#[derive(Debug, Clone, PartialEq, Eq)]
pub struct ResolvedDep {
    pub name: String,
    pub ver: String,
    pub kind: DepKind,
}

impl View for ResolvedDep {
    type V = DepView;

    open spec fn view(&self) -> DepView {
        DepView { name: self.name@, ver: self.ver@, kind: self.kind }
    }
}

impl ResolvedDep {
    /// A normal dependency on `name` at version `ver`.
    pub fn new(name: String, ver: String) -> (dep: Self)
        ensures
            dep@ == (DepView { name: name@, ver: ver@, kind: DepKind::Normal }),
    {
        ResolvedDep { name, ver, kind: DepKind::Normal }
    }

    /// The kind of the dependency.
    pub fn kind(&self) -> (k: DepKind)
        ensures
            k == self@.kind,
    {
        self.kind
    }

    /// Appends the label of the node to `out`, up to the end of its line.
    /// The name is written as it is.
    pub fn label(&self, out: &mut String)
        ensures
            final(out)@ == old(out)@ + node_label(self@),
    {
        out.append("[label=\"");
        out.append(self.name.as_str());
        out.append("\"];\n");
        assert(out@ =~= old(out)@ + node_label(self@));
    }

    /// Whether this is the package `name` at version `ver`.
    pub fn is(&self, name: &String, ver: &String) -> (r: bool)
        ensures
            r == self@.is(name@, ver@),
    {
        self.name == *name && self.ver == *ver
    }
}

} // verus!
