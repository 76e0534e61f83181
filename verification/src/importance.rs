use vstd::prelude::*;
use vstd::string::*;

verus! {

/// The importance filter: which packages are worth showing. A package is
/// kept where its name is on the allowlist and does not start with the
/// excluded prefix.
#[derive(Debug, Clone, PartialEq, Eq)]
pub struct Importance {
    /// The names of the packages that matter.
    pub allow: Vec<String>,
    /// Names that start with this prefix never matter, allowlisted or not.
    pub exclude_prefix: Option<String>,
}

impl Importance {
    /// `name` is on the allowlist.
    pub open spec fn allows(&self, name: Seq<char>) -> bool {
        exists|i: int| 0 <= i < self.allow.len() && (#[trigger] self.allow[i])@ == name
    }

    /// `name` starts with the excluded prefix.
    pub open spec fn excludes(&self, name: Seq<char>) -> bool {
        match self.exclude_prefix {
            Some(p) => p@.is_prefix_of(name),
            None => false,
        }
    }

    /// The filter as a predicate on package names.
    pub open spec fn keeps(&self) -> spec_fn(Seq<char>) -> bool {
        |name: Seq<char>| self.allows(name) && !self.excludes(name)
    }

    /// A filter with the given allowlist and, optionally, an excluded prefix.
    pub fn new(allow: Vec<String>, exclude_prefix: Option<String>) -> (f: Self)
        ensures
            f.allow == allow,
            f.exclude_prefix == exclude_prefix,
    {
        Importance { allow, exclude_prefix }
    }

    /// Whether the filter keeps the package called `name`.
    pub fn is_important(&self, name: &str) -> (r: bool)
        ensures
            r == self.keeps()(name@),
    {
        if let Some(p) = &self.exclude_prefix {
            if starts_with(name, p.as_str()) {
                return false;
            }
        }
        let owned = name.to_owned();
        let mut i: usize = 0;
        while i < self.allow.len()
            invariant
                i <= self.allow.len(),
                owned@ == name@,
                !self.excludes(name@),
                forall|k: int| 0 <= k < i ==> (#[trigger] self.allow[k])@ != name@,
            decreases self.allow.len() - i,
        {
            if self.allow[i] == owned {
                return true;
            }
            i += 1;
        }
        false
    }
}

/// Whether `name` starts with `prefix`.
pub fn starts_with(name: &str, prefix: &str) -> (r: bool)
    ensures
        r == prefix@.is_prefix_of(name@),
{
    let plen: usize = prefix.unicode_len();
    if plen > name.unicode_len() {
        return false;
    }
    let head = name.substring_char(0, plen);
    head.to_owned() == prefix.to_owned()
}

} // verus!
