use vstd::prelude::*;

verus! {

/// The label fragments of a rendering configuration, as character sequences.
pub struct ConfigView {
    pub build_lines: Seq<char>,
    pub dev_lines: Seq<char>,
    pub optional_lines: Seq<char>,
}

/// Rendering configuration: the text appended to the label of an edge,
/// depending on the kinds of the two packages it joins.
#[derive(Debug, Clone, Copy)]
pub struct Config<'o> {
    /// Fragment for an edge between two build dependencies.
    pub build_lines: &'o str,
    /// Fragment for an edge that counts as a development dependency.
    pub dev_lines: &'o str,
    /// Fragment for an edge that counts as an optional dependency.
    pub optional_lines: &'o str,
}

impl<'o> View for Config<'o> {
    type V = ConfigView;

    open spec fn view(&self) -> ConfigView {
        ConfigView {
            build_lines: self.build_lines@,
            dev_lines: self.dev_lines@,
            optional_lines: self.optional_lines@,
        }
    }
}

impl<'o> Config<'o> {
    /// A configuration with the three given fragments.
    pub fn new(build_lines: &'o str, dev_lines: &'o str, optional_lines: &'o str) -> (cfg: Self)
        ensures
            cfg@ == (ConfigView {
                build_lines: build_lines@,
                dev_lines: dev_lines@,
                optional_lines: optional_lines@,
            }),
    {
        Config { build_lines, dev_lines, optional_lines }
    }
}

} // verus!
