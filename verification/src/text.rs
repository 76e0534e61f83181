use vstd::prelude::*;
use vstd::string::*;
use crate::config::ConfigView;
use crate::dep::{DepKind, DepView};
use crate::model::GraphView;

verus! {

/// The numeral of a single digit.
pub open spec fn digit(d: int) -> Seq<char> {
    if d == 0 {
        "0"@
    } else if d == 1 {
        "1"@
    } else if d == 2 {
        "2"@
    } else if d == 3 {
        "3"@
    } else if d == 4 {
        "4"@
    } else if d == 5 {
        "5"@
    } else if d == 6 {
        "6"@
    } else if d == 7 {
        "7"@
    } else if d == 8 {
        "8"@
    } else {
        "9"@
    }
}

/// The decimal numeral of `n`, without leading zeros.
pub open spec fn decimal(n: nat) -> Seq<char>
    decreases n,
{
    if n < 10 {
        digit(n as int)
    } else {
        decimal(n / 10) + digit((n % 10) as int)
    }
}

/// How an edge is written: `N<parent> -> N<child>`.
pub open spec fn edge_text(e: (int, int)) -> Seq<char> {
    "N"@ + decimal(e.0 as nat) + " -> N"@ + decimal(e.1 as nat)
}

/// The configured fragment for an edge from a `parent` to a `child` of the
/// given kinds. Between two build dependencies it is the build fragment.
/// To an optional child, from a build, a dev or an optional parent, it is
/// the optional fragment. To a dev child it is the dev fragment from a
/// build or a dev parent, and the optional fragment from an optional
/// parent. To a build child it is the dev fragment from a dev parent and
/// the optional fragment from an optional parent. Every pairing that
/// involves a normal dependency has the empty fragment.
pub open spec fn edge_fragment(cfg: ConfigView, parent: DepKind, child: DepKind) -> Seq<char> {
    match (parent, child) {
        (DepKind::Build, DepKind::Build) => cfg.build_lines,
        (DepKind::Build, DepKind::Dev) => cfg.dev_lines,
        (DepKind::Build, DepKind::Optional) => cfg.optional_lines,
        (DepKind::Optional, DepKind::Build) => cfg.optional_lines,
        (DepKind::Optional, DepKind::Dev) => cfg.optional_lines,
        (DepKind::Optional, DepKind::Optional) => cfg.optional_lines,
        (DepKind::Dev, DepKind::Build) => cfg.dev_lines,
        (DepKind::Dev, DepKind::Dev) => cfg.dev_lines,
        (DepKind::Dev, DepKind::Optional) => cfg.optional_lines,
        _ => Seq::empty(),
    }
}

/// The label of an edge, up to the end of its line: an empty caption
/// followed by the configured fragment.
pub open spec fn edge_label(cfg: ConfigView, parent: DepKind, child: DepKind) -> Seq<char> {
    "[label=\"\""@ + edge_fragment(cfg, parent, child) + "];\n"@
}

/// The label of a node, up to the end of its line: the package name as
/// the caption.
pub open spec fn node_label(dep: DepView) -> Seq<char> {
    "[label=\""@ + dep.name + "\"];\n"@
}

impl GraphView {
    /// The line that declares the node at slot `i`.
    pub open spec fn node_line(self, i: int) -> Seq<char> {
        "\tN"@ + decimal(i as nat) + node_label(self.nodes[i])
    }

    /// The line that declares the `i`-th edge.
    pub open spec fn edge_line(self, i: int) -> Seq<char> {
        let e = self.edges[i];
        "\t"@ + edge_text(e) + edge_label(self.cfg, self.nodes[e.0].kind, self.nodes[e.1].kind)
    }

    /// The lines of the first `upto` nodes, in slot order.
    pub open spec fn node_lines(self, upto: int) -> Seq<char>
        decreases upto,
    {
        if upto <= 0 {
            Seq::empty()
        } else {
            self.node_lines(upto - 1) + self.node_line(upto - 1)
        }
    }

    /// The lines of the first `upto` edges, in the order they are stored.
    pub open spec fn edge_lines(self, upto: int) -> Seq<char>
        decreases upto,
    {
        if upto <= 0 {
            Seq::empty()
        } else {
            self.edge_lines(upto - 1) + self.edge_line(upto - 1)
        }
    }

    /// The graph as a `digraph`: the header, a line for each node, a line
    /// for each edge, and the closing brace.
    pub open spec fn text(self) -> Seq<char> {
        "digraph dependencies {\n"@ + self.node_lines(self.nodes.len() as int) + self.edge_lines(
            self.edges.len() as int,
        ) + "}\n"@
    }
}

/// The numeral of the digit `d`.
fn digit_str(d: usize) -> (s: &'static str)
    requires
        d < 10,
    ensures
        s@ == digit(d as int),
{
    if d == 0 {
        "0"
    } else if d == 1 {
        "1"
    } else if d == 2 {
        "2"
    } else if d == 3 {
        "3"
    } else if d == 4 {
        "4"
    } else if d == 5 {
        "5"
    } else if d == 6 {
        "6"
    } else if d == 7 {
        "7"
    } else if d == 8 {
        "8"
    } else {
        "9"
    }
}

/// Appends the decimal numeral of `n` to `out`.
pub fn push_decimal(out: &mut String, n: usize)
    ensures
        final(out)@ == old(out)@ + decimal(n as nat),
    decreases n,
{
    if n >= 10 {
        push_decimal(out, n / 10);
    }
    out.append(digit_str(n % 10));
    assert(out@ =~= old(out)@ + decimal(n as nat));
}

} // verus!
