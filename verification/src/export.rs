use vstd::prelude::*;
use vstd::string::StringExecFns;

use crate::graph::DepGraph;

verus! {

/// The decimal digit character for `d` (0 through 9).
pub open spec fn digit_char(d: int) -> char {
    if d == 0 {
        '0'
    } else if d == 1 {
        '1'
    } else if d == 2 {
        '2'
    } else if d == 3 {
        '3'
    } else if d == 4 {
        '4'
    } else if d == 5 {
        '5'
    } else if d == 6 {
        '6'
    } else if d == 7 {
        '7'
    } else if d == 8 {
        '8'
    } else {
        '9'
    }
}

/// The decimal rendering of a non-negative number, most significant digit
/// first.
pub open spec fn dec_str(n: int) -> Seq<char>
    decreases n,
{
    if n < 10 {
        seq![digit_char(n)]
    } else {
        dec_str(n / 10).push(digit_char(n % 10))
    }
}

/// One node line of the graph description: the node's index, and its
/// identifier as the label.
pub open spec fn node_line(i: int, name: Seq<char>) -> Seq<char> {
    "    "@ + dec_str(i) + " [ label = \""@ + name + "\" ]\n"@
}

/// The node lines for indices below `i`, in index order.
pub open spec fn node_lines(names: Seq<Seq<char>>, i: int) -> Seq<char>
    decreases i,
{
    if i <= 0 {
        Seq::empty()
    } else {
        node_lines(names, i - 1) + node_line(i - 1, names[i - 1])
    }
}

/// One edge line of the graph description: `a -> b`, with the muted gray
/// style attribute exactly when the dependency is not mandatory.
pub open spec fn edge_line(a: int, b: int, mandatory: bool) -> Seq<char> {
    "    "@ + dec_str(a) + " -> "@ + dec_str(b) + (if mandatory {
        " [ ]\n"@
    } else {
        " [ color = gray36]\n"@
    })
}

/// The line for the pair `(a, b)`: its edge line when the edge is present,
/// nothing otherwise.
pub open spec fn edge_cell(edges: Map<(usize, usize), bool>, a: int, b: int) -> Seq<char> {
    if edges.dom().contains((a as usize, b as usize)) {
        edge_line(a, b, edges[(a as usize, b as usize)])
    } else {
        Seq::empty()
    }
}

/// The edge lines from source `a` to targets below `b`, in target order.
pub open spec fn edge_row(edges: Map<(usize, usize), bool>, a: int, b: int) -> Seq<char>
    decreases b,
{
    if b <= 0 {
        Seq::empty()
    } else {
        edge_row(edges, a, b - 1) + edge_cell(edges, a, b - 1)
    }
}

/// The edge lines from sources below `a`, each source's full row of `n`
/// targets, in source order.
pub open spec fn edge_rows(edges: Map<(usize, usize), bool>, a: int, n: int) -> Seq<char>
    decreases a,
{
    if a <= 0 {
        Seq::empty()
    } else {
        edge_rows(edges, a - 1, n) + edge_row(edges, a - 1, n)
    }
}

/// The full graph description: a directed-graph header, one labelled line
/// per node in index order, one line per edge in source-major index order,
/// and the closing brace.
pub open spec fn dot_spec(names: Seq<Seq<char>>, edges: Map<(usize, usize), bool>) -> Seq<char> {
    "digraph {\n"@ + node_lines(names, names.len() as int) + edge_rows(
        edges,
        names.len() as int,
        names.len() as int,
    ) + "}\n"@
}

/// A one-character string for the digit `d`.
fn digit_str(d: usize) -> (r: &'static str)
    requires
        d < 10,
    ensures
        r@ == seq![digit_char(d as int)],
{
    let r: &'static str = if d == 0 {
        "0"
    } else if d == 1 {
        "1"
    } else if d == 2 {
        "2"
    } else if d == 3 {
        "3"
    } else if d == 4 {
        "4"
    } else if d == 5 {
        "5"
    } else if d == 6 {
        "6"
    } else if d == 7 {
        "7"
    } else if d == 8 {
        "8"
    } else {
        "9"
    };
    proof {
        reveal_strlit("0");
        reveal_strlit("1");
        reveal_strlit("2");
        reveal_strlit("3");
        reveal_strlit("4");
        reveal_strlit("5");
        reveal_strlit("6");
        reveal_strlit("7");
        reveal_strlit("8");
        reveal_strlit("9");
        assert(r@ =~= seq![digit_char(d as int)]);
    }
    r
}

/// Appends the decimal rendering of `n`.
fn push_decimal(s: &mut String, n: usize)
    ensures
        final(s)@ == old(s)@ + dec_str(n as int),
    decreases n,
{
    if n < 10 {
        s.append(digit_str(n));
        proof {
            assert(final(s)@ =~= old(s)@ + dec_str(n as int));
        }
    } else {
        push_decimal(s, n / 10);
        s.append(digit_str(n % 10));
        proof {
            assert(final(s)@ =~= old(s)@ + dec_str(n as int));
        }
    }
}

impl DepGraph {
    /// Serializes the graph as a plain-text directed-graph description:
    /// each node labelled with its identifier, each edge unlabelled, and
    /// every non-mandatory edge carrying the muted gray style attribute.
    pub fn to_dot(&self) -> (out: String)
        requires
            self.wf(),
        ensures
            out@ == dot_spec(self.names_spec(), self.edges_spec()),
    {
        let n = self.node_count();
        let mut out = String::new();
        out.append("digraph {\n");
        let mut i: usize = 0;
        while i < n
            invariant
                i <= n,
                n == self.names_spec().len(),
                self.wf(),
                out@ == "digraph {\n"@ + node_lines(self.names_spec(), i as int),
            decreases n - i,
        {
            out.append("    ");
            push_decimal(&mut out, i);
            out.append(" [ label = \"");
            out.append(self.name_of(i).as_str());
            out.append("\" ]\n");
            proof {
                assert(out@ =~= "digraph {\n"@ + node_lines(self.names_spec(), i as int + 1));
            }
            i = i + 1;
        }
        let ghost base = "digraph {\n"@ + node_lines(self.names_spec(), n as int);
        let mut a: usize = 0;
        while a < n
            invariant
                a <= n,
                n == self.names_spec().len(),
                self.wf(),
                out@ == base + edge_rows(self.edges_spec(), a as int, n as int),
            decreases n - a,
        {
            let mut b: usize = 0;
            while b < n
                invariant
                    b <= n,
                    a < n,
                    n == self.names_spec().len(),
                    self.wf(),
                    out@ == base + edge_rows(self.edges_spec(), a as int, n as int) + edge_row(
                        self.edges_spec(),
                        a as int,
                        b as int,
                    ),
                decreases n - b,
            {
                match self.edge_flag(a, b) {
                    Some(mandatory) => {
                        out.append("    ");
                        push_decimal(&mut out, a);
                        out.append(" -> ");
                        push_decimal(&mut out, b);
                        if mandatory {
                            out.append(" [ ]\n");
                        } else {
                            out.append(" [ color = gray36]\n");
                        }
                    },
                    None => {},
                }
                proof {
                    assert(out@ =~= base + edge_rows(self.edges_spec(), a as int, n as int)
                        + edge_row(self.edges_spec(), a as int, b as int + 1));
                }
                b = b + 1;
            }
            proof {
                assert(out@ =~= base + edge_rows(self.edges_spec(), a as int + 1, n as int));
            }
            a = a + 1;
        }
        out.append("}\n");
        proof {
            assert(out@ =~= dot_spec(self.names_spec(), self.edges_spec()));
        }
        out
    }
}

} // verus!
