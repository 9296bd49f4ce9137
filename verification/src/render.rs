//! Deterministic text renderings: decimal id strings and the DOT digraph.
//!
//! Every id is rendered as its decimal digits. The DOT rendering walks the
//! graph's ids in first-seen order and emits one edge line per recorded
//! parent→child pair, exactly the shape `digraph G { n<id> -> n<child>; }`.

use vstd::prelude::*;
use vstd::string::StringExecFns;

use crate::graph::{Graph, Node, NodeView};

verus! {

/// The character of one decimal digit.
pub open spec fn digit_char(d: nat) -> char {
    if d == 0 {
        '0'
    } else if d == 1 {
        '1'
    } else if d == 2 {
        '2'
    } else if d == 3 {
        '3'
    } else if d == 4 {
        '4'
    } else if d == 5 {
        '5'
    } else if d == 6 {
        '6'
    } else if d == 7 {
        '7'
    } else if d == 8 {
        '8'
    } else {
        '9'
    }
}

/// The decimal digits of `n`, most significant first, no leading zeros
/// (a single `'0'` for zero).
pub open spec fn dec_digits(n: nat) -> Seq<char>
    decreases n,
{
    if n < 10 {
        seq![digit_char(n)]
    } else {
        dec_digits(n / 10).push(digit_char(n % 10))
    }
}

fn digit_str(d: u64) -> (r: &'static str)
    requires
        d < 10,
    ensures
        r@ == seq![digit_char(d as nat)],
{
    proof {
        reveal_strlit("0");
        reveal_strlit("1");
        reveal_strlit("2");
        reveal_strlit("3");
        reveal_strlit("4");
        reveal_strlit("5");
        reveal_strlit("6");
        reveal_strlit("7");
        reveal_strlit("8");
        reveal_strlit("9");
    }
    let r = if d == 0 {
        "0"
    } else if d == 1 {
        "1"
    } else if d == 2 {
        "2"
    } else if d == 3 {
        "3"
    } else if d == 4 {
        "4"
    } else if d == 5 {
        "5"
    } else if d == 6 {
        "6"
    } else if d == 7 {
        "7"
    } else if d == 8 {
        "8"
    } else {
        "9"
    };
    proof {
        assert(r@ =~= seq![digit_char(d as nat)]);
    }
    r
}

/// Appends the decimal representation of `n`.
fn push_dec(s: &mut String, n: u64)
    ensures
        final(s)@ == old(s)@ + dec_digits(n as nat),
    decreases n,
{
    if n >= 10 {
        push_dec(s, n / 10);
        let d = digit_str(n % 10);
        s.append(d);
        proof {
            assert((old(s)@ + dec_digits((n / 10) as nat)) + seq![digit_char((n % 10) as nat)]
                =~= old(s)@ + dec_digits(n as nat));
        }
    } else {
        let d = digit_str(n);
        s.append(d);
    }
}

/// The decimal string of one id.
pub fn id_to_string(n: u64) -> (r: String)
    ensures
        r@ == dec_digits(n as nat),
{
    let mut s = String::new();
    push_dec(&mut s, n);
    proof {
        assert(Seq::<char>::empty() + dec_digits(n as nat) =~= dec_digits(n as nat));
    }
    s
}

/// The decimal strings of a list of ids, in order.
pub fn ids_to_strings(v: &Vec<u64>) -> (r: Vec<String>)
    ensures
        r@.len() == v@.len(),
        forall|i: int| 0 <= i < r@.len() ==> (#[trigger] r@[i])@ == dec_digits(v@[i] as nat),
{
    let mut r: Vec<String> = Vec::new();
    let mut i: usize = 0;
    while i < v.len()
        invariant
            i <= v@.len(),
            r@.len() == i,
            forall|j: int| 0 <= j < i ==> (#[trigger] r@[j])@ == dec_digits(v@[j] as nat),
        decreases v@.len() - i,
    {
        r.push(id_to_string(v[i]));
        i = i + 1;
    }
    r
}

impl Node {
    /// The decimal strings of this node's parent ids, in order.
    pub fn parent_strings(&self) -> (r: Vec<String>)
        ensures
            r@.len() == self.parents@.len(),
            forall|i: int|
                0 <= i < r@.len() ==> (#[trigger] r@[i])@ == dec_digits(self.parents@[i] as nat),
    {
        ids_to_strings(&self.parents)
    }

    /// The decimal strings of this node's child ids, in order.
    pub fn children_strings(&self) -> (r: Vec<String>)
        ensures
            r@.len() == self.children@.len(),
            forall|i: int|
                0 <= i < r@.len() ==> (#[trigger] r@[i])@ == dec_digits(self.children@[i] as nat),
    {
        ids_to_strings(&self.children)
    }
}

/// One DOT edge line, `  n<p> -> n<c>;` with a trailing newline.
pub open spec fn dot_edge_line(p: u64, c: u64) -> Seq<char> {
    "  n"@ + dec_digits(p as nat) + " -> n"@ + dec_digits(c as nat) + ";\n"@
}

/// The DOT edge lines of one node: one line per recorded child, in order.
pub open spec fn dot_node_lines(p: u64, children: Seq<u64>) -> Seq<char>
    decreases children.len(),
{
    if children.len() == 0 {
        Seq::<char>::empty()
    } else {
        dot_node_lines(p, children.drop_last()) + dot_edge_line(p, children.last())
    }
}

/// The DOT edge lines of the graph, nodes in first-seen order.
pub open spec fn dot_body(ids: Seq<u64>, gm: Map<u64, NodeView>) -> Seq<char>
    decreases ids.len(),
{
    if ids.len() == 0 {
        Seq::<char>::empty()
    } else {
        dot_body(ids.drop_last(), gm) + dot_node_lines(
            ids.last(),
            if gm.contains_key(ids.last()) {
                gm[ids.last()].children
            } else {
                Seq::<u64>::empty()
            },
        )
    }
}

/// The whole DOT document for a graph.
pub open spec fn dot_text(g: Graph) -> Seq<char> {
    "digraph G {\n"@ + dot_body(g.ids@, g.gm()) + "}\n"@
}

proof fn lemma_dot_body_take_step(ids: Seq<u64>, gm: Map<u64, NodeView>, i: int)
    requires
        0 <= i < ids.len(),
        gm.contains_key(ids[i]),
    ensures
        dot_body(ids.take(i + 1), gm) == dot_body(ids.take(i), gm) + dot_node_lines(
            ids[i],
            gm[ids[i]].children,
        ),
{
    assert(ids.take(i + 1).drop_last() =~= ids.take(i));
    assert(ids.take(i + 1).last() == ids[i]);
}

proof fn lemma_dot_node_lines_take_step(p: u64, children: Seq<u64>, k: int)
    requires
        0 <= k < children.len(),
    ensures
        dot_node_lines(p, children.take(k + 1)) == dot_node_lines(p, children.take(k))
            + dot_edge_line(p, children[k]),
{
    assert(children.take(k + 1).drop_last() =~= children.take(k));
    assert(children.take(k + 1).last() == children[k]);
}

impl Graph {
    /// Renders the graph as a DOT digraph: `digraph G {` then, for every
    /// node in first-seen order, one `  n<id> -> n<child>;` line per
    /// recorded child edge, then `}`.
    pub fn to_dot(&self) -> (r: String)
        requires
            self.wf(),
        ensures
            r@ == dot_text(*self),
    {
        let mut s = String::new();
        s.append("digraph G {\n");
        proof {
            assert(Seq::<char>::empty() + "digraph G {\n"@ =~= "digraph G {\n"@);
            assert(self.ids@.take(0) =~= Seq::<u64>::empty());
        }
        let mut i: usize = 0;
        while i < self.ids.len()
            invariant
                self.wf(),
                i <= self.ids@.len(),
                s@ == "digraph G {\n"@ + dot_body(self.ids@.take(i as int), self.gm()),
            decreases self.ids@.len() - i,
        {
            let id = self.ids[i];
            proof {
                assert(self.gm().contains_key(self.ids@[i as int]));
            }
            let node = match self.children(id) {
                Some(v) => v,
                None => {
                    // well-formedness: every listed id has a node
                    vstd::pervasive::unreached::<&Vec<u64>>()
                },
            };
            let ghost s1 = s@;
            let ghost cs = node@;
            let mut k: usize = 0;
            while k < node.len()
                invariant
                    cs == node@,
                    k <= cs.len(),
                    id == self.ids@[i as int],
                    s@ == s1 + dot_node_lines(id, cs.take(k as int)),
                decreases node@.len() - k,
            {
                let c = node[k];
                s.append("  n");
                push_dec(&mut s, id);
                s.append(" -> n");
                push_dec(&mut s, c);
                s.append(";\n");
                proof {
                    lemma_dot_node_lines_take_step(id, cs, k as int);
                    assert(s@ =~= s1 + dot_node_lines(id, cs.take(k + 1 as int)));
                }
                k = k + 1;
            }
            proof {
                assert(cs.take(cs.len() as int) =~= cs);
                lemma_dot_body_take_step(self.ids@, self.gm(), i as int);
                assert(s@ =~= "digraph G {\n"@ + dot_body(self.ids@.take(i + 1 as int), self.gm()));
            }
            i = i + 1;
        }
        s.append("}\n");
        proof {
            assert(self.ids@.take(self.ids@.len() as int) =~= self.ids@);
        }
        s
    }
}

/// One id as a quoted JSON string.
pub open spec fn quoted_id(x: u64) -> Seq<char> {
    "\""@ + dec_digits(x as nat) + "\""@
}

/// A comma-separated list of quoted ids (no brackets).
pub open spec fn json_id_list(ids: Seq<u64>) -> Seq<char>
    decreases ids.len(),
{
    if ids.len() == 0 {
        Seq::<char>::empty()
    } else if ids.len() == 1 {
        quoted_id(ids[0])
    } else {
        json_id_list(ids.drop_last()) + ", "@ + quoted_id(ids.last())
    }
}

/// One entry of the JSON adjacency map: the id mapped to its parent and
/// child lists.
pub open spec fn json_node(id: u64, n: NodeView) -> Seq<char> {
    "  "@ + quoted_id(id) + ": {\n    \"parents\": ["@ + json_id_list(n.parents)
        + "],\n    \"children\": ["@ + json_id_list(n.children) + "]\n  }"@
}

/// The comma-separated entries of the JSON adjacency map, nodes in
/// first-seen order.
pub open spec fn json_entries(ids: Seq<u64>, gm: Map<u64, NodeView>) -> Seq<char>
    decreases ids.len(),
{
    if ids.len() == 0 {
        Seq::<char>::empty()
    } else {
        let rest = if gm.contains_key(ids.last()) {
            json_node(ids.last(), gm[ids.last()])
        } else {
            Seq::<char>::empty()
        };
        if ids.len() == 1 {
            rest
        } else {
            json_entries(ids.drop_last(), gm) + ",\n"@ + rest
        }
    }
}

/// The whole JSON document for a graph: one entry per known id, each with
/// its `parents` and `children` id lists.
pub open spec fn json_text(g: Graph) -> Seq<char> {
    if g.ids@.len() == 0 {
        "{}"@
    } else {
        "{\n"@ + json_entries(g.ids@, g.gm()) + "\n}"@
    }
}

proof fn lemma_json_id_list_take_step(ids: Seq<u64>, k: int)
    requires
        0 <= k < ids.len(),
    ensures
        json_id_list(ids.take(k + 1)) == if k == 0 {
            quoted_id(ids[0])
        } else {
            json_id_list(ids.take(k)) + ", "@ + quoted_id(ids[k])
        },
{
    assert(ids.take(k + 1).drop_last() =~= ids.take(k));
    assert(ids.take(k + 1).last() == ids[k]);
    if k == 0 {
        assert(ids.take(1)[0] == ids[0]);
    }
}

proof fn lemma_json_entries_take_step(ids: Seq<u64>, gm: Map<u64, NodeView>, i: int)
    requires
        0 <= i < ids.len(),
        gm.contains_key(ids[i]),
    ensures
        json_entries(ids.take(i + 1), gm) == if i == 0 {
            json_node(ids[0], gm[ids[0]])
        } else {
            json_entries(ids.take(i), gm) + ",\n"@ + json_node(ids[i], gm[ids[i]])
        },
{
    assert(ids.take(i + 1).drop_last() =~= ids.take(i));
    assert(ids.take(i + 1).last() == ids[i]);
    if i == 0 {
        assert(ids.take(1)[0] == ids[0]);
    }
}

/// Appends one id as a quoted JSON string.
fn append_quoted(s: &mut String, x: u64)
    ensures
        final(s)@ == old(s)@ + quoted_id(x),
{
    s.append("\"");
    push_dec(s, x);
    s.append("\"");
    proof {
        assert(((old(s)@ + "\""@) + dec_digits(x as nat)) + "\""@ =~= old(s)@ + quoted_id(x));
    }
}

/// Appends a comma-separated list of quoted ids.
fn append_id_list(s: &mut String, ids: &Vec<u64>)
    ensures
        final(s)@ == old(s)@ + json_id_list(ids@),
{
    let mut k: usize = 0;
    while k < ids.len()
        invariant
            k <= ids@.len(),
            s@ == old(s)@ + json_id_list(ids@.take(k as int)),
        decreases ids@.len() - k,
    {
        if k > 0 {
            s.append(", ");
        }
        append_quoted(s, ids[k]);
        proof {
            lemma_json_id_list_take_step(ids@, k as int);
            assert(s@ =~= old(s)@ + json_id_list(ids@.take(k + 1 as int)));
        }
        k = k + 1;
    }
    proof {
        assert(ids@.take(ids@.len() as int) =~= ids@);
    }
}

impl Graph {
    /// Renders the graph as a JSON adjacency map: one entry per known id,
    /// in first-seen order, each holding the node's `parents` and
    /// `children` id lists (ids as decimal strings).
    pub fn to_json(&self) -> (r: String)
        requires
            self.wf(),
        ensures
            r@ == json_text(*self),
    {
        if self.ids.len() == 0 {
            let mut s = String::new();
            s.append("{}");
            proof {
                assert(Seq::<char>::empty() + "{}"@ =~= "{}"@);
            }
            return s;
        }
        let mut s = String::new();
        s.append("{\n");
        proof {
            assert(Seq::<char>::empty() + "{\n"@ =~= "{\n"@);
            assert(self.ids@.take(0) =~= Seq::<u64>::empty());
        }
        let mut i: usize = 0;
        while i < self.ids.len()
            invariant
                self.wf(),
                self.ids@.len() > 0,
                i <= self.ids@.len(),
                s@ == "{\n"@ + json_entries(self.ids@.take(i as int), self.gm()),
            decreases self.ids@.len() - i,
        {
            let id = self.ids[i];
            proof {
                assert(self.gm().contains_key(self.ids@[i as int]));
            }
            let node = match self.nodes.get(&id) {
                Some(n) => n,
                None => {
                    // well-formedness: every listed id has a node
                    vstd::pervasive::unreached::<&Node>()
                },
            };
            let ghost s1 = s@;
            if i > 0 {
                s.append(",\n");
            }
            s.append("  ");
            append_quoted(&mut s, id);
            s.append(": {\n    \"parents\": [");
            append_id_list(&mut s, &node.parents);
            s.append("],\n    \"children\": [");
            append_id_list(&mut s, &node.children);
            s.append("]\n  }");
            proof {
                lemma_json_entries_take_step(self.ids@, self.gm(), i as int);
                assert(node@ == self.gm()[id]);
                assert(s@ =~= s1 + (if i == 0 {
                    Seq::<char>::empty()
                } else {
                    ",\n"@
                }) + json_node(id, self.gm()[id]));
                assert(s@ =~= "{\n"@ + json_entries(self.ids@.take(i + 1 as int), self.gm()));
            }
            i = i + 1;
        }
        s.append("\n}");
        proof {
            assert(self.ids@.take(self.ids@.len() as int) =~= self.ids@);
        }
        s
    }
}

} // verus!
