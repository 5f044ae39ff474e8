//! The indentation-sensitive parser.
//!
//! Grammar, relative to a required indentation prefix `ind` (initially
//! empty).  A line must begin with exactly `ind` as its leading
//! whitespace.  An inline node is `ind`, a non-empty label free of `:`
//! and newline, a `:`, at least one space or tab, a comma-separated list
//! of leaf labels, and a newline.  A nested node is `ind`, a label, and a
//! newline, followed by zero or more children whose lines all carry one
//! exact indentation that strictly extends `ind`.  A node is first tried
//! as inline, then as nested.  The whole input must be consumed, or the
//! parse fails; no partial tree is returned.
//!
//! Indentation is compared byte for byte, not by width: mixed tabs and
//! spaces are parse failures, deliberately.

use vstd::prelude::*;
use crate::node::{lemma_views_of, views_of, Node, NodeV};
use crate::text::{is_ws_byte, COLON, COMMA, NL, SPACE, TAB};

verus! {

/// A failed parse; the input does not match the grammar.
#[derive(Clone, Copy, PartialEq, Eq, Structural, Debug)]
pub struct ParseError;

/// Length of the longest whitespace prefix.
pub open spec fn ws_len(s: Seq<u8>) -> nat
    decreases s.len(),
{
    if s.len() > 0 && is_ws_byte(s[0]) {
        1 + ws_len(s.skip(1))
    } else {
        0
    }
}

/// Length of the longest prefix free of `:` and newline: a node label.
pub open spec fn value_len(s: Seq<u8>) -> nat
    decreases s.len(),
{
    if s.len() > 0 && s[0] != COLON && s[0] != NL {
        1 + value_len(s.skip(1))
    } else {
        0
    }
}

/// Length of the longest prefix free of `,` and newline: a leaf label.
pub open spec fn leaf_len(s: Seq<u8>) -> nat
    decreases s.len(),
{
    if s.len() > 0 && s[0] != COMMA && s[0] != NL {
        1 + leaf_len(s.skip(1))
    } else {
        0
    }
}

/// The line at the head of `s` is indented with exactly `ind`: it starts
/// with `ind` and its leading whitespace goes no further.
pub open spec fn at_indent(s: Seq<u8>, ind: Seq<u8>) -> bool {
    &&& ind.len() <= s.len()
    &&& s.take(ind.len() as int) == ind
    &&& (ind.len() == s.len() || !is_ws_byte(s[ind.len() as int]))
}

/// Parses a comma-separated list of leaf labels.  Each label is the
/// longest run free of `,` and newline, trimmed of one optional leading
/// space or tab after its comma.  A comma not followed by a further
/// label is left unconsumed.  Returns the leaves and the remaining input.
pub open spec fn spec_leaves(s: Seq<u8>) -> (Seq<NodeV>, Seq<u8>)
    decreases s.len(),
        via spec_leaves_dec
{
    let l = leaf_len(s);
    if l == 0 {
        (Seq::empty(), s)
    } else {
        let leaf = NodeV { value: s.take(l as int), children: Seq::empty() };
        let rest = s.skip(l as int);
        if rest.len() > 0 && rest[0] == COMMA {
            let after = rest.skip(1);
            let w: int = if after.len() > 0 && is_ws_byte(after[0]) {
                1
            } else {
                0
            };
            let (tail, r2) = spec_leaves(after.skip(w));
            if tail.len() == 0 {
                (seq![leaf], rest)
            } else {
                (seq![leaf] + tail, r2)
            }
        } else {
            (seq![leaf], rest)
        }
    }
}

#[via_fn]
proof fn spec_leaves_dec(s: Seq<u8>) {
    lemma_leaf_len(s);
}

/// Parses one inline node: label, colon, whitespace, leaves, newline.
pub open spec fn spec_inline(s: Seq<u8>, ind: Seq<u8>) -> Option<(NodeV, Seq<u8>)> {
    if !at_indent(s, ind) {
        None
    } else {
        let t = s.skip(ind.len() as int);
        let vl = value_len(t);
        if 1 <= vl < t.len() && t[vl as int] == COLON {
            let u = t.skip((vl + 1) as int);
            let w = ws_len(u);
            if w >= 1 {
                let (leaves, rest) = spec_leaves(u.skip(w as int));
                if rest.len() > 0 && rest[0] == NL {
                    Some((NodeV { value: t.take(vl as int), children: leaves }, rest.skip(1)))
                } else {
                    None
                }
            } else {
                None
            }
        } else {
            None
        }
    }
}

/// Parses one nested node: label, newline, then children under a strictly
/// deeper shared indentation, if any.
pub open spec fn spec_nested(s: Seq<u8>, ind: Seq<u8>) -> Option<(NodeV, Seq<u8>)>
    decreases s.len(), 1nat,
{
    if !at_indent(s, ind) {
        None
    } else {
        let t = s.skip(ind.len() as int);
        let vl = value_len(t);
        if 1 <= vl < t.len() && t[vl as int] == NL {
            let value = t.take(vl as int);
            let rest0 = t.skip((vl + 1) as int);
            let nw = ws_len(rest0);
            if nw > ind.len() && rest0.take(ind.len() as int) == ind {
                let new_ind = rest0.take(nw as int);
                let (cs, r2) = spec_nodes(rest0, new_ind);
                if cs.len() >= 1 {
                    Some((NodeV { value, children: cs }, r2))
                } else {
                    Some((NodeV { value, children: Seq::empty() }, rest0))
                }
            } else {
                Some((NodeV { value, children: Seq::empty() }, rest0))
            }
        } else {
            None
        }
    }
}

/// Parses one node: inline first, then nested.
pub open spec fn spec_node(s: Seq<u8>, ind: Seq<u8>) -> Option<(NodeV, Seq<u8>)>
    decreases s.len(), 2nat,
{
    match spec_inline(s, ind) {
        Some(r) => Some(r),
        None => spec_nested(s, ind),
    }
}

/// Parses nodes at one indentation until one fails; returns them and the
/// remaining input.
pub open spec fn spec_nodes(s: Seq<u8>, ind: Seq<u8>) -> (Seq<NodeV>, Seq<u8>)
    decreases s.len(), 3nat,
{
    match spec_node(s, ind) {
        None => (Seq::empty(), s),
        Some((n, rest)) => {
            if rest.len() < s.len() {
                let (tail, r2) = spec_nodes(rest, ind);
                (seq![n] + tail, r2)
            } else {
                (seq![n], rest)
            }
        },
    }
}

/// The parse of a whole input: the top-level nodes at empty indentation,
/// provided the whole input is consumed.
pub open spec fn spec_parse(s: Seq<u8>) -> Option<Seq<NodeV>> {
    let (ns, rest) = spec_nodes(s, Seq::empty());
    if rest.len() == 0 {
        Some(ns)
    } else {
        None
    }
}

/// Copies `data[a..b]` into a fresh vector.
fn copy_range(data: &Vec<u8>, a: usize, b: usize) -> (out: Vec<u8>)
    requires
        a <= b <= data@.len(),
    ensures
        out@ == data@.subrange(a as int, b as int),
{
    let mut out: Vec<u8> = Vec::new();
    let mut m: usize = a;
    while m < b
        invariant
            a <= m <= b <= data@.len(),
            out@ == data@.subrange(a as int, m as int),
        decreases b - m,
    {
        let x = data[m];
        out.push(x);
        m = m + 1;
        proof {
            assert(out@ =~= data@.subrange(a as int, m as int));
        }
    }
    out
}

/// Index just past the whitespace run starting at `pos`.
fn scan_ws(data: &Vec<u8>, pos: usize) -> (end: usize)
    requires
        pos <= data@.len(),
    ensures
        pos <= end <= data@.len(),
        end - pos == ws_len(data@.skip(pos as int)),
{
    let n = data.len();
    let mut end: usize = pos;
    while end < n && (data[end] == SPACE || data[end] == TAB)
        invariant
            n == data@.len(),
            pos <= end <= n,
            forall|m: int| pos <= m < end ==> is_ws_byte(data@[m]),
        decreases n - end,
    {
        end = end + 1;
    }
    proof {
        let s = data@.skip(pos as int);
        lemma_ws_len(s);
        assert forall|m: int| 0 <= m < end - pos implies is_ws_byte(s[m]) by {
            assert(s[m] == data@[pos + m]);
        }
        if end < n {
            assert(s[(end - pos) as int] == data@[end as int]);
        }
        assert(ws_len(s) == end - pos);
    }
    end
}

/// Index just past the node label starting at `pos`.
fn scan_value(data: &Vec<u8>, pos: usize) -> (end: usize)
    requires
        pos <= data@.len(),
    ensures
        pos <= end <= data@.len(),
        end - pos == value_len(data@.skip(pos as int)),
{
    let n = data.len();
    let mut end: usize = pos;
    while end < n && data[end] != COLON && data[end] != NL
        invariant
            n == data@.len(),
            pos <= end <= n,
            forall|m: int| pos <= m < end ==> data@[m] != COLON && data@[m] != NL,
        decreases n - end,
    {
        end = end + 1;
    }
    proof {
        let s = data@.skip(pos as int);
        lemma_value_len(s);
        assert forall|m: int| 0 <= m < end - pos implies s[m] != COLON && s[m] != NL by {
            assert(s[m] == data@[pos + m]);
        }
        if end < n {
            assert(s[(end - pos) as int] == data@[end as int]);
        }
        assert(value_len(s) == end - pos);
    }
    end
}

/// Index just past the leaf label starting at `pos`.
fn scan_leaf(data: &Vec<u8>, pos: usize) -> (end: usize)
    requires
        pos <= data@.len(),
    ensures
        pos <= end <= data@.len(),
        end - pos == leaf_len(data@.skip(pos as int)),
{
    let n = data.len();
    let mut end: usize = pos;
    while end < n && data[end] != COMMA && data[end] != NL
        invariant
            n == data@.len(),
            pos <= end <= n,
            forall|m: int| pos <= m < end ==> data@[m] != COMMA && data@[m] != NL,
        decreases n - end,
    {
        end = end + 1;
    }
    proof {
        let s = data@.skip(pos as int);
        lemma_leaf_len(s);
        assert forall|m: int| 0 <= m < end - pos implies s[m] != COMMA && s[m] != NL by {
            assert(s[m] == data@[pos + m]);
        }
        if end < n {
            assert(s[(end - pos) as int] == data@[end as int]);
        }
        assert(leaf_len(s) == end - pos);
    }
    end
}

/// Whether the line starting at `pos` is indented with exactly `ind`.
fn check_indent(data: &Vec<u8>, pos: usize, ind: &Vec<u8>) -> (r: bool)
    requires
        pos <= data@.len(),
    ensures
        r == at_indent(data@.skip(pos as int), ind@),
{
    let ghost s = data@.skip(pos as int);
    let n = data.len();
    if ind.len() > n - pos {
        return false;
    }
    let mut i: usize = 0;
    while i < ind.len()
        invariant
            n == data@.len(),
            pos <= n,
            i <= ind@.len() <= n - pos,
            forall|m: int| 0 <= m < i ==> data@[pos + m] == ind@[m],
        decreases ind@.len() - i,
    {
        if data[pos + i] != ind[i] {
            proof {
                let s2 = data@.skip(pos as int);
                assert(s2.take(ind@.len() as int)[i as int] == data@[pos + i]);
            }
            return false;
        }
        i = i + 1;
    }
    proof {
        assert(s.take(ind@.len() as int) =~= ind@);
    }
    if pos + ind.len() < n {
        let b = data[pos + ind.len()];
        if b == SPACE || b == TAB {
            proof {
                assert(s[ind@.len() as int] == data@[pos + ind@.len()]);
            }
            return false;
        }
        proof {
            assert(s[ind@.len() as int] == data@[pos + ind@.len()]);
        }
    }
    true
}

/// Parses the comma-separated leaf list starting at `pos`.
fn leaves_at(data: &Vec<u8>, pos: usize) -> (r: (Vec<Node>, usize))
    requires
        pos <= data@.len(),
    ensures
        views_of(r.0@) == spec_leaves(data@.skip(pos as int)).0,
        data@.skip(r.1 as int) == spec_leaves(data@.skip(pos as int)).1,
        pos <= r.1 <= data@.len(),
    decreases data@.len() - pos,
{
    let ghost s = data@.skip(pos as int);
    let n = data.len();
    let lend = scan_leaf(data, pos);
    if lend == pos {
        let out: Vec<Node> = Vec::new();
        proof {
            assert(views_of(out@) =~= spec_leaves(s).0);
        }
        return (out, pos);
    }
    let leaf_node = Node::leaf(copy_range(data, pos, lend));
    proof {
        assert(data@.subrange(pos as int, lend as int) =~= s.take((lend - pos) as int));
        assert(data@.skip(lend as int) =~= s.skip((lend - pos) as int));
    }
    let ghost leaf_v = NodeV { value: s.take((lend - pos) as int), children: Seq::empty() };
    if lend < n && data[lend] == COMMA {
        proof {
            assert(s.skip((lend - pos) as int)[0] == data@[lend as int]);
            assert(data@.skip((lend + 1) as int) =~= s.skip((lend - pos) as int).skip(1));
        }
        let mut q = lend + 1;
        if q < n && (data[q] == SPACE || data[q] == TAB) {
            q = q + 1;
        }
        proof {
            let after = s.skip((lend - pos) as int).skip(1);
            if q == lend + 2 {
                assert(after[0] == data@[(lend + 1) as int]);
                assert(after.skip(1) =~= data@.skip(q as int));
            } else {
                if after.len() > 0 {
                    assert(after[0] == data@[(lend + 1) as int]);
                }
                assert(after.skip(0) =~= data@.skip(q as int));
            }
        }
        let (mut tail, r2) = leaves_at(data, q);
        if tail.len() == 0 {
            proof {
                lemma_views_of(tail@);
            }
            let mut out: Vec<Node> = Vec::new();
            out.push(leaf_node);
            proof {
                lemma_views_of(out@);
                assert(views_of(out@) =~= seq![leaf_v]);
            }
            (out, lend)
        } else {
            proof {
                lemma_views_of(tail@);
            }
            let ghost tail0 = tail@;
            let mut out: Vec<Node> = Vec::new();
            out.push(leaf_node);
            out.append(&mut tail);
            proof {
                lemma_views_of(out@);
                lemma_views_of(tail0);
                assert forall|i: int| 0 <= i < out@.len() implies views_of(out@)[i] == (seq![
                    leaf_v,
                ] + views_of(tail0))[i] by {
                    if i > 0 {
                        assert(out@[i] == tail0[i - 1]);
                    }
                }
                assert(views_of(out@) =~= seq![leaf_v] + views_of(tail0));
            }
            (out, r2)
        }
    } else {
        let mut out: Vec<Node> = Vec::new();
        out.push(leaf_node);
        proof {
            lemma_views_of(out@);
            assert(views_of(out@) =~= seq![leaf_v]);
            if lend < n {
                assert(s.skip((lend - pos) as int)[0] == data@[lend as int]);
            }
        }
        (out, lend)
    }
}

/// Parses one inline node at `pos`.
fn inline_at(data: &Vec<u8>, pos: usize, ind: &Vec<u8>) -> (r: Option<(Node, usize)>)
    requires
        pos <= data@.len(),
    ensures
        match r {
            Some((node, p)) => spec_inline(data@.skip(pos as int), ind@) == Some(
                (node@, data@.skip(p as int)),
            ) && pos < p <= data@.len(),
            None => spec_inline(data@.skip(pos as int), ind@) is None,
        },
{
    let ghost s = data@.skip(pos as int);
    let n = data.len();
    if !check_indent(data, pos, ind) {
        return None;
    }
    let vstart = pos + ind.len();
    proof {
        assert(data@.skip(vstart as int) =~= s.skip(ind@.len() as int));
    }
    let ghost t = s.skip(ind@.len() as int);
    let vend = scan_value(data, vstart);
    if vend == vstart {
        return None;
    }
    if vend == n || data[vend] != COLON {
        proof {
            if vend < n {
                assert(t[(vend - vstart) as int] == data@[vend as int]);
            }
        }
        return None;
    }
    proof {
        assert(t[(vend - vstart) as int] == data@[vend as int]);
        assert(data@.skip((vend + 1) as int) =~= t.skip((vend - vstart + 1) as int));
    }
    let ghost u = t.skip((vend - vstart + 1) as int);
    let wstart = vend + 1;
    let wend = scan_ws(data, wstart);
    if wend == wstart {
        return None;
    }
    proof {
        assert(u.skip(ws_len(u) as int) =~= data@.skip(wend as int));
    }
    let (leaves, p) = leaves_at(data, wend);
    if p == n || data[p] != NL {
        proof {
            if p < n {
                assert(data@.skip(p as int)[0] == data@[p as int]);
            }
        }
        return None;
    }
    let value = copy_range(data, vstart, vend);
    let node = Node { value, children: leaves };
    proof {
        assert(data@.subrange(vstart as int, vend as int) =~= t.take((vend - vstart) as int));
        assert(data@.skip(p as int)[0] == data@[p as int]);
        assert(data@.skip((p + 1) as int) =~= data@.skip(p as int).skip(1));
    }
    Some((node, p + 1))
}

/// Parses one nested node at `pos`.
fn nested_at(data: &Vec<u8>, pos: usize, ind: &Vec<u8>) -> (r: Option<(Node, usize)>)
    requires
        pos <= data@.len(),
    ensures
        match r {
            Some((node, p)) => spec_nested(data@.skip(pos as int), ind@) == Some(
                (node@, data@.skip(p as int)),
            ) && pos < p <= data@.len(),
            None => spec_nested(data@.skip(pos as int), ind@) is None,
        },
    decreases data@.len() - pos, 1nat,
{
    let ghost s = data@.skip(pos as int);
    let n = data.len();
    if !check_indent(data, pos, ind) {
        return None;
    }
    let vstart = pos + ind.len();
    proof {
        assert(data@.skip(vstart as int) =~= s.skip(ind@.len() as int));
    }
    let ghost t = s.skip(ind@.len() as int);
    let vend = scan_value(data, vstart);
    if vend == vstart {
        return None;
    }
    if vend == n || data[vend] != NL {
        proof {
            if vend < n {
                assert(t[(vend - vstart) as int] == data@[vend as int]);
            }
        }
        return None;
    }
    proof {
        assert(t[(vend - vstart) as int] == data@[vend as int]);
        assert(data@.skip((vend + 1) as int) =~= t.skip((vend - vstart + 1) as int));
    }
    let ghost rest0 = t.skip((vend - vstart + 1) as int);
    let value = copy_range(data, vstart, vend);
    proof {
        assert(data@.subrange(vstart as int, vend as int) =~= t.take((vend - vstart) as int));
    }
    let rest0pos = vend + 1;
    let wend = scan_ws(data, rest0pos);
    if wend - rest0pos > ind.len() && check_prefix(data, rest0pos, ind) {
        let new_ind = copy_range(data, rest0pos, wend);
        proof {
            assert(new_ind@ =~= rest0.take(ws_len(rest0) as int));
        }
        let (cs, p2) = nodes_at(data, rest0pos, &new_ind);
        if cs.len() >= 1 {
            proof {
                lemma_views_of(cs@);
            }
            let node = Node { value, children: cs };
            return Some((node, p2));
        }
        proof {
            lemma_views_of(cs@);
        }
        let node = Node { value, children: cs };
        proof {
            assert(views_of(node.children@) =~= Seq::<NodeV>::empty());
        }
        return Some((node, rest0pos));
    }
    let node = Node { value, children: Vec::new() };
    proof {
        assert(views_of(node.children@) =~= Seq::<NodeV>::empty());
    }
    Some((node, rest0pos))
}

/// Whether `data[pos..]` starts with `ind`.
fn check_prefix(data: &Vec<u8>, pos: usize, ind: &Vec<u8>) -> (r: bool)
    requires
        pos <= data@.len(),
    ensures
        r == (ind@.len() <= data@.len() - pos && data@.skip(pos as int).take(ind@.len() as int)
            == ind@),
{
    let n = data.len();
    if ind.len() > n - pos {
        return false;
    }
    let mut i: usize = 0;
    while i < ind.len()
        invariant
            n == data@.len(),
            pos <= n,
            i <= ind@.len() <= n - pos,
            forall|m: int| 0 <= m < i ==> data@[pos + m] == ind@[m],
        decreases ind@.len() - i,
    {
        if data[pos + i] != ind[i] {
            proof {
                let s2 = data@.skip(pos as int);
                assert(s2.take(ind@.len() as int)[i as int] == data@[pos + i]);
            }
            return false;
        }
        i = i + 1;
    }
    proof {
        assert(data@.skip(pos as int).take(ind@.len() as int) =~= ind@);
    }
    true
}

/// Parses one node at `pos`: inline first, then nested.
fn node_at(data: &Vec<u8>, pos: usize, ind: &Vec<u8>) -> (r: Option<(Node, usize)>)
    requires
        pos <= data@.len(),
    ensures
        match r {
            Some((node, p)) => spec_node(data@.skip(pos as int), ind@) == Some(
                (node@, data@.skip(p as int)),
            ) && pos < p <= data@.len(),
            None => spec_node(data@.skip(pos as int), ind@) is None,
        },
    decreases data@.len() - pos, 2nat,
{
    match inline_at(data, pos, ind) {
        Some(r) => Some(r),
        None => nested_at(data, pos, ind),
    }
}

/// Parses nodes at one indentation until one fails.
fn nodes_at(data: &Vec<u8>, pos: usize, ind: &Vec<u8>) -> (r: (Vec<Node>, usize))
    requires
        pos <= data@.len(),
    ensures
        views_of(r.0@) == spec_nodes(data@.skip(pos as int), ind@).0,
        data@.skip(r.1 as int) == spec_nodes(data@.skip(pos as int), ind@).1,
        pos <= r.1 <= data@.len(),
    decreases data@.len() - pos, 3nat,
{
    let ghost s = data@.skip(pos as int);
    match node_at(data, pos, ind) {
        None => {
            let out: Vec<Node> = Vec::new();
            proof {
                assert(views_of(out@) =~= spec_nodes(s, ind@).0);
            }
            (out, pos)
        },
        Some((node, p)) => {
            proof {
                // The node consumed input, so the recursion in the spec
                // takes its shrinking branch.
                assert(data@.skip(p as int).len() < s.len());
            }
            let (mut tail, r2) = nodes_at(data, p, ind);
            proof {
                lemma_views_of(tail@);
            }
            let ghost tail0 = tail@;
            let mut out: Vec<Node> = Vec::new();
            out.push(node);
            out.append(&mut tail);
            proof {
                lemma_views_of(out@);
                lemma_views_of(tail0);
                assert forall|i: int| 0 <= i < out@.len() implies views_of(out@)[i] == (seq![
                    node@,
                ] + views_of(tail0))[i] by {
                    if i > 0 {
                        assert(out@[i] == tail0[i - 1]);
                    }
                }
                assert(views_of(out@) =~= seq![node@] + views_of(tail0));
            }
            (out, r2)
        },
    }
}

impl Node {
    /// Parses a whole cleaned input into its top-level nodes.  The parse
    /// succeeds exactly when the grammar consumes the entire input.
    pub fn from_bytes(data: &Vec<u8>) -> (r: Result<Vec<Node>, ParseError>)
        ensures
            match r {
                Ok(ns) => spec_parse(data@) == Some(views_of(ns@)),
                Err(_) => spec_parse(data@) is None,
            },
    {
        let empty_ind: Vec<u8> = Vec::new();
        proof {
            assert(data@.skip(0) =~= data@);
        }
        let (ns, p) = nodes_at(data, 0, &empty_ind);
        if p == data.len() {
            Ok(ns)
        } else {
            Err(ParseError)
        }
    }
}

proof fn lemma_ws_len(s: Seq<u8>)
    ensures
        ws_len(s) <= s.len(),
        ws_len(s) < s.len() ==> !is_ws_byte(s[ws_len(s) as int]),
        forall|m: int| 0 <= m < ws_len(s) ==> is_ws_byte(s[m]),
    decreases s.len(),
{
    if s.len() > 0 && is_ws_byte(s[0]) {
        lemma_ws_len(s.skip(1));
        let t = s.skip(1);
        if ws_len(s) < s.len() {
            assert(s[ws_len(s) as int] == t[ws_len(t) as int]);
        }
        assert forall|m: int| 0 <= m < ws_len(s) implies is_ws_byte(s[m]) by {
            if m > 0 {
                assert(s[m] == t[m - 1]);
            }
        }
    }
}

proof fn lemma_value_len(s: Seq<u8>)
    ensures
        value_len(s) <= s.len(),
        value_len(s) < s.len() ==> (s[value_len(s) as int] == COLON || s[value_len(s) as int]
            == NL),
        forall|m: int| 0 <= m < value_len(s) ==> s[m] != COLON && s[m] != NL,
    decreases s.len(),
{
    if s.len() > 0 && s[0] != COLON && s[0] != NL {
        lemma_value_len(s.skip(1));
        let t = s.skip(1);
        if value_len(s) < s.len() {
            assert(s[value_len(s) as int] == t[value_len(t) as int]);
        }
        assert forall|m: int| 0 <= m < value_len(s) implies s[m] != COLON && s[m] != NL by {
            if m > 0 {
                assert(s[m] == t[m - 1]);
            }
        }
    }
}

proof fn lemma_leaf_len(s: Seq<u8>)
    ensures
        leaf_len(s) <= s.len(),
        leaf_len(s) < s.len() ==> (s[leaf_len(s) as int] == COMMA || s[leaf_len(s) as int] == NL),
        forall|m: int| 0 <= m < leaf_len(s) ==> s[m] != COMMA && s[m] != NL,
    decreases s.len(),
{
    if s.len() > 0 && s[0] != COMMA && s[0] != NL {
        lemma_leaf_len(s.skip(1));
        let t = s.skip(1);
        if leaf_len(s) < s.len() {
            assert(s[leaf_len(s) as int] == t[leaf_len(t) as int]);
        }
        assert forall|m: int| 0 <= m < leaf_len(s) implies s[m] != COMMA && s[m] != NL by {
            if m > 0 {
                assert(s[m] == t[m - 1]);
            }
        }
    }
}

} // verus!
