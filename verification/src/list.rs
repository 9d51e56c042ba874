//! List runs: recognizing bulleted and numbered list lines and
//! building the nested list tree from a contiguous run of them.
//!
//! Nesting is by leading whitespace: a line indented more than the
//! current baseline opens a nested list attached to the item just
//! emitted, and the nested run extends while the indent stays at least
//! as deep.  A later deeper run attached to the same item replaces the
//! earlier one.
use crate::inline::{inline_parse, inline_spec};
use crate::node::{nodes_view, node_view, Content, ContentV, ElementNode, NodeV, Token};
use crate::util::{
    is_ws,
    lemma_skip_digits_from,
    lemma_skip_ws_from,
    skip_digits,
    skip_digits_from,
    skip_ws,
    skip_ws_from,
};
use vstd::prelude::*;

verus! {

/// The two list kinds: bulleted and numbered.
#[derive(Debug, Clone, Copy)]
pub enum ListPattern {
    SimpleList,
    NumberList,
}

/// The indent of a list line: the length of its leading whitespace.
pub open spec fn list_indent(s: Seq<char>) -> int {
    skip_ws_from(s, 0)
}

/// A bulleted list line: whitespace, `*` or `-`, one whitespace
/// character, then at least one character of content.
pub open spec fn is_simple_spec(s: Seq<char>) -> bool {
    let w = skip_ws_from(s, 0);
    w + 2 < s.len() && (s[w] == '*' || s[w] == '-') && is_ws(s[w + 1])
}

/// A numbered list line: whitespace, at least one digit, `.`, one
/// whitespace character, then at least one character of content.
pub open spec fn is_number_spec(s: Seq<char>) -> bool {
    let w = skip_ws_from(s, 0);
    let d = skip_digits_from(s, w);
    d > w && d + 2 < s.len() && s[d] == '.' && is_ws(s[d + 1])
}

/// Whether a line is a list line of the given kind.
pub open spec fn list_matches(kind: ListPattern, s: Seq<char>) -> bool {
    match kind {
        ListPattern::SimpleList => is_simple_spec(s),
        ListPattern::NumberList => is_number_spec(s),
    }
}

/// The text of a list line after its marker.
pub open spec fn list_content(kind: ListPattern, s: Seq<char>) -> Seq<char> {
    match kind {
        ListPattern::SimpleList => s.skip(skip_ws_from(s, 0) + 2),
        ListPattern::NumberList => s.skip(skip_digits_from(s, skip_ws_from(s, 0)) + 2),
    }
}

/// The container node kind of a list kind.
pub open spec fn list_token(kind: ListPattern) -> Token {
    match kind {
        ListPattern::SimpleList => Token::Ul,
        ListPattern::NumberList => Token::Ol,
    }
}

/// A list-item node holding `text`, with `child` as its nested list.
pub open spec fn li_node(text: Seq<char>, child: NodeV) -> NodeV {
    NodeV::Exist {
        tag: Token::Li,
        content: ContentV::PlainText { value: text },
        children: Box::new(child),
    }
}

/// A list container node of the given kind holding `items`.
pub open spec fn list_node(kind: ListPattern, items: Seq<NodeV>) -> NodeV {
    NodeV::Exist {
        tag: list_token(kind),
        content: ContentV::ElementNodes { value: items },
        children: Box::new(NodeV::Nil),
    }
}

/// The first index in `[k, end)` whose line is indented less than
/// `iw`, or `end` when the whole range stays at least as deep.
pub open spec fn chunk_end(lines: Seq<Seq<char>>, k: int, end: int, iw: int) -> int
    decreases end - k,
{
    if !(0 <= k && k < end && end <= lines.len()) {
        k
    } else if list_indent(lines[k]) < iw {
        k
    } else {
        chunk_end(lines, k + 1, end, iw)
    }
}

pub proof fn lemma_chunk_end(lines: Seq<Seq<char>>, k: int, end: int, iw: int)
    requires
        0 <= k <= end <= lines.len(),
    ensures
        k <= chunk_end(lines, k, end, iw) <= end,
        chunk_end(lines, k, end, iw) < end ==> list_indent(
            lines[chunk_end(lines, k, end, iw)],
        ) < iw,
        forall|m: int| k <= m < chunk_end(lines, k, end, iw) ==> list_indent(lines[m]) >= iw,
    decreases end - k,
{
    if 0 <= k && k < end && end <= lines.len() && !(list_indent(lines[k]) < iw) {
        lemma_chunk_end(lines, k + 1, end, iw);
    }
}

/// The nested list attached to the item just before index `j`, and the
/// index where the sibling scan resumes.  Successive deeper runs each
/// build a list; the last one is the child that stays attached.
pub open spec fn list_chain(
    lines: Seq<Seq<char>>,
    j: int,
    end: int,
    base: int,
    kind: ListPattern,
) -> (NodeV, int)
    decreases end - j, 1int,
{
    if !(0 <= j && j < end && end <= lines.len() && list_indent(lines[j]) > base) {
        (NodeV::Nil, j)
    } else {
        let iw = list_indent(lines[j]);
        let e0 = chunk_end(lines, j + 1, end, iw);
        let e = if j < e0 && e0 <= end {
            e0
        } else {
            j + 1
        };
        let node = list_node(kind, list_items(lines, j, e, iw, kind));
        let r = list_chain(lines, e, end, base, kind);
        if r.0 is Nil {
            (node, e)
        } else {
            r
        }
    }
}

/// The sibling items of the range `[i, end)` at baseline `base`: each
/// line becomes a leaf item whose nested list, if any, is given by the
/// deeper run that follows it.
pub open spec fn list_items(
    lines: Seq<Seq<char>>,
    i: int,
    end: int,
    base: int,
    kind: ListPattern,
) -> Seq<NodeV>
    decreases end - i, 0int,
{
    if !(0 <= i && i < end && end <= lines.len()) {
        Seq::empty()
    } else {
        let r = list_chain(lines, i + 1, end, base, kind);
        let next = if i < r.1 && r.1 <= end {
            r.1
        } else {
            i + 1
        };
        seq![li_node(inline_spec(list_content(kind, lines[i])), r.0)] + list_items(
            lines,
            next,
            end,
            base,
            kind,
        )
    }
}

pub proof fn lemma_chain_bounds(
    lines: Seq<Seq<char>>,
    j: int,
    end: int,
    base: int,
    kind: ListPattern,
)
    requires
        0 <= j <= end <= lines.len(),
    ensures
        ({
            let r = list_chain(lines, j, end, base, kind);
            &&& j <= r.1 <= end
            &&& (j < end && list_indent(lines[j]) > base ==> r.1 > j && !(r.0 is Nil))
            &&& (!(j < end && list_indent(lines[j]) > base) ==> r == (NodeV::Nil, j))
        }),
    decreases end - j,
{
    if 0 <= j && j < end && end <= lines.len() && list_indent(lines[j]) > base {
        let iw = list_indent(lines[j]);
        lemma_chunk_end(lines, j + 1, end, iw);
        let e0 = chunk_end(lines, j + 1, end, iw);
        let e = if j < e0 && e0 <= end {
            e0
        } else {
            j + 1
        };
        lemma_chain_bounds(lines, e, end, base, kind);
    }
}

pub proof fn lemma_list_chain_wf(
    lines: Seq<Seq<char>>,
    j: int,
    end: int,
    base: int,
    kind: ListPattern,
)
    requires
        0 <= j <= end <= lines.len(),
    ensures
        crate::node::wf_node(list_chain(lines, j, end, base, kind).0),
    decreases end - j, 1int,
{
    if 0 <= j && j < end && end <= lines.len() && list_indent(lines[j]) > base {
        let iw = list_indent(lines[j]);
        lemma_chunk_end(lines, j + 1, end, iw);
        let e0 = chunk_end(lines, j + 1, end, iw);
        let e = if j < e0 && e0 <= end {
            e0
        } else {
            j + 1
        };
        lemma_list_items_wf(lines, j, e, iw, kind);
        lemma_list_chain_wf(lines, e, end, base, kind);
        let node = list_node(kind, list_items(lines, j, e, iw, kind));
        assert(crate::node::wf_node(NodeV::Nil));
        assert(crate::node::wf_content(
            ContentV::ElementNodes { value: list_items(lines, j, e, iw, kind) },
        ));
        assert(crate::node::wf_node(node));
    } else {
        assert(list_chain(lines, j, end, base, kind).0 == NodeV::Nil);
        assert(crate::node::wf_node(NodeV::Nil));
    }
}

pub proof fn lemma_list_items_wf(
    lines: Seq<Seq<char>>,
    i: int,
    end: int,
    base: int,
    kind: ListPattern,
)
    requires
        0 <= i <= end <= lines.len(),
    ensures
        crate::node::wf_nodes(list_items(lines, i, end, base, kind)),
    decreases end - i, 0int,
{
    if 0 <= i && i < end && end <= lines.len() {
        let r = list_chain(lines, i + 1, end, base, kind);
        lemma_chain_bounds(lines, i + 1, end, base, kind);
        lemma_list_chain_wf(lines, i + 1, end, base, kind);
        let next = if i < r.1 && r.1 <= end {
            r.1
        } else {
            i + 1
        };
        lemma_list_items_wf(lines, next, end, base, kind);
        let li = li_node(inline_spec(list_content(kind, lines[i])), r.0);
        assert(crate::node::wf_content(
            ContentV::PlainText { value: inline_spec(list_content(kind, lines[i])) },
        ));
        assert(crate::node::wf_node(li));
        let whole = list_items(lines, i, end, base, kind);
        assert(whole.first() == li);
        assert(whole.drop_first() =~= list_items(lines, next, end, base, kind));
        assert(crate::node::wf_nodes(whole));
    } else {
        assert(list_items(lines, i, end, base, kind) =~= Seq::<NodeV>::empty());
    }
}

/// The node of a whole list run is well formed.
pub proof fn lemma_list_node_wf(
    lines: Seq<Seq<char>>,
    i: int,
    end: int,
    base: int,
    kind: ListPattern,
)
    requires
        0 <= i <= end <= lines.len(),
    ensures
        crate::node::wf_node(list_node(kind, list_items(lines, i, end, base, kind))),
{
    lemma_list_items_wf(lines, i, end, base, kind);
    assert(crate::node::wf_node(NodeV::Nil));
    assert(crate::node::wf_content(
        ContentV::ElementNodes { value: list_items(lines, i, end, base, kind) },
    ));
}

/// The larger of two depths.
pub open spec fn nat_max(a: nat, b: nat) -> nat {
    if a >= b {
        a
    } else {
        b
    }
}

/// The list-nesting depth of a node: a list container counts one
/// level on top of its deepest item, and a list item is as deep as
/// its nested list.
pub open spec fn node_depth(n: NodeV) -> nat
    decreases n,
{
    match n {
        NodeV::Nil => 0,
        NodeV::Exist { tag, content, children } => {
            let inner = match content {
                ContentV::ElementNodes { value } => seq_depth(value),
                _ => 0,
            };
            let own: nat = if tag == Token::Ul || tag == Token::Ol {
                1
            } else {
                0
            };
            own + nat_max(inner, node_depth(*children))
        },
    }
}

/// The deepest list nesting among the nodes of a sequence.
pub open spec fn seq_depth(v: Seq<NodeV>) -> nat
    decreases v,
{
    if v.len() == 0 {
        0
    } else {
        nat_max(node_depth(v.first()), seq_depth(v.drop_first()))
    }
}

/// The distinct indents deeper than `base` that the lines of
/// `[i, end)` show.
pub open spec fn indent_levels_above(
    lines: Seq<Seq<char>>,
    i: int,
    end: int,
    base: int,
) -> Set<int>
    decreases end - i,
{
    if !(0 <= i && i < end && end <= lines.len()) {
        Set::empty()
    } else if list_indent(lines[i]) > base {
        indent_levels_above(lines, i + 1, end, base).insert(list_indent(lines[i]))
    } else {
        indent_levels_above(lines, i + 1, end, base)
    }
}

pub proof fn lemma_levels_props(lines: Seq<Seq<char>>, i: int, end: int, base: int)
    requires
        0 <= i <= end <= lines.len(),
    ensures
        indent_levels_above(lines, i, end, base).finite(),
        forall|x: int|
            indent_levels_above(lines, i, end, base).contains(x) <==> exists|m: int|
                i <= m < end && list_indent(#[trigger] lines[m]) == x && x > base,
    decreases end - i,
{
    if i < end {
        lemma_levels_props(lines, i + 1, end, base);
    }
}

proof fn lemma_levels_subset(
    lines: Seq<Seq<char>>,
    i1: int,
    end1: int,
    base1: int,
    i2: int,
    end2: int,
    base2: int,
)
    requires
        0 <= i2 <= i1 <= end1 <= end2 <= lines.len(),
        base2 <= base1,
    ensures
        indent_levels_above(lines, i1, end1, base1) <= indent_levels_above(
            lines,
            i2,
            end2,
            base2,
        ),
        indent_levels_above(lines, i1, end1, base1).len() <= indent_levels_above(
            lines,
            i2,
            end2,
            base2,
        ).len(),
{
    lemma_levels_props(lines, i1, end1, base1);
    lemma_levels_props(lines, i2, end2, base2);
    let s1 = indent_levels_above(lines, i1, end1, base1);
    let s2 = indent_levels_above(lines, i2, end2, base2);
    assert forall|x: int| s1.contains(x) implies s2.contains(x) by {
        let m = choose|m: int| i1 <= m < end1 && list_indent(#[trigger] lines[m]) == x && x
            > base1;
        assert(i2 <= m < end2 && list_indent(lines[m]) == x && x > base2);
    }
    vstd::set_lib::lemma_len_subset(s1, s2);
}

/// A list container is one level deeper than its items.
pub proof fn lemma_list_node_depth(kind: ListPattern, items: Seq<NodeV>)
    ensures
        node_depth(list_node(kind, items)) == 1 + seq_depth(items),
{
    let n = list_node(kind, items);
    assert(n == (NodeV::Exist {
        tag: list_token(kind),
        content: ContentV::ElementNodes { value: items },
        children: Box::new(NodeV::Nil),
    }));
    assert(node_depth(NodeV::Nil) == 0);
    assert(list_token(kind) == Token::Ul || list_token(kind) == Token::Ol);
    assert(node_depth(n) == 1 + nat_max(seq_depth(items), 0));
}

/// A list item is exactly as deep as its nested list.
pub proof fn lemma_li_node_depth(text: Seq<char>, child: NodeV)
    ensures
        node_depth(li_node(text, child)) == node_depth(child),
{
    let n = li_node(text, child);
    assert(n == (NodeV::Exist {
        tag: Token::Li,
        content: ContentV::PlainText { value: text },
        children: Box::new(child),
    }));
    assert(node_depth(n) == 0 + nat_max(0, node_depth(child)));
}

proof fn lemma_chain_depth(lines: Seq<Seq<char>>, j: int, end: int, base: int, kind: ListPattern)
    requires
        0 <= j <= end <= lines.len(),
    ensures
        node_depth(list_chain(lines, j, end, base, kind).0) <= indent_levels_above(
            lines,
            j,
            end,
            base,
        ).len(),
    decreases end - j, 1int,
{
    lemma_levels_props(lines, j, end, base);
    if 0 <= j && j < end && end <= lines.len() && list_indent(lines[j]) > base {
        let iw = list_indent(lines[j]);
        lemma_chunk_end(lines, j + 1, end, iw);
        let e0 = chunk_end(lines, j + 1, end, iw);
        let e = if j < e0 && e0 <= end {
            e0
        } else {
            j + 1
        };
        lemma_items_depth(lines, j, e, iw, kind);
        lemma_chain_depth(lines, e, end, base, kind);
        let node = list_node(kind, list_items(lines, j, e, iw, kind));
        lemma_list_node_depth(kind, list_items(lines, j, e, iw, kind));
        assert(node_depth(node) == 1 + seq_depth(list_items(lines, j, e, iw, kind)));
        let inner = indent_levels_above(lines, j, e, iw);
        let outer = indent_levels_above(lines, j, end, base);
        lemma_levels_props(lines, j, e, iw);
        assert(!inner.contains(iw));
        assert(outer.contains(iw));
        lemma_levels_subset(lines, j, e, iw, j, end, base);
        assert forall|x: int| inner.insert(iw).contains(x) implies outer.contains(x) by {
            if x != iw {
                assert(inner.contains(x));
            }
        }
        vstd::set_lib::lemma_len_subset(inner.insert(iw), outer);
        assert(inner.insert(iw).len() == inner.len() + 1);
        lemma_levels_subset(lines, e, end, base, j, end, base);
    }
}

proof fn lemma_items_depth(lines: Seq<Seq<char>>, i: int, end: int, base: int, kind: ListPattern)
    requires
        0 <= i <= end <= lines.len(),
    ensures
        seq_depth(list_items(lines, i, end, base, kind)) <= indent_levels_above(
            lines,
            i,
            end,
            base,
        ).len(),
    decreases end - i, 0int,
{
    if 0 <= i && i < end && end <= lines.len() {
        let r = list_chain(lines, i + 1, end, base, kind);
        lemma_chain_bounds(lines, i + 1, end, base, kind);
        lemma_chain_depth(lines, i + 1, end, base, kind);
        let next = if i < r.1 && r.1 <= end {
            r.1
        } else {
            i + 1
        };
        lemma_items_depth(lines, next, end, base, kind);
        let li = li_node(inline_spec(list_content(kind, lines[i])), r.0);
        lemma_li_node_depth(inline_spec(list_content(kind, lines[i])), r.0);
        assert(node_depth(li) == node_depth(r.0));
        let whole = list_items(lines, i, end, base, kind);
        assert(whole.first() == li);
        assert(whole.drop_first() =~= list_items(lines, next, end, base, kind));
        lemma_levels_subset(lines, i + 1, end, base, i, end, base);
        lemma_levels_subset(lines, next, end, base, i, end, base);
    }
}

/// The nesting invariant, upper-bound direction: the tree built from
/// a list run never nests deeper than one level for the run itself
/// plus one for each distinct indent deeper than the baseline that
/// the run shows.
pub proof fn lemma_list_nesting_depth(
    lines: Seq<Seq<char>>,
    i: int,
    end: int,
    base: int,
    kind: ListPattern,
)
    requires
        0 <= i <= end <= lines.len(),
    ensures
        node_depth(list_node(kind, list_items(lines, i, end, base, kind))) <= 1
            + indent_levels_above(lines, i, end, base).len(),
{
    lemma_items_depth(lines, i, end, base, kind);
    lemma_levels_props(lines, i, end, base);
    lemma_list_node_depth(kind, list_items(lines, i, end, base, kind));
}

proof fn lemma_flat_items_depth(
    lines: Seq<Seq<char>>,
    i: int,
    end: int,
    base: int,
    kind: ListPattern,
)
    requires
        0 <= i <= end <= lines.len(),
        forall|m: int| i <= m < end ==> list_indent(#[trigger] lines[m]) <= base,
    ensures
        seq_depth(list_items(lines, i, end, base, kind)) == 0,
    decreases end - i,
{
    if 0 <= i && i < end && end <= lines.len() {
        let r = list_chain(lines, i + 1, end, base, kind);
        lemma_chain_bounds(lines, i + 1, end, base, kind);
        assert(r == (NodeV::Nil, i + 1));
        lemma_flat_items_depth(lines, i + 1, end, base, kind);
        let li = li_node(inline_spec(list_content(kind, lines[i])), NodeV::Nil);
        lemma_li_node_depth(inline_spec(list_content(kind, lines[i])), NodeV::Nil);
        let whole = list_items(lines, i, end, base, kind);
        assert(whole.first() == li);
        assert(whole.drop_first() =~= list_items(lines, i + 1, end, base, kind));
    }
}

/// The nesting invariant in the flat case, where the bound is met
/// exactly: a run whose lines all sit at the baseline builds a tree
/// of depth exactly one, and shows no indent level above the
/// baseline.
pub proof fn lemma_flat_run_depth(
    lines: Seq<Seq<char>>,
    i: int,
    end: int,
    base: int,
    kind: ListPattern,
)
    requires
        0 <= i <= end <= lines.len(),
        forall|m: int| i <= m < end ==> list_indent(#[trigger] lines[m]) <= base,
    ensures
        node_depth(list_node(kind, list_items(lines, i, end, base, kind))) == 1,
        indent_levels_above(lines, i, end, base).len() == 0,
{
    lemma_flat_items_depth(lines, i, end, base, kind);
    lemma_list_node_depth(kind, list_items(lines, i, end, base, kind));
    lemma_levels_props(lines, i, end, base);
    let s = indent_levels_above(lines, i, end, base);
    assert(s =~= Set::<int>::empty());
}

/// The larger of two positions.
pub open spec fn int_max(a: int, b: int) -> int {
    if a >= b {
        a
    } else {
        b
    }
}

/// A strictly increasing ladder of indent levels.
pub open spec fn strictly_inc(lad: Seq<int>) -> bool {
    forall|d1: int, d2: int| 0 <= d1 < d2 < lad.len() ==> lad[d1] < lad[d2]
}

/// The first position of `x` on the ladder at `d` or later, or the
/// ladder's length when `x` is not a level.
pub open spec fn lad_idx_from(lad: Seq<int>, x: int, d: int) -> int
    decreases lad.len() - d,
{
    if !(0 <= d && d < lad.len()) {
        lad.len() as int
    } else if lad[d] == x {
        d
    } else {
        lad_idx_from(lad, x, d + 1)
    }
}

/// The position of `x` on the ladder, or the ladder's length when `x`
/// is not a level.
pub open spec fn lad_idx(lad: Seq<int>, x: int) -> int {
    lad_idx_from(lad, x, 0)
}

proof fn lemma_lad_idx_from(lad: Seq<int>, x: int, d: int)
    requires
        0 <= d <= lad.len(),
    ensures
        d <= lad_idx_from(lad, x, d) <= lad.len(),
        lad_idx_from(lad, x, d) < lad.len() ==> lad[lad_idx_from(lad, x, d)] == x,
        forall|d2: int| d <= d2 < lad_idx_from(lad, x, d) ==> lad[d2] != x,
    decreases lad.len() - d,
{
    if 0 <= d && d < lad.len() && lad[d] != x {
        lemma_lad_idx_from(lad, x, d + 1);
    }
}

pub proof fn lemma_lad_idx(lad: Seq<int>, x: int)
    requires
        strictly_inc(lad),
    ensures
        0 <= lad_idx(lad, x) <= lad.len(),
        lad_idx(lad, x) < lad.len() ==> lad[lad_idx(lad, x)] == x,
        forall|d: int| 0 <= d < lad.len() && lad[d] == x ==> lad_idx(lad, x) == d,
{
    lemma_lad_idx_from(lad, x, 0);
}

/// A well-formed list run against the ladder `lad` of its indent
/// levels, read from level `b` on: the first line sits at level `b`,
/// every line sits on some level at `b` or deeper, and a line that
/// indents deeper than its predecessor steps to the very next level
/// of the ladder.
pub open spec fn ladder_run(
    lines: Seq<Seq<char>>,
    i: int,
    end: int,
    lad: Seq<int>,
    b: int,
) -> bool {
    &&& strictly_inc(lad)
    &&& 0 <= b < lad.len()
    &&& (i < end ==> list_indent(lines[i]) == lad[b])
    &&& forall|m: int|
        i <= m < end ==> exists|d: int|
            b <= d < lad.len() && list_indent(#[trigger] lines[m]) == lad[d]
    &&& forall|m: int|
        i < m < end && list_indent(#[trigger] lines[m]) > list_indent(lines[m - 1])
            ==> lad_idx(lad, list_indent(lines[m])) == lad_idx(lad, list_indent(lines[m - 1])) + 1
}

/// The deepest ladder position that the lines of `[i, end)` reach.
pub open spec fn max_idx(lines: Seq<Seq<char>>, i: int, end: int, lad: Seq<int>) -> int
    decreases end - i,
{
    if !(0 <= i && i < end) {
        0
    } else {
        int_max(lad_idx(lad, list_indent(lines[i])), max_idx(lines, i + 1, end, lad))
    }
}

proof fn lemma_max_idx_nonneg(lines: Seq<Seq<char>>, i: int, end: int, lad: Seq<int>)
    ensures
        max_idx(lines, i, end, lad) >= 0,
    decreases end - i,
{
    if 0 <= i && i < end {
        lemma_max_idx_nonneg(lines, i + 1, end, lad);
        lemma_lad_idx_from(lad, list_indent(lines[i]), 0);
    }
}

proof fn lemma_max_idx_split(lines: Seq<Seq<char>>, i: int, mid: int, end: int, lad: Seq<int>)
    requires
        0 <= i <= mid <= end,
    ensures
        max_idx(lines, i, end, lad) == int_max(
            max_idx(lines, i, mid, lad),
            max_idx(lines, mid, end, lad),
        ),
    decreases mid - i,
{
    if i == mid {
        lemma_max_idx_nonneg(lines, mid, end, lad);
    } else {
        lemma_max_idx_split(lines, i + 1, mid, end, lad);
    }
}

proof fn lemma_max_idx_ge(lines: Seq<Seq<char>>, i: int, end: int, lad: Seq<int>, m: int)
    requires
        0 <= i <= m < end,
    ensures
        max_idx(lines, i, end, lad) >= lad_idx(lad, list_indent(lines[m])),
    decreases m - i,
{
    if i < m {
        lemma_max_idx_ge(lines, i + 1, end, lad, m);
    } else {
        lemma_max_idx_nonneg(lines, i + 1, end, lad);
    }
}

proof fn lemma_max_idx_le(lines: Seq<Seq<char>>, i: int, end: int, lad: Seq<int>, x: int)
    requires
        0 <= x,
        forall|m: int| i <= m < end ==> lad_idx(lad, list_indent(#[trigger] lines[m])) <= x,
    ensures
        max_idx(lines, i, end, lad) <= x,
    decreases end - i,
{
    if 0 <= i && i < end {
        lemma_max_idx_le(lines, i + 1, end, lad, x);
    }
}

#[verifier::rlimit(100)]
proof fn lemma_ladder_items_depth(
    lines: Seq<Seq<char>>,
    i: int,
    end: int,
    lad: Seq<int>,
    b: int,
    kind: ListPattern,
)
    requires
        0 <= i <= end <= lines.len(),
        ladder_run(lines, i, end, lad, b),
    ensures
        seq_depth(list_items(lines, i, end, lad[b], kind)) == if i < end {
            max_idx(lines, i, end, lad) - b
        } else {
            0
        },
    decreases end - i,
{
    if i < end {
        let base = lad[b];
        lemma_lad_idx(lad, base);
        assert(lad_idx(lad, list_indent(lines[i])) == b);
        let whole = list_items(lines, i, end, base, kind);
        if i + 1 < end && list_indent(lines[i + 1]) > base {
            let iw = list_indent(lines[i + 1]);
            assert(lad_idx(lad, iw) == b + 1);
            let d0 = choose|d: int| b <= d < lad.len() && list_indent(lines[i + 1]) == lad[d];
            lemma_lad_idx(lad, iw);
            assert(b + 1 < lad.len() && lad[b + 1] == iw);
            let e0 = chunk_end(lines, i + 2, end, iw);
            lemma_chunk_end(lines, i + 2, end, iw);
            // The chain holds a single nested run: the line after the
            // run sits back at the base level, never between levels.
            if e0 < end {
                assert(list_indent(lines[e0]) < iw);
                let de = choose|d: int| b <= d < lad.len() && list_indent(lines[e0]) == lad[d];
                assert(de >= b + 1 ==> lad[de] >= lad[b + 1]);
                assert(de == b);
                assert(list_indent(lines[e0]) == base);
            }
            lemma_chain_bounds(lines, e0, end, base, kind);
            assert(list_chain(lines, e0, end, base, kind) == (NodeV::Nil, e0));
            let sub = list_items(lines, i + 1, e0, iw, kind);
            let node = list_node(kind, sub);
            assert(list_chain(lines, i + 1, end, base, kind) == (node, e0));
            // The nested run is itself a ladder run, one level deeper.
            assert forall|m: int| i + 1 <= m < e0 implies list_indent(#[trigger] lines[m])
                >= iw by {
                if m >= i + 2 {
                    assert(list_indent(lines[m]) >= iw);
                }
            }
            assert forall|m: int| i + 1 <= m < e0 implies exists|d: int|
                b + 1 <= d < lad.len() && list_indent(#[trigger] lines[m]) == lad[d] by {
                let d = choose|d: int| b <= d < lad.len() && list_indent(lines[m]) == lad[d];
                assert(d <= b ==> lad[d] <= lad[b]);
                assert(b + 1 <= d < lad.len() && list_indent(lines[m]) == lad[d]);
            }
            assert(ladder_run(lines, i + 1, e0, lad, b + 1));
            lemma_ladder_items_depth(lines, i + 1, e0, lad, b + 1, kind);
            lemma_list_node_depth(kind, sub);
            let li = li_node(inline_spec(list_content(kind, lines[i])), node);
            lemma_li_node_depth(inline_spec(list_content(kind, lines[i])), node);
            assert(whole.first() == li);
            assert(whole.drop_first() =~= list_items(lines, e0, end, base, kind));
            let m1 = max_idx(lines, i + 1, e0, lad);
            assert(m1 >= b + 1) by {
                lemma_max_idx_nonneg(lines, i + 2, e0, lad);
            }
            assert(node_depth(li) == 1 + (m1 - (b + 1)));
            if e0 < end {
                assert(ladder_run(lines, e0, end, lad, b));
                lemma_ladder_items_depth(lines, e0, end, lad, b, kind);
                let m2 = max_idx(lines, e0, end, lad);
                assert(m2 >= b) by {
                    lemma_max_idx_nonneg(lines, e0 + 1, end, lad);
                }
                lemma_max_idx_split(lines, i + 1, e0, end, lad);
                assert(max_idx(lines, i + 1, end, lad) == int_max(m1, m2));
                assert(seq_depth(whole) == nat_max(node_depth(li), seq_depth(whole.drop_first())));
                assert(seq_depth(whole) == int_max(m1, m2) - b);
                assert(max_idx(lines, i, end, lad) == int_max(b, int_max(m1, m2)));
            } else {
                assert(list_items(lines, e0, end, base, kind) =~= Seq::<NodeV>::empty());
                assert(seq_depth(whole) == nat_max(
                    node_depth(whole.first()),
                    seq_depth(whole.drop_first()),
                ));
                assert(seq_depth(whole.drop_first()) == 0);
                assert(seq_depth(whole) == nat_max(node_depth(li), 0));
                assert(max_idx(lines, i + 1, end, lad) == m1);
                assert(max_idx(lines, i, end, lad) == int_max(b, m1));
            }
        } else {
            lemma_chain_bounds(lines, i + 1, end, base, kind);
            assert(list_chain(lines, i + 1, end, base, kind) == (NodeV::Nil, i + 1));
            let li = li_node(inline_spec(list_content(kind, lines[i])), NodeV::Nil);
            lemma_li_node_depth(inline_spec(list_content(kind, lines[i])), NodeV::Nil);
            assert(whole.first() == li);
            assert(whole.drop_first() =~= list_items(lines, i + 1, end, base, kind));
            if i + 1 < end {
                let d = choose|d: int| b <= d < lad.len() && list_indent(lines[i + 1]) == lad[d];
                assert(d >= b + 1 ==> lad[d] >= lad[b + 1]);
                assert(d == b);
                assert(list_indent(lines[i + 1]) == base);
                assert(ladder_run(lines, i + 1, end, lad, b));
                lemma_ladder_items_depth(lines, i + 1, end, lad, b, kind);
                let m2 = max_idx(lines, i + 1, end, lad);
                assert(m2 >= b) by {
                    lemma_max_idx_nonneg(lines, i + 2, end, lad);
                }
                assert(seq_depth(whole) == nat_max(0, seq_depth(whole.drop_first())));
                assert(max_idx(lines, i, end, lad) == int_max(b, m2));
            } else {
                assert(list_items(lines, i + 1, end, base, kind) =~= Seq::<NodeV>::empty());
                assert(seq_depth(whole) == nat_max(
                    node_depth(whole.first()),
                    seq_depth(whole.drop_first()),
                ));
                assert(seq_depth(whole.drop_first()) == 0);
                assert(seq_depth(whole) == nat_max(node_depth(li), 0));
                assert(max_idx(lines, i + 1, end, lad) == 0);
                assert(max_idx(lines, i, end, lad) == int_max(b, 0));
            }
        }
    }
}

/// The nesting invariant, in full: a well-formed list run — its lines
/// sitting on the ladder of its distinct strictly-increasing indent
/// levels, the first line at the base level, each deeper line
/// stepping to the next level — that shows every level of the ladder
/// builds a tree whose list-nesting depth is exactly the number of
/// levels.
pub proof fn lemma_list_nesting_depth_exact(
    lines: Seq<Seq<char>>,
    i: int,
    end: int,
    lad: Seq<int>,
    kind: ListPattern,
)
    requires
        0 <= i < end <= lines.len(),
        ladder_run(lines, i, end, lad, 0),
        forall|d: int|
            0 <= d < lad.len() ==> exists|m: int|
                i <= m < end && list_indent(lines[m]) == #[trigger] lad[d],
    ensures
        node_depth(list_node(kind, list_items(lines, i, end, lad[0], kind))) == lad.len(),
{
    lemma_ladder_items_depth(lines, i, end, lad, 0, kind);
    lemma_list_node_depth(kind, list_items(lines, i, end, lad[0], kind));
    let top = lad.len() - 1;
    let m = choose|m: int| i <= m < end && list_indent(lines[m]) == lad[top];
    lemma_lad_idx(lad, list_indent(lines[m]));
    assert(lad_idx(lad, list_indent(lines[m])) == top);
    lemma_max_idx_ge(lines, i, end, lad, m);
    assert forall|m2: int| i <= m2 < end implies lad_idx(
        lad,
        list_indent(#[trigger] lines[m2]),
    ) <= top by {
        let d = choose|d: int| 0 <= d < lad.len() && list_indent(lines[m2]) == lad[d];
        lemma_lad_idx(lad, list_indent(lines[m2]));
    }
    lemma_max_idx_le(lines, i, end, lad, top);
    assert(max_idx(lines, i, end, lad) == top);
}

/// Decides whether a line is a bulleted list line.
pub fn is_simple_list(input: &String) -> (r: bool)
    ensures
        r == is_simple_spec(input@),
{
    let s = input.as_str();
    let n = s.unicode_len();
    let w = skip_ws(s, 0);
    proof {
        lemma_skip_ws_from(s@, 0);
    }
    if w < n && n - w > 2 {
        let c = s.get_char(w);
        if c == '*' || c == '-' {
            let c2 = s.get_char(w + 1);
            return crate::util::is_ws_char(c2);
        }
    }
    false
}

/// Decides whether a line is a numbered list line.
pub fn is_number_list(input: &String) -> (r: bool)
    ensures
        r == is_number_spec(input@),
{
    let s = input.as_str();
    let n = s.unicode_len();
    let w = skip_ws(s, 0);
    proof {
        lemma_skip_ws_from(s@, 0);
    }
    let d = skip_digits(s, w);
    proof {
        lemma_skip_digits_from(s@, w as int);
    }
    if d > w && d < n && n - d > 2 {
        if s.get_char(d) == '.' {
            let c2 = s.get_char(d + 1);
            return crate::util::is_ws_char(c2);
        }
    }
    false
}

/// The indent of a line.
fn line_indent(input: &String) -> (r: usize)
    ensures
        r as int == list_indent(input@),
{
    skip_ws(input.as_str(), 0)
}

/// The text of a list line after its marker.
fn list_content_of(input: &String, kind: ListPattern) -> (r: String)
    requires
        list_matches(kind, input@),
    ensures
        r@ == list_content(kind, input@),
{
    let s = input.as_str();
    let n = s.unicode_len();
    let w = skip_ws(s, 0);
    proof {
        lemma_skip_ws_from(s@, 0);
    }
    let start: usize = match kind {
        ListPattern::SimpleList => w + 2,
        ListPattern::NumberList => {
            let d = skip_digits(s, w);
            proof {
                lemma_skip_digits_from(s@, w as int);
            }
            d + 2
        },
    };
    let r = s.substring_char(start, n).to_owned();
    proof {
        assert(r@ =~= input@.skip(start as int));
    }
    r
}

/// Builds the list tree of the run `input[start..end]` at baseline
/// `base`.
pub(crate) fn parse_list_range(
    input: &Vec<String>,
    start: usize,
    end: usize,
    base: usize,
    kind: ListPattern,
) -> (r: ElementNode)
    requires
        start <= end <= input.len(),
        forall|k: int| start <= k < end ==> list_matches(kind, input.deep_view()[k]),
    ensures
        node_view(r) == list_node(
            kind,
            list_items(input.deep_view(), start as int, end as int, base as int, kind),
        ),
    decreases end - start,
{
    let ghost dv = input.deep_view();
    let mut items: Vec<ElementNode> = Vec::new();
    let mut at: usize = start;
    proof {
        assert(nodes_view(items@) =~= Seq::<NodeV>::empty());
        assert(list_items(dv, start as int, end as int, base as int, kind) =~= nodes_view(items@)
            + list_items(dv, start as int, end as int, base as int, kind));
    }
    while at < end
        invariant
            start <= at <= end,
            end <= input.len(),
            dv == input.deep_view(),
            forall|k: int| start <= k < end ==> list_matches(kind, dv[k]),
            list_items(dv, start as int, end as int, base as int, kind) == nodes_view(items@)
                + list_items(dv, at as int, end as int, base as int, kind),
        decreases end - at,
    {
        let li_pos = at;
        proof {
            assert(dv[li_pos as int] == input[li_pos as int]@);
        }
        let content = list_content_of(&input[li_pos], kind);
        let text = inline_parse(&content);
        let mut child: ElementNode = ElementNode::Nil;
        at = at + 1;
        let ghost j0 = at as int;
        loop
            invariant
                start < at <= end,
                end <= input.len(),
                j0 <= at as int,
                li_pos + 1 == j0,
                start <= li_pos < end,
                dv == input.deep_view(),
                forall|k: int| start <= k < end ==> list_matches(kind, dv[k]),
                list_chain(dv, j0, end as int, base as int, kind) == (if at < end && list_indent(
                    dv[at as int],
                ) > base {
                    list_chain(dv, at as int, end as int, base as int, kind)
                } else {
                    (node_view(child), at as int)
                }),
            ensures
                start < at <= end,
                dv == input.deep_view(),
                list_chain(dv, j0, end as int, base as int, kind) == (
                    node_view(child),
                    at as int,
                ),
            decreases end - at,
        {
            if !(at < end) {
                break;
            }
            let ind = line_indent(&input[at]);
            proof {
                assert(dv[at as int] == input[at as int]@);
            }
            if !(ind > base) {
                break;
            }
            let iw = ind;
            let cs = at;
            at = at + 1;
            loop
                invariant
                    cs + 1 <= at <= end,
                    end <= input.len(),
                    dv == input.deep_view(),
                    iw as int == list_indent(dv[cs as int]),
                    forall|m: int| cs + 1 <= m < at as int ==> list_indent(dv[m]) >= iw,
                ensures
                    cs + 1 <= at <= end,
                    at as int == chunk_end(dv, cs + 1, end as int, iw as int),
                decreases end - at,
            {
                if !(at < end) {
                    proof {
                        lemma_chunk_end(dv, cs + 1, end as int, iw as int);
                    }
                    break;
                }
                let ind2 = line_indent(&input[at]);
                proof {
                    assert(dv[at as int] == input[at as int]@);
                }
                if !(ind2 >= iw) {
                    proof {
                        lemma_chunk_end(dv, cs + 1, end as int, iw as int);
                    }
                    break;
                }
                at = at + 1;
            }
            let sub = parse_list_range(input, cs, at, iw, kind);
            child = sub;
            proof {
                lemma_chain_bounds(dv, at as int, end as int, base as int, kind);
                lemma_chunk_end(dv, cs + 1, end as int, iw as int);
            }
        }
        let li = ElementNode::new(Token::Li, Content::PlainText { value: text }, Box::new(child));
        let ghost old_items = items@;
        items.push(li);
        proof {
            lemma_chain_bounds(dv, j0, end as int, base as int, kind);
            crate::node::lemma_nodes_view_push(old_items, li);
            let r = list_chain(dv, j0, end as int, base as int, kind);
            assert(node_view(li) == li_node(
                inline_spec(list_content(kind, dv[li_pos as int])),
                r.0,
            ));
            assert(list_items(dv, li_pos as int, end as int, base as int, kind) == seq![
                node_view(li),
            ] + list_items(dv, at as int, end as int, base as int, kind));
            assert(nodes_view(old_items) + (seq![node_view(li)] + list_items(
                dv,
                at as int,
                end as int,
                base as int,
                kind,
            )) =~= nodes_view(items@) + list_items(dv, at as int, end as int, base as int, kind));
        }
    }
    proof {
        assert(list_items(dv, end as int, end as int, base as int, kind) =~= Seq::<NodeV>::empty());
        assert(nodes_view(items@) + Seq::<NodeV>::empty() =~= nodes_view(items@));
    }
    let tok = match kind {
        ListPattern::SimpleList => Token::Ul,
        ListPattern::NumberList => Token::Ol,
    };
    ElementNode::new(tok, Content::ElementNodes { value: items }, Box::new(ElementNode::Nil))
}

/// Builds the list tree of a whole contiguous run of list lines.
pub fn parse_list(input: Vec<String>, pattern: ListPattern, now_indent: usize) -> (r: ElementNode)
    requires
        forall|k: int| 0 <= k < input.deep_view().len() ==> list_matches(
            pattern,
            input.deep_view()[k],
        ),
    ensures
        node_view(r) == list_node(
            pattern,
            list_items(
                input.deep_view(),
                0,
                input.deep_view().len() as int,
                now_indent as int,
                pattern,
            ),
        ),
{
    parse_list_range(&input, 0, input.len(), now_indent, pattern)
}

} // verus!
