//! The block dispatcher: scans the line sequence once, delegates
//! contiguous runs to the list, quote, code-block and table builders,
//! and falls back to heading/paragraph classification for any other
//! line.
use crate::code_block::{escape_lines, is_code_block_start, is_fence_spec, parse_code_block};
use crate::inline::{inline_parse, inline_spec};
use crate::list::{
    is_number_list,
    is_number_spec,
    is_simple_list,
    is_simple_spec,
    list_items,
    list_matches,
    list_node,
    parse_list_range,
    ListPattern,
};
use crate::node::{
    lemma_nodes_view_push,
    node_view,
    nodes_view,
    Content,
    ContentV,
    ElementNode,
    NodeV,
    Table,
    TableV,
    Token,
};
use crate::quote::{
    enclose_lines,
    enclose_quote,
    is_quote_block,
    is_quote_spec,
    lemma_enclose_line_len,
};
use crate::table::{
    head_cells,
    head_info,
    is_table_block_start,
    is_table_spec,
    lemma_table_body_count,
    parse_table,
    row_aligns,
    table_body_count,
    table_body_rows,
};
use crate::util::subvec_strings_range;
use vstd::prelude::*;

verus! {

/// The total number of characters held by a sequence of lines.
pub open spec fn total_chars(v: Seq<Seq<char>>) -> nat
    decreases v.len(),
{
    if v.len() == 0 {
        0
    } else {
        v.first().len() + total_chars(v.drop_first())
    }
}

pub proof fn lemma_total_chars_split(v: Seq<Seq<char>>, k: int)
    requires
        0 <= k <= v.len(),
    ensures
        total_chars(v) == total_chars(v.subrange(0, k)) + total_chars(v.skip(k)),
    decreases k,
{
    if k == 0 {
        assert(v.subrange(0, 0) =~= Seq::<Seq<char>>::empty());
        assert(v.skip(0) =~= v);
    } else {
        lemma_total_chars_split(v.drop_first(), k - 1);
        assert(v.subrange(0, k).drop_first() =~= v.drop_first().subrange(0, k - 1));
        assert(v.skip(k) =~= v.drop_first().skip(k - 1));
        assert(v.subrange(0, k).first() == v.first());
        assert(v.subrange(0, k).len() == k);
    }
}

pub proof fn lemma_total_chars_subrange(v: Seq<Seq<char>>, a: int, b: int)
    requires
        0 <= a <= b <= v.len(),
    ensures
        total_chars(v.subrange(a, b)) <= total_chars(v),
{
    lemma_total_chars_split(v, a);
    lemma_total_chars_split(v.skip(a), b - a);
    assert(v.skip(a).subrange(0, b - a) =~= v.subrange(a, b));
}

proof fn lemma_total_enclose_le(w: Seq<Seq<char>>)
    ensures
        total_chars(enclose_lines(w)) <= total_chars(w),
    decreases w.len(),
{
    if w.len() > 0 {
        lemma_total_enclose_le(w.drop_first());
        lemma_enclose_line_len(w.first());
        assert(enclose_lines(w).drop_first() =~= enclose_lines(w.drop_first()));
        assert(enclose_lines(w).first() == crate::quote::enclose_line(w.first()));
    } else {
        assert(enclose_lines(w).len() == 0);
    }
}

pub proof fn lemma_total_enclose_lt(w: Seq<Seq<char>>)
    requires
        w.len() > 0,
        is_quote_spec(w.first()),
    ensures
        total_chars(enclose_lines(w)) < total_chars(w),
{
    lemma_total_enclose_le(w.drop_first());
    lemma_enclose_line_len(w.first());
    assert(enclose_lines(w).drop_first() =~= enclose_lines(w.drop_first()));
    assert(enclose_lines(w).first() == crate::quote::enclose_line(w.first()));
    assert(enclose_lines(w).len() > 0);
}

/// The first index at `i` or later whose line is not a list line of
/// the given kind, or the end of the sequence.
pub open spec fn list_run_end(v: Seq<Seq<char>>, i: int, kind: ListPattern) -> int
    decreases v.len() - i,
{
    if !(0 <= i && i < v.len()) {
        v.len() as int
    } else if !list_matches(kind, v[i]) {
        i
    } else {
        list_run_end(v, i + 1, kind)
    }
}

pub proof fn lemma_list_run_end(v: Seq<Seq<char>>, i: int, kind: ListPattern)
    requires
        0 <= i <= v.len(),
    ensures
        i <= list_run_end(v, i, kind) <= v.len(),
        list_run_end(v, i, kind) < v.len() ==> !list_matches(kind, v[list_run_end(v, i, kind)]),
        forall|m: int| i <= m < list_run_end(v, i, kind) ==> list_matches(kind, v[m]),
    decreases v.len() - i,
{
    if 0 <= i && i < v.len() && list_matches(kind, v[i]) {
        lemma_list_run_end(v, i + 1, kind);
    }
}

/// The first index at `i` or later whose line is empty, or the end of
/// the sequence.
pub open spec fn quote_run_end(v: Seq<Seq<char>>, i: int) -> int
    decreases v.len() - i,
{
    if !(0 <= i && i < v.len()) {
        v.len() as int
    } else if v[i].len() == 0 {
        i
    } else {
        quote_run_end(v, i + 1)
    }
}

pub proof fn lemma_quote_run_end(v: Seq<Seq<char>>, i: int)
    requires
        0 <= i <= v.len(),
    ensures
        i <= quote_run_end(v, i) <= v.len(),
        quote_run_end(v, i) < v.len() ==> v[quote_run_end(v, i)].len() == 0,
        forall|m: int| i <= m < quote_run_end(v, i) ==> v[m].len() != 0,
    decreases v.len() - i,
{
    if 0 <= i && i < v.len() && v[i].len() != 0 {
        lemma_quote_run_end(v, i + 1);
    }
}

/// The first index at `i` or later whose line is a fence, or the end
/// of the sequence.
pub open spec fn fence_close(v: Seq<Seq<char>>, i: int) -> int
    decreases v.len() - i,
{
    if !(0 <= i && i < v.len()) {
        v.len() as int
    } else if is_fence_spec(v[i]) {
        i
    } else {
        fence_close(v, i + 1)
    }
}

pub proof fn lemma_fence_close(v: Seq<Seq<char>>, i: int)
    requires
        0 <= i <= v.len(),
    ensures
        i <= fence_close(v, i) <= v.len(),
        fence_close(v, i) < v.len() ==> is_fence_spec(v[fence_close(v, i)]),
        forall|m: int| i <= m < fence_close(v, i) ==> !is_fence_spec(v[m]),
    decreases v.len() - i,
{
    if 0 <= i && i < v.len() && !is_fence_spec(v[i]) {
        lemma_fence_close(v, i + 1);
    }
}

/// The number of `#` characters before the first space of `s`,
/// scanning from `i`.
pub open spec fn count_hashes(s: Seq<char>, i: int) -> int
    decreases s.len() - i,
{
    if !(0 <= i && i < s.len()) {
        0
    } else if s[i] == ' ' {
        0
    } else if s[i] == '#' {
        1 + count_hashes(s, i + 1)
    } else {
        count_hashes(s, i + 1)
    }
}

/// The heading kind of a `#` count; any count outside 1 through 6 is
/// a paragraph.
pub open spec fn heading_tag(k: int) -> Token {
    if k == 1 {
        Token::H1
    } else if k == 2 {
        Token::H2
    } else if k == 3 {
        Token::H3
    } else if k == 4 {
        Token::H4
    } else if k == 5 {
        Token::H5
    } else if k == 6 {
        Token::H6
    } else {
        Token::P
    }
}

/// A leaf node holding inline-substituted text.
pub open spec fn text_node(tag: Token, text: Seq<char>) -> NodeV {
    NodeV::Exist {
        tag,
        content: ContentV::PlainText { value: text },
        children: Box::new(NodeV::Nil),
    }
}

/// The heading/paragraph fallback for one line: a line whose first
/// character is `#` is classified by its `#` count before the first
/// space and loses that many characters plus one; any other line is a
/// paragraph.  The text runs through inline substitution.
pub open spec fn parse_line_spec(s: Seq<char>) -> NodeV {
    if s.len() == 0 || s[0] != '#' {
        text_node(Token::P, inline_spec(s))
    } else {
        let k = count_hashes(s, 0);
        let start = if k + 1 <= s.len() {
            k + 1
        } else {
            s.len() as int
        };
        text_node(heading_tag(k), inline_spec(s.skip(start)))
    }
}

/// The lines of a code block joined with a literal line-break tag.
pub open spec fn join_br(v: Seq<Seq<char>>) -> Seq<char>
    decreases v.len(),
{
    if v.len() == 0 {
        Seq::empty()
    } else if v.len() == 1 {
        v.first()
    } else {
        v.first() + "<br />"@ + join_br(v.drop_first())
    }
}

/// A table block starting at line `i` is well formed: an alignment
/// row follows, it yields at least one alignment per header cell, and
/// every body row has exactly the header's width.
pub open spec fn table_ok_at(v: Seq<Seq<char>>, i: int) -> bool {
    &&& i + 2 <= v.len()
    &&& v[i + 1].len() >= 1
    &&& row_aligns(v[i + 1]).len() >= head_cells(v[i]).len()
    &&& forall|r: int|
        0 <= r < table_body_rows(v.skip(i + 2)).len() ==> (#[trigger] table_body_rows(
            v.skip(i + 2),
        )[r]).len() == head_cells(v[i]).len()
}

/// The table node of a well-formed table block starting at line `i`.
pub open spec fn table_node_spec(v: Seq<Seq<char>>, i: int) -> NodeV {
    NodeV::Exist {
        tag: Token::Table,
        content: ContentV::Table {
            value: TableV {
                head: head_info(head_cells(v[i]), row_aligns(v[i + 1])),
                body: table_body_rows(v.skip(i + 2)),
            },
        },
        children: Box::new(NodeV::Nil),
    }
}

/// The document nodes built from the lines of `v` at cursor `i` and
/// onward.  Classifiers are tried in a fixed priority order:
/// bulleted list, numbered list, quote, code fence, table; any other
/// line is a heading or paragraph.
pub open spec fn parse_spec_at(v: Seq<Seq<char>>, i: int) -> Seq<NodeV>
    decreases total_chars(v), v.len() - i,
    via parse_spec_at_dec
{
    if !(0 <= i && i < v.len()) {
        Seq::empty()
    } else {
        let l0 = v[i];
        if is_simple_spec(l0) {
            let k0 = list_run_end(v, i, ListPattern::SimpleList);
            let k = if i < k0 && k0 <= v.len() {
                k0
            } else {
                i + 1
            };
            seq![
                list_node(
                    ListPattern::SimpleList,
                    list_items(v, i, k, 0, ListPattern::SimpleList),
                ),
            ] + parse_spec_at(v, k)
        } else if is_number_spec(l0) {
            let k0 = list_run_end(v, i, ListPattern::NumberList);
            let k = if i < k0 && k0 <= v.len() {
                k0
            } else {
                i + 1
            };
            seq![
                list_node(
                    ListPattern::NumberList,
                    list_items(v, i, k, 0, ListPattern::NumberList),
                ),
            ] + parse_spec_at(v, k)
        } else if is_quote_spec(l0) {
            let k0 = quote_run_end(v, i);
            let k = if i < k0 && k0 <= v.len() {
                k0
            } else {
                i + 1
            };
            let enclosed = enclose_lines(v.subrange(i, k));
            let nxt = if k + 1 <= v.len() {
                k + 1
            } else {
                v.len() as int
            };
            seq![
                NodeV::Exist {
                    tag: Token::Blockquote,
                    content: ContentV::ElementNodes { value: parse_spec_at(enclosed, 0) },
                    children: Box::new(NodeV::Nil),
                },
            ] + parse_spec_at(v, nxt)
        } else if is_fence_spec(l0) {
            let j0 = fence_close(v, i + 1);
            let j = if i < j0 && j0 <= v.len() {
                j0
            } else {
                v.len() as int
            };
            let node = text_node(Token::Code, join_br(escape_lines(v.subrange(i + 1, j))));
            if j < v.len() {
                seq![node] + parse_spec_at(v, j + 1)
            } else {
                seq![node]
            }
        } else if is_table_spec(l0) && table_ok_at(v, i) {
            let cnt0 = table_body_count(v.skip(i + 2));
            let cnt = if 0 <= cnt0 && cnt0 <= v.len() - i - 2 {
                cnt0
            } else {
                0
            };
            seq![table_node_spec(v, i)] + parse_spec_at(v, i + 2 + cnt)
        } else {
            seq![parse_line_spec(l0)] + parse_spec_at(v, i + 1)
        }
    }
}

/// A leaf text node of a plain-text kind is well formed.
proof fn lemma_wf_text_node(tag: Token, text: Seq<char>)
    requires
        crate::node::content_matches_tag(tag, ContentV::PlainText { value: text }),
    ensures
        crate::node::wf_node(text_node(tag, text)),
{
    assert(text_node(tag, text) == (NodeV::Exist {
        tag,
        content: ContentV::PlainText { value: text },
        children: Box::new(NodeV::Nil),
    }));
    assert(crate::node::wf_content(ContentV::PlainText { value: text }));
    assert(crate::node::wf_node(NodeV::Nil));
}

/// Every tree the dispatcher builds is well formed: in particular,
/// every table node it emits has body rows exactly as wide as its
/// header.
#[verifier::rlimit(100)]
pub proof fn lemma_parse_wf(v: Seq<Seq<char>>, i: int)
    requires
        0 <= i <= v.len(),
    ensures
        crate::node::wf_nodes(parse_spec_at(v, i)),
    decreases total_chars(v), v.len() - i,
{
    if 0 <= i && i < v.len() {
        let l0 = v[i];
        let whole = parse_spec_at(v, i);
        if is_simple_spec(l0) {
            let k0 = list_run_end(v, i, ListPattern::SimpleList);
            lemma_list_run_end(v, i, ListPattern::SimpleList);
            let k = if i < k0 && k0 <= v.len() {
                k0
            } else {
                i + 1
            };
            crate::list::lemma_list_node_wf(v, i, k, 0, ListPattern::SimpleList);
            lemma_parse_wf(v, k);
            let node = list_node(
                ListPattern::SimpleList,
                list_items(v, i, k, 0, ListPattern::SimpleList),
            );
            crate::node::lemma_wf_cons(node, parse_spec_at(v, k));
            assert(whole == seq![node] + parse_spec_at(v, k));
        } else if is_number_spec(l0) {
            let k0 = list_run_end(v, i, ListPattern::NumberList);
            lemma_list_run_end(v, i, ListPattern::NumberList);
            let k = if i < k0 && k0 <= v.len() {
                k0
            } else {
                i + 1
            };
            crate::list::lemma_list_node_wf(v, i, k, 0, ListPattern::NumberList);
            lemma_parse_wf(v, k);
            let node = list_node(
                ListPattern::NumberList,
                list_items(v, i, k, 0, ListPattern::NumberList),
            );
            crate::node::lemma_wf_cons(node, parse_spec_at(v, k));
            assert(whole == seq![node] + parse_spec_at(v, k));
        } else if is_quote_spec(l0) {
            let k0 = quote_run_end(v, i);
            lemma_quote_run_end(v, i);
            let k = if i < k0 && k0 <= v.len() {
                k0
            } else {
                i + 1
            };
            let enclosed = enclose_lines(v.subrange(i, k));
            lemma_total_chars_subrange(v, i, k);
            assert(v.subrange(i, k).first() == v[i]);
            lemma_total_enclose_lt(v.subrange(i, k));
            lemma_parse_wf(enclosed, 0);
            let nxt = if k + 1 <= v.len() {
                k + 1
            } else {
                v.len() as int
            };
            lemma_parse_wf(v, nxt);
            let node = NodeV::Exist {
                tag: Token::Blockquote,
                content: ContentV::ElementNodes { value: parse_spec_at(enclosed, 0) },
                children: Box::new(NodeV::Nil),
            };
            assert(crate::node::wf_content(
                ContentV::ElementNodes { value: parse_spec_at(enclosed, 0) },
            ));
            assert(crate::node::wf_node(NodeV::Nil));
            assert(crate::node::wf_node(node));
            crate::node::lemma_wf_cons(node, parse_spec_at(v, nxt));
            assert(whole == seq![node] + parse_spec_at(v, nxt));
        } else if is_fence_spec(l0) {
            let j0 = fence_close(v, i + 1);
            lemma_fence_close(v, i + 1);
            let j = if i < j0 && j0 <= v.len() {
                j0
            } else {
                v.len() as int
            };
            let node = text_node(Token::Code, join_br(escape_lines(v.subrange(i + 1, j))));
            lemma_wf_text_node(Token::Code, join_br(escape_lines(v.subrange(i + 1, j))));
            assert(crate::node::wf_node(node));
            if j < v.len() {
                lemma_parse_wf(v, j + 1);
                crate::node::lemma_wf_cons(node, parse_spec_at(v, j + 1));
                assert(whole == seq![node] + parse_spec_at(v, j + 1));
            } else {
                crate::node::lemma_wf_cons(node, Seq::<NodeV>::empty());
                assert(whole == seq![node]);
                assert(seq![node] =~= seq![node] + Seq::<NodeV>::empty());
            }
        } else if is_table_spec(l0) && table_ok_at(v, i) {
            let cnt0 = table_body_count(v.skip(i + 2));
            lemma_table_body_count(v.skip(i + 2));
            let cnt = if 0 <= cnt0 && cnt0 <= v.len() - i - 2 {
                cnt0
            } else {
                0
            };
            let tv = TableV {
                head: head_info(head_cells(v[i]), row_aligns(v[i + 1])),
                body: table_body_rows(v.skip(i + 2)),
            };
            assert(crate::node::wf_table(tv));
            assert(crate::node::wf_content(ContentV::Table { value: tv }));
            assert(crate::node::wf_node(NodeV::Nil));
            assert(crate::node::wf_node(table_node_spec(v, i)));
            lemma_parse_wf(v, i + 2 + cnt);
            crate::node::lemma_wf_cons(table_node_spec(v, i), parse_spec_at(v, i + 2 + cnt));
            assert(whole == seq![table_node_spec(v, i)] + parse_spec_at(v, i + 2 + cnt));
        } else {
            lemma_parse_wf(v, i + 1);
            let node = parse_line_spec(l0);
            if l0.len() == 0 || l0[0] != '#' {
                lemma_wf_text_node(Token::P, inline_spec(l0));
            } else {
                let k = count_hashes(l0, 0);
                let start = if k + 1 <= l0.len() {
                    k + 1
                } else {
                    l0.len() as int
                };
                lemma_wf_text_node(heading_tag(k), inline_spec(l0.skip(start)));
            }
            assert(crate::node::wf_node(node));
            crate::node::lemma_wf_cons(node, parse_spec_at(v, i + 1));
            assert(whole == seq![node] + parse_spec_at(v, i + 1));
        }
    }
}

/// Classifies one line as a heading or a paragraph and builds its
/// node.
pub fn parse_line(input: &String) -> (r: ElementNode)
    ensures
        node_view(r) == parse_line_spec(input@),
{
    let s = input.as_str();
    let n = s.unicode_len();
    if n == 0 || s.get_char(0) != '#' {
        let t = inline_parse(input);
        return ElementNode::new(
            Token::P,
            Content::PlainText { value: t },
            Box::new(ElementNode::Nil),
        );
    }
    let mut k: usize = 0;
    let mut i: usize = 0;
    loop
        invariant
            i <= n,
            n == s@.len(),
            s@ == input@,
            k <= i,
            count_hashes(input@, 0) == k + count_hashes(input@, i as int),
        ensures
            k as int == count_hashes(input@, 0),
            k <= n,
        decreases n - i,
    {
        if !(i < n) {
            break;
        }
        let c = s.get_char(i);
        if c == ' ' {
            break;
        }
        if c == '#' {
            k = k + 1;
        }
        i = i + 1;
    }
    let start = if k < n {
        k + 1
    } else {
        n
    };
    let content = s.substring_char(start, n).to_owned();
    let t = inline_parse(&content);
    let tag = if k == 1 {
        Token::H1
    } else if k == 2 {
        Token::H2
    } else if k == 3 {
        Token::H3
    } else if k == 4 {
        Token::H4
    } else if k == 5 {
        Token::H5
    } else if k == 6 {
        Token::H6
    } else {
        Token::P
    };
    proof {
        assert(content@ =~= input@.skip(start as int));
        assert(tag == heading_tag(k as int));
    }
    ElementNode::new(tag, Content::PlainText { value: t }, Box::new(ElementNode::Nil))
}

/// Joins the escaped lines of a code block with a line-break tag.
fn join_br_strings(v: &Vec<String>) -> (r: String)
    ensures
        r@ == join_br(v.deep_view()),
{
    let mut out = String::new();
    if v.len() == 0 {
        proof {
            assert(out@ =~= Seq::<char>::empty());
        }
        return out;
    }
    let ghost dv = v.deep_view();
    let mut i: usize = 0;
    proof {
        assert(dv.skip(0) =~= dv);
    }
    while i < v.len() - 1
        invariant
            v.len() >= 1,
            i <= v.len() - 1,
            dv == v.deep_view(),
            join_br(dv) == out@ + join_br(dv.skip(i as int)),
        decreases v.len() - i,
    {
        out.append(v[i].as_str());
        out.append("<br />");
        proof {
            assert(dv.skip(i as int).first() == dv[i as int]);
            assert(dv.skip(i as int).drop_first() =~= dv.skip(i as int + 1));
            assert(v[i as int]@ == dv[i as int]);
        }
        i = i + 1;
    }
    out.append(v[i].as_str());
    proof {
        assert(dv.skip(i as int).len() == 1);
        assert(dv.skip(i as int).first() == dv[i as int]);
        assert(v[i as int]@ == dv[i as int]);
    }
    out
}

/// Finds the end of the run of list lines of `kind` starting at
/// `from`.
fn list_scan(input: &Vec<String>, from: usize, kind: ListPattern) -> (r: usize)
    requires
        from <= input.len(),
    ensures
        r as int == list_run_end(input.deep_view(), from as int, kind),
        from <= r <= input.len(),
{
    let ghost dv = input.deep_view();
    proof {
        lemma_list_run_end(dv, from as int, kind);
    }
    let mut k: usize = from;
    loop
        invariant
            from <= k <= input.len(),
            dv == input.deep_view(),
            forall|m: int| from <= m < k ==> list_matches(kind, dv[m]),
            list_run_end(dv, from as int, kind) >= k,
        ensures
            k as int == list_run_end(dv, from as int, kind),
            from <= k <= input.len(),
        decreases input.len() - k,
    {
        if !(k < input.len()) {
            proof {
                lemma_list_run_end(dv, from as int, kind);
            }
            break;
        }
        let hit = match kind {
            ListPattern::SimpleList => is_simple_list(&input[k]),
            ListPattern::NumberList => is_number_list(&input[k]),
        };
        proof {
            assert(input[k as int]@ == dv[k as int]);
        }
        if !hit {
            proof {
                lemma_list_run_end(dv, from as int, kind);
            }
            break;
        }
        proof {
            lemma_list_run_end(dv, from as int, kind);
        }
        k = k + 1;
    }
    k
}

/// Finds the first empty line at `from` or later.
fn quote_scan(input: &Vec<String>, from: usize) -> (r: usize)
    requires
        from <= input.len(),
    ensures
        r as int == quote_run_end(input.deep_view(), from as int),
        from <= r <= input.len(),
{
    let ghost dv = input.deep_view();
    proof {
        lemma_quote_run_end(dv, from as int);
    }
    let mut k: usize = from;
    loop
        invariant
            from <= k <= input.len(),
            dv == input.deep_view(),
            forall|m: int| from <= m < k ==> dv[m].len() != 0,
            quote_run_end(dv, from as int) >= k,
        ensures
            k as int == quote_run_end(dv, from as int),
            from <= k <= input.len(),
        decreases input.len() - k,
    {
        if !(k < input.len()) {
            proof {
                lemma_quote_run_end(dv, from as int);
            }
            break;
        }
        let empty = input[k].as_str().is_empty();
        proof {
            assert(input[k as int]@ == dv[k as int]);
        }
        if empty {
            proof {
                lemma_quote_run_end(dv, from as int);
            }
            break;
        }
        proof {
            lemma_quote_run_end(dv, from as int);
        }
        k = k + 1;
    }
    k
}

/// Finds the first fence line at `from` or later.
fn fence_scan(input: &Vec<String>, from: usize) -> (r: usize)
    requires
        from <= input.len(),
    ensures
        r as int == fence_close(input.deep_view(), from as int),
        from <= r <= input.len(),
{
    let ghost dv = input.deep_view();
    proof {
        lemma_fence_close(dv, from as int);
    }
    let mut k: usize = from;
    loop
        invariant
            from <= k <= input.len(),
            dv == input.deep_view(),
            forall|m: int| from <= m < k ==> !is_fence_spec(dv[m]),
            fence_close(dv, from as int) >= k,
        ensures
            k as int == fence_close(dv, from as int),
            from <= k <= input.len(),
        decreases input.len() - k,
    {
        if !(k < input.len()) {
            proof {
                lemma_fence_close(dv, from as int);
            }
            break;
        }
        let hit = is_code_block_start(&input[k]);
        proof {
            assert(input[k as int]@ == dv[k as int]);
        }
        if hit {
            proof {
                lemma_fence_close(dv, from as int);
            }
            break;
        }
        proof {
            lemma_fence_close(dv, from as int);
        }
        k = k + 1;
    }
    k
}

/// Decides whether every body row of a table has exactly the header's
/// width.
fn rows_width_ok(t: &Table) -> (r: bool)
    ensures
        r == (forall|j: int|
            0 <= j < t@.body.len() ==> (#[trigger] t@.body[j]).len() == t@.head.len()),
{
    let w = t.head.len();
    proof {
        assert(t@.head.len() == t.head.len());
    }
    let mut j: usize = 0;
    while j < t.body.len()
        invariant
            j <= t.body.len(),
            w == t@.head.len(),
            t@.body.len() == t.body.len(),
            forall|m: int| 0 <= m < j ==> (#[trigger] t@.body[m]).len() == t@.head.len(),
        decreases t.body.len() - j,
    {
        proof {
            assert(t@.body[j as int].len() == t.body[j as int]@.len());
        }
        if t.body[j].len() != w {
            return false;
        }
        j = j + 1;
    }
    true
}

/// Tries to build a table block at line `i`: the node and the number
/// of lines consumed, or nothing when the block is not a well-formed
/// table.
fn try_table(input: &Vec<String>, i: usize) -> (r: Option<(ElementNode, usize)>)
    requires
        i < input.len(),
    ensures
        match r {
            Some(p) => {
                &&& is_table_spec(input.deep_view()[i as int])
                &&& table_ok_at(input.deep_view(), i as int)
                &&& node_view(p.0) == table_node_spec(input.deep_view(), i as int)
                &&& p.1 as int == 2 + table_body_count(input.deep_view().skip(i as int + 2))
                &&& i + p.1 <= input.len()
            },
            None => !(is_table_spec(input.deep_view()[i as int]) && table_ok_at(
                input.deep_view(),
                i as int,
            )),
        },
{
    let ghost dv = input.deep_view();
    if !is_table_block_start(&input[i]) {
        proof {
            assert(input[i as int]@ == dv[i as int]);
        }
        return None;
    }
    proof {
        assert(input[i as int]@ == dv[i as int]);
    }
    if input.len() - i < 2 {
        return None;
    }
    let tail = subvec_strings_range(input, i, input.len());
    let ghost tdv = tail.deep_view();
    proof {
        assert(tdv =~= dv.skip(i as int));
        assert(tdv[0] == dv[i as int]);
        assert(tdv[1] == dv[i as int + 1]);
    }
    let s1 = tail[1].as_str();
    let n1 = s1.unicode_len();
    if n1 < 1 {
        return None;
    }
    let s0 = tail[0].as_str();
    let inner0 = s0.substring_char(1, s0.unicode_len()).to_owned();
    let inner1 = s1.substring_char(1, n1).to_owned();
    proof {
        assert(inner0@ =~= tdv[0].skip(1));
        assert(inner1@ =~= tdv[1].skip(1));
    }
    let head = crate::table::get_table_column_name(&inner0);
    let aligns = crate::table::get_column_align(&inner1);
    proof {
        assert(head.deep_view().len() == head.len());
    }
    if aligns.len() < head.len() {
        return None;
    }
    let (table, skip) = parse_table(tail);
    proof {
        assert(dv.skip(i as int).skip(2) =~= dv.skip(i as int + 2));
        lemma_table_body_count(dv.skip(i as int + 2));
    }
    proof {
        assert(s1@ == tdv[1]);
        assert(dv[i as int + 1].len() == n1);
        assert(aligns@ == row_aligns(dv[i as int + 1]));
        assert(head.deep_view() == head_cells(dv[i as int]));
        assert(tdv.skip(2) =~= dv.skip(i as int + 2));
        assert(table@.body == table_body_rows(dv.skip(i as int + 2)));
        assert(table@.head == head_info(head_cells(dv[i as int]), row_aligns(dv[i as int + 1])));
        assert(table@.head.len() == head_cells(dv[i as int]).len());
    }
    let wok = rows_width_ok(&table);
    if !wok {
        return None;
    }
    let node = ElementNode::new(
        Token::Table,
        Content::Table { value: table },
        Box::new(ElementNode::Nil),
    );
    proof {
        assert(table_ok_at(dv, i as int));
        assert(node_view(node) == table_node_spec(dv, i as int));
    }
    Some((node, skip))
}

/// The block dispatcher: builds the document-level node sequence of
/// the given lines.
#[verifier::rlimit(100)]
fn parse(input: &Vec<String>) -> (r: Vec<ElementNode>)
    ensures
        nodes_view(r@) == parse_spec_at(input.deep_view(), 0),
    decreases total_chars(input.deep_view()),
{
    let ghost dv = input.deep_view();
    let mut nodes: Vec<ElementNode> = Vec::new();
    let mut i: usize = 0;
    proof {
        assert(nodes_view(nodes@) =~= Seq::<NodeV>::empty());
        assert(parse_spec_at(dv, 0) =~= nodes_view(nodes@) + parse_spec_at(dv, 0));
    }
    while i < input.len()
        invariant
            i <= input.len(),
            dv == input.deep_view(),
            parse_spec_at(dv, 0) == nodes_view(nodes@) + parse_spec_at(dv, i as int),
        decreases input.len() - i,
    {
        let ghost old_nodes = nodes@;
        proof {
            assert(input[i as int]@ == dv[i as int]);
        }
        if is_simple_list(&input[i]) {
            let k = list_scan(input, i, ListPattern::SimpleList);
            proof {
                lemma_list_run_end(dv, i as int, ListPattern::SimpleList);
            }
            let node = parse_list_range(input, i, k, 0, ListPattern::SimpleList);
            nodes.push(node);
            proof {
                lemma_nodes_view_push(old_nodes, node);
                assert(nodes_view(old_nodes).push(node_view(node)) + parse_spec_at(dv, k as int)
                    =~= nodes_view(old_nodes) + (seq![node_view(node)] + parse_spec_at(dv, k as int)));
            }
            i = k;
        } else if is_number_list(&input[i]) {
            let k = list_scan(input, i, ListPattern::NumberList);
            proof {
                lemma_list_run_end(dv, i as int, ListPattern::NumberList);
            }
            let node = parse_list_range(input, i, k, 0, ListPattern::NumberList);
            nodes.push(node);
            proof {
                lemma_nodes_view_push(old_nodes, node);
                assert(nodes_view(old_nodes).push(node_view(node)) + parse_spec_at(dv, k as int)
                    =~= nodes_view(old_nodes) + (seq![node_view(node)] + parse_spec_at(dv, k as int)));
            }
            i = k;
        } else if is_quote_block(&input[i]) {
            let k = quote_scan(input, i);
            proof {
                lemma_quote_run_end(dv, i as int);
            }
            let run = subvec_strings_range(input, i, k);
            let enclosed = enclose_quote(run);
            proof {
                assert(enclosed.deep_view() == enclose_lines(dv.subrange(i as int, k as int)));
                lemma_total_chars_subrange(dv, i as int, k as int);
                assert(dv.subrange(i as int, k as int).first() == dv[i as int]);
                lemma_total_enclose_lt(dv.subrange(i as int, k as int));
            }
            let sub = parse(&enclosed);
            let node = ElementNode::new(
                Token::Blockquote,
                Content::ElementNodes { value: sub },
                Box::new(ElementNode::Nil),
            );
            nodes.push(node);
            proof {
                lemma_nodes_view_push(old_nodes, node);
                let nxt = if k as int + 1 <= dv.len() {
                    k as int + 1
                } else {
                    dv.len() as int
                };
                assert(nodes_view(old_nodes).push(node_view(node)) + parse_spec_at(dv, nxt) =~= nodes_view(old_nodes) + (
                seq![node_view(node)] + parse_spec_at(dv, nxt)));
            }
            i = k;
            if i < input.len() {
                i = i + 1;
            }
        } else if is_code_block_start(&input[i]) {
            let j = fence_scan(input, i + 1);
            proof {
                lemma_fence_close(dv, i as int + 1);
            }
            let content = subvec_strings_range(input, i + 1, j);
            let escaped = parse_code_block(content);
            let joined = join_br_strings(&escaped);
            let node = ElementNode::new(
                Token::Code,
                Content::PlainText { value: joined },
                Box::new(ElementNode::Nil),
            );
            nodes.push(node);
            proof {
                lemma_nodes_view_push(old_nodes, node);
                assert(escaped.deep_view() == escape_lines(dv.subrange(i as int + 1, j as int)));
                if j < input.len() {
                    assert(nodes_view(old_nodes).push(node_view(node)) + parse_spec_at(dv, j as int + 1)
                        =~= nodes_view(old_nodes) + (seq![node_view(node)] + parse_spec_at(dv, j as int + 1)));
                } else {
                    assert(parse_spec_at(dv, j as int) =~= Seq::<NodeV>::empty());
                    assert(nodes_view(old_nodes).push(node_view(node)) + parse_spec_at(dv, j as int)
                        =~= nodes_view(old_nodes) + seq![node_view(node)]);
                }
            }
            i = j;
            if i < input.len() {
                i = i + 1;
            }
        } else {
            match try_table(input, i) {
                Some((node, skip)) => {
                    nodes.push(node);
                    proof {
                        lemma_nodes_view_push(old_nodes, node);
                        lemma_table_body_count(dv.skip(i as int + 2));
                        assert(nodes_view(old_nodes).push(node_view(node)) + parse_spec_at(
                            dv,
                            i as int + skip as int,
                        ) =~= nodes_view(old_nodes) + (seq![node_view(node)] + parse_spec_at(
                            dv,
                            i as int + skip as int,
                        )));
                    }
                    i = i + skip;
                },
                None => {
                    let node = parse_line(&input[i]);
                    nodes.push(node);
                    proof {
                        lemma_nodes_view_push(old_nodes, node);
                        assert(nodes_view(old_nodes).push(node_view(node)) + parse_spec_at(dv, i as int + 1)
                            =~= nodes_view(old_nodes) + (seq![node_view(node)] + parse_spec_at(
                            dv,
                            i as int + 1,
                        )));
                    }
                    i = i + 1;
                },
            }
        }
    }
    proof {
        assert(parse_spec_at(dv, input.len() as int) =~= Seq::<NodeV>::empty());
        assert(nodes_view(nodes@) + Seq::<NodeV>::empty() =~= nodes_view(nodes@));
    }
    nodes
}

/// The lexer: holds the document's lines and drives the dispatcher.
pub struct Lexer {
    text: Vec<String>,
}

impl View for Lexer {
    type V = Seq<Seq<char>>;

    closed spec fn view(&self) -> Seq<Seq<char>> {
        self.text.deep_view()
    }
}

impl Lexer {
    /// Builds a lexer over the document's lines.
    pub fn new(text: Vec<String>) -> (r: Self)
        ensures
            r@ == text.deep_view(),
    {
        Lexer { text }
    }

    /// Parses the whole document into its tree.
    pub fn parse(&self) -> (r: crate::builder::MdNode)
        ensures
            r@ == parse_spec_at(self@, 0),
    {
        crate::builder::MdNode::new(parse(&self.text))
    }
}

#[via_fn]
proof fn parse_spec_at_dec(v: Seq<Seq<char>>, i: int) {
    if 0 <= i && i < v.len() {
        let l0 = v[i];
        if !is_simple_spec(l0) && !is_number_spec(l0) && is_quote_spec(l0) {
            let k0 = quote_run_end(v, i);
            let k = if i < k0 && k0 <= v.len() {
                k0
            } else {
                i + 1
            };
            lemma_total_chars_subrange(v, i, k);
            assert(v.subrange(i, k).first() == v[i]);
            lemma_total_enclose_lt(v.subrange(i, k));
        }
    }
}

} // verus!
