//! The HTML renderer: walks the document tree and serializes it with
//! the fixed `flav-md-*` class naming scheme, two spaces of indent per
//! nesting level.
use crate::node::{
    lemma_wf_nodes_index,
    node_view,
    nodes_view,
    wf_content,
    wf_node,
    wf_nodes,
    wf_table,
    Content,
    ContentV,
    ElementNode,
    NodeV,
    Table,
    TableHead,
    TableHeadV,
    TableV,
    Token,
};
use crate::util::{join_sep, join_with};
use vstd::prelude::*;

verus! {

/// A run of `n` spaces.
pub open spec fn sp(n: int) -> Seq<char> {
    Seq::new(
        if n < 0 {
            0
        } else {
            n as nat
        },
        |i: int| ' ',
    )
}

/// Two more columns of indent; saturates at the machine limit.
pub open spec fn deeper(n: int) -> int {
    if n + 2 <= usize::MAX {
        n + 2
    } else {
        n
    }
}

/// Builds a run of `n` spaces.
fn spaces(n: usize) -> (r: String)
    ensures
        r@ == sp(n as int),
{
    let mut out = String::new();
    let mut i: usize = 0;
    proof {
        reveal_strlit(" ");
        assert(out@ =~= sp(0));
    }
    while i < n
        invariant
            i <= n,
            out@ == sp(i as int),
        decreases n - i,
    {
        out.append(" ");
        proof {
            reveal_strlit(" ");
            assert(out@ =~= sp(i as int + 1));
        }
        i = i + 1;
    }
    out
}

/// The CSS classes of a node kind: the base text class, then the
/// kind-specific classes.
pub open spec fn classes_spec(tag: Token) -> Seq<Seq<char>> {
    match tag {
        Token::H1 | Token::H2 | Token::H3 | Token::H4 | Token::H5 | Token::H6 => seq![
            "flav-md-text"@,
            "flav-md-"@ + tag.spec_value(),
            "flav-md-h"@,
        ],
        Token::P => seq!["flav-md-text"@, "flav-md-p"@],
        Token::Blockquote => seq!["flav-md-text"@, "flav-md-blockquote"@],
        _ => seq!["flav-md-text"@],
    }
}

/// The class attribute text of a node kind: its classes joined with a
/// space.
pub open spec fn class_attr(tag: Token) -> Seq<char> {
    join_sep(classes_spec(tag), " "@)
}

/// The CSS classes of a node kind.
fn generate_class_for_the_tag(tag: &Token) -> (r: Vec<String>)
    ensures
        r.deep_view() == classes_spec(*tag),
{
    let mut tags: Vec<String> = Vec::new();
    tags.push(String::from_str("flav-md-text"));
    match tag {
        Token::H1 | Token::H2 | Token::H3 | Token::H4 | Token::H5 | Token::H6 => {
            let mut c = String::from_str("flav-md-");
            c.append(tag.value().as_str());
            tags.push(c);
            tags.push(String::from_str("flav-md-h"));
        },
        Token::P => {
            tags.push(String::from_str("flav-md-p"));
        },
        Token::Blockquote => {
            tags.push(String::from_str("flav-md-blockquote"));
        },
        _ => {},
    }
    proof {
        assert(tags.deep_view() =~= classes_spec(*tag));
    }
    tags
}

/// One header cell serialized as a `<th>` element.
pub open spec fn th_str(h: TableHeadV) -> Seq<char> {
    "      <th style=\"text-align: "@ + h.align.spec_value() + "\">"@ + h.cell + "</th>"@
}

/// The serialized header cells, in order.
pub open spec fn ths_seq(head: Seq<TableHeadV>) -> Seq<Seq<char>> {
    Seq::new(head.len(), |i: int| th_str(head[i]))
}

/// The `<thead>` section of a table.
pub open spec fn render_thead(head: Seq<TableHeadV>) -> Seq<char> {
    "  <thead>\n    <tr>\n"@ + join_sep(ths_seq(head), "\n"@) + "\n    </tr>\n  </thead>"@
}

/// One body cell serialized as a `<td>` element carrying its column's
/// alignment.
pub open spec fn td_str(h: TableHeadV, cell: Seq<char>) -> Seq<char> {
    "      <td style=\"text-align: "@ + h.align.spec_value() + "\">"@ + cell + "</td>"@
}

/// The serialized cells of one body row, in order.
pub open spec fn tds_seq(head: Seq<TableHeadV>, row: Seq<Seq<char>>) -> Seq<Seq<char>> {
    Seq::new(row.len(), |i: int| td_str(head[i], row[i]))
}

/// One body row serialized as a `<tr>` element.
pub open spec fn tr_str(head: Seq<TableHeadV>, row: Seq<Seq<char>>) -> Seq<char> {
    "    <tr>\n"@ + join_sep(tds_seq(head, row), "\n"@) + "\n    </tr>"@
}

/// The serialized body rows, in order.
pub open spec fn trs_seq(head: Seq<TableHeadV>, body: Seq<Seq<Seq<char>>>) -> Seq<Seq<char>> {
    Seq::new(body.len(), |r: int| tr_str(head, body[r]))
}

/// The `<tbody>` section of a table.
pub open spec fn render_tbody(head: Seq<TableHeadV>, body: Seq<Seq<Seq<char>>>) -> Seq<char> {
    "  <tbody>\n"@ + join_sep(trs_seq(head, body), "\n"@) + "\n  </tbody>"@
}

/// A whole table serialized as a `<table>` element.
pub open spec fn render_table(t: TableV) -> Seq<char> {
    "<table>\n"@ + render_thead(t.head) + "\n"@ + render_tbody(t.head, t.body) + "\n</table>"@
}

/// The table shape law: for a well-formed table with header width
/// `w`, every emitted body row is a `<tr>` of exactly `w` `<td>`
/// cells, in document order, each carrying its column's alignment.
pub proof fn lemma_table_row_shape(t: TableV)
    requires
        wf_table(t),
    ensures
        trs_seq(t.head, t.body).len() == t.body.len(),
        forall|r: int|
            0 <= r < t.body.len() ==> #[trigger] trs_seq(t.head, t.body)[r] == tr_str(
                t.head,
                t.body[r],
            ),
        forall|r: int|
            0 <= r < t.body.len() ==> tds_seq(t.head, #[trigger] t.body[r]).len() == t.head.len(),
        forall|r: int, i: int|
            0 <= r < t.body.len() && 0 <= i < t.head.len() ==> #[trigger] tds_seq(
                t.head,
                t.body[r],
            )[i] == td_str(t.head[i], t.body[r][i]),
        render_table(t) == "<table>\n"@ + render_thead(t.head) + "\n"@ + render_tbody(
            t.head,
            t.body,
        ) + "\n</table>"@,
{
}

/// Builds the `<thead>` section of a table.
fn create_thead(head: &Vec<TableHead>) -> (r: String)
    ensures
        r@ == render_thead(crate::node::heads_view(head@)),
{
    let ghost hv = crate::node::heads_view(head@);
    let mut hs: Vec<String> = Vec::new();
    let mut i: usize = 0;
    while i < head.len()
        invariant
            i <= head.len(),
            hv == crate::node::heads_view(head@),
            hv.len() == head.len(),
            hs.deep_view() =~= ths_seq(hv).take(i as int),
        decreases head.len() - i,
    {
        let mut line = String::from_str("      <th style=\"text-align: ");
        line.append(head[i].get_align().as_str());
        line.append("\">");
        line.append(head[i].cell_text().as_str());
        line.append("</th>");
        let ghost old_dv = hs.deep_view();
        hs.push(line);
        proof {
            assert(head[i as int]@ == hv[i as int]);
            assert(line@ == th_str(hv[i as int]));
            assert(hs.deep_view() =~= old_dv.push(line@));
            assert(hs.deep_view() =~= ths_seq(hv).take(i as int + 1));
        }
        i = i + 1;
    }
    proof {
        assert(ths_seq(hv).take(head.len() as int) =~= ths_seq(hv));
    }
    let heads = join_with(&hs, "\n");
    let mut out = String::from_str("  <thead>\n    <tr>\n");
    out.append(heads.as_str());
    out.append("\n    </tr>\n  </thead>");
    out
}

/// Builds the `<tbody>` section of a table.
fn create_tbody(head: &Vec<TableHead>, body: &Vec<Vec<String>>) -> (r: String)
    requires
        forall|r: int|
            0 <= r < body.deep_view().len() ==> (#[trigger] body.deep_view()[r]).len()
                == head@.len(),
    ensures
        r@ == render_tbody(crate::node::heads_view(head@), body.deep_view()),
{
    let ghost hv = crate::node::heads_view(head@);
    let ghost bv = body.deep_view();
    let mut trs: Vec<String> = Vec::new();
    let mut r: usize = 0;
    while r < body.len()
        invariant
            r <= body.len(),
            hv == crate::node::heads_view(head@),
            bv == body.deep_view(),
            bv.len() == body.len(),
            hv.len() == head.len(),
            forall|m: int| 0 <= m < bv.len() ==> (#[trigger] bv[m]).len() == hv.len(),
            trs.deep_view() =~= trs_seq(hv, bv).take(r as int),
        decreases body.len() - r,
    {
        let row = &body[r];
        proof {
            assert(row.deep_view() == bv[r as int]);
            assert(row.deep_view().len() == row@.len());
        }
        let mut tds: Vec<String> = Vec::new();
        let mut i: usize = 0;
        while i < row.len()
            invariant
                i <= row.len(),
                r < body.len(),
                hv == crate::node::heads_view(head@),
                bv == body.deep_view(),
                bv.len() == body.len(),
                hv.len() == head.len(),
                row == &body@[r as int],
                row.deep_view() == bv[r as int],
                row@.len() == bv[r as int].len(),
                bv[r as int].len() == hv.len(),
                tds.deep_view() =~= tds_seq(hv, bv[r as int]).take(i as int),
            decreases row.len() - i,
        {
            let mut line = String::from_str("      <td style=\"text-align: ");
            line.append(head[i].get_align().as_str());
            line.append("\">");
            line.append(row[i].as_str());
            line.append("</td>");
            let ghost old_dv = tds.deep_view();
            tds.push(line);
            proof {
                assert(head[i as int]@ == hv[i as int]);
                assert(row[i as int]@ == bv[r as int][i as int]);
                assert(line@ == td_str(hv[i as int], bv[r as int][i as int]));
                assert(tds.deep_view() =~= old_dv.push(line@));
                assert(tds.deep_view() =~= tds_seq(hv, bv[r as int]).take(i as int + 1));
            }
            i = i + 1;
        }
        proof {
            assert(tds_seq(hv, bv[r as int]).take(row.len() as int) =~= tds_seq(
                hv,
                bv[r as int],
            ));
        }
        let cells = join_with(&tds, "\n");
        let mut tr = String::from_str("    <tr>\n");
        tr.append(cells.as_str());
        tr.append("\n    </tr>");
        let ghost old_trs = trs.deep_view();
        trs.push(tr);
        proof {
            assert(tr@ == tr_str(hv, bv[r as int]));
            assert(trs.deep_view() =~= old_trs.push(tr@));
            assert(trs.deep_view() =~= trs_seq(hv, bv).take(r as int + 1));
        }
        r = r + 1;
    }
    proof {
        assert(trs_seq(hv, bv).take(body.len() as int) =~= trs_seq(hv, bv));
    }
    let rows = join_with(&trs, "\n");
    let mut out = String::from_str("  <tbody>\n");
    out.append(rows.as_str());
    out.append("\n  </tbody>");
    out
}

/// Builds a whole `<table>` element.
fn generate_table(content: &Table) -> (r: String)
    requires
        wf_table(content@),
    ensures
        r@ == render_table(content@),
{
    let thead = create_thead(&content.head);
    let tbody = create_tbody(&content.head, &content.body);
    let mut out = String::from_str("<table>\n");
    out.append(thead.as_str());
    out.append("\n");
    out.append(tbody.as_str());
    out.append("\n</table>");
    out
}

/// The serialization of one document node at the given indent.
pub open spec fn render_node(n: NodeV, indent: int) -> Seq<char>
    decreases n, 1int,
{
    match n {
        NodeV::Nil => Seq::empty(),
        NodeV::Exist { tag, content, children } => match tag {
            Token::Ul => match content {
                ContentV::ElementNodes { value } => "<ul class=\"flav-md-ul\">\n"@ + render_nodes(
                    value,
                    deeper(indent),
                ) + sp(indent) + "</ul>"@,
                _ => Seq::empty(),
            },
            Token::Ol => match content {
                ContentV::ElementNodes { value } => "<ol class=\"flav-md-ol\">\n"@ + render_nodes(
                    value,
                    deeper(indent),
                ) + sp(indent) + "</ol>"@,
                _ => Seq::empty(),
            },
            Token::Li => {
                let text = match content {
                    ContentV::PlainText { value } => value,
                    _ => Seq::empty(),
                };
                match *children {
                    NodeV::Exist { .. } => sp(indent) + "<li class=\"flav-md-text flav-md-li\">"@
                        + text + "\n"@ + sp(deeper(indent)) + render_node(*children, deeper(indent))
                        + "\n"@ + sp(indent) + "</li>"@,
                    NodeV::Nil => sp(indent) + "<li class=\"flav-md-text flav-md-li\">"@ + text
                        + "</li>"@,
                }
            },
            Token::Blockquote => match content {
                ContentV::ElementNodes { value } => sp(indent) + "<blockquote class=\""@
                    + class_attr(Token::Blockquote) + "\">\n"@ + render_nodes(
                    value,
                    deeper(indent),
                ) + sp(indent) + "</blockquote>"@,
                _ => Seq::empty(),
            },
            Token::Code => match content {
                ContentV::PlainText { value } => "<code class=\"flav-md-code\">\n  "@ + value
                    + "\n</code>"@,
                _ => Seq::empty(),
            },
            Token::Table => match content {
                ContentV::Table { value } => render_table(value),
                _ => Seq::empty(),
            },
            _ => {
                let text = match content {
                    ContentV::PlainText { value } => value,
                    _ => Seq::empty(),
                };
                sp(indent) + "<"@ + tag.spec_value() + " class=\""@ + class_attr(tag) + "\">"@
                    + text + "</"@ + tag.spec_value() + ">"@
            },
        },
    }
}

/// The serialization of a node sequence: each node at the given
/// indent, each followed by a newline.
pub open spec fn render_nodes(v: Seq<NodeV>, indent: int) -> Seq<char>
    decreases v, 0int,
{
    if v.len() == 0 {
        Seq::empty()
    } else {
        render_node(v.first(), indent) + "\n"@ + render_nodes(v.drop_first(), indent)
    }
}

/// Builds the serialization of the nodes of a sequence, each followed
/// by a newline.
fn parse_nested_tag(items: &Vec<ElementNode>, indent: usize) -> (r: String)
    requires
        wf_nodes(nodes_view(items@)),
    ensures
        r@ == render_nodes(nodes_view(items@), indent as int),
    decreases *items, 0int,
{
    let ghost nv = nodes_view(items@);
    proof {
        crate::node::lemma_nodes_view_len(items@);
        lemma_wf_nodes_index(nv);
    }
    let mut out = String::new();
    let mut i: usize = 0;
    proof {
        assert(nv.skip(0) =~= nv);
        assert(out@ + render_nodes(nv, indent as int) =~= render_nodes(nv, indent as int));
    }
    while i < items.len()
        invariant
            i <= items.len(),
            nv == nodes_view(items@),
            nv.len() == items.len(),
            forall|m: int| 0 <= m < nv.len() ==> nv[m] == node_view(items@[m]),
            forall|m: int| 0 <= m < nv.len() ==> wf_node(#[trigger] nv[m]),
            render_nodes(nv, indent as int) == out@ + render_nodes(
                nv.skip(i as int),
                indent as int,
            ),
        decreases items.len() - i,
    {
        proof {
            assert(decreases_to!(*items => items@[i as int]));
        }
        let piece = create_tag(&items[i], indent);
        out.append(piece.as_str());
        out.append("\n");
        proof {
            assert(nv.skip(i as int).first() == nv[i as int]);
            assert(nv.skip(i as int).drop_first() =~= nv.skip(i as int + 1));
        }
        i = i + 1;
    }
    proof {
        assert(render_nodes(nv.skip(items.len() as int), indent as int) =~= Seq::<char>::empty());
        assert(out@ + Seq::<char>::empty() =~= out@);
    }
    out
}

/// Builds the serialization of one document node at the given indent.
fn create_tag(item: &ElementNode, indent: usize) -> (r: String)
    requires
        wf_node(node_view(*item)),
    ensures
        r@ == render_node(node_view(*item), indent as int),
    decreases *item, 1int,
{
    let ni: usize = if indent <= usize::MAX - 2 {
        indent + 2
    } else {
        indent
    };
    proof {
        assert(ni as int == deeper(indent as int));
    }
    match item {
        ElementNode::Nil => {
            let out = String::new();
            proof {
                assert(out@ =~= Seq::<char>::empty());
            }
            out
        },
        ElementNode::Exist { tag, content, children } => {
            proof {
                assert(node_view(*item) == NodeV::Exist {
                    tag: *tag,
                    content: crate::node::content_view(**content),
                    children: Box::new(node_view(**children)),
                });
            }
            match tag {
                Token::Ul | Token::Ol => {
                    match &**content {
                        Content::ElementNodes { value } => {
                            proof {
                                assert(decreases_to!(*item => *value));
                                assert(crate::node::content_view(**content)
                                    == ContentV::ElementNodes { value: nodes_view(value@) });
                                assert(wf_content(crate::node::content_view(**content)));
                                assert(wf_nodes(nodes_view(value@)));
                            }
                            let inner = parse_nested_tag(value, ni);
                            let mut out = match tag {
                                Token::Ul => String::from_str("<ul class=\"flav-md-ul\">\n"),
                                _ => String::from_str("<ol class=\"flav-md-ol\">\n"),
                            };
                            out.append(inner.as_str());
                            out.append(spaces(indent).as_str());
                            match tag {
                                Token::Ul => out.append("</ul>"),
                                _ => out.append("</ol>"),
                            }
                            proof {
                                assert(out@ =~= render_node(node_view(*item), indent as int));
                            }
                            out
                        },
                        _ => {
                            let out = String::new();
                            proof {
                                assert(out@ =~= Seq::<char>::empty());
                            }
                            out
                        },
                    }
                },
                Token::Li => {
                    let text: String = match &**content {
                        Content::PlainText { value } => value.clone(),
                        _ => String::new(),
                    };
                    proof {
                        match &**content {
                            Content::PlainText { value } => {},
                            _ => {
                                assert(text@ =~= Seq::<char>::empty());
                            },
                        }
                    }
                    match &**children {
                        ElementNode::Exist { .. } => {
                            proof {
                                assert(decreases_to!(*item => **children));
                            }
                            let c = create_tag(children, ni);
                            let mut out = spaces(indent);
                            out.append("<li class=\"flav-md-text flav-md-li\">");
                            out.append(text.as_str());
                            out.append("\n");
                            out.append(spaces(ni).as_str());
                            out.append(c.as_str());
                            out.append("\n");
                            out.append(spaces(indent).as_str());
                            out.append("</li>");
                            proof {
                                assert(out@ =~= render_node(node_view(*item), indent as int));
                            }
                            out
                        },
                        ElementNode::Nil => {
                            let mut out = spaces(indent);
                            out.append("<li class=\"flav-md-text flav-md-li\">");
                            out.append(text.as_str());
                            out.append("</li>");
                            proof {
                                assert(out@ =~= render_node(node_view(*item), indent as int));
                            }
                            out
                        },
                    }
                },
                Token::Blockquote => {
                    match &**content {
                        Content::ElementNodes { value } => {
                            proof {
                                assert(decreases_to!(*item => *value));
                                assert(crate::node::content_view(**content)
                                    == ContentV::ElementNodes { value: nodes_view(value@) });
                                assert(wf_content(crate::node::content_view(**content)));
                                assert(wf_nodes(nodes_view(value@)));
                            }
                            let inner = parse_nested_tag(value, ni);
                            let classes = generate_class_for_the_tag(tag);
                            let attr = join_with(&classes, " ");
                            let mut out = spaces(indent);
                            out.append("<blockquote class=\"");
                            out.append(attr.as_str());
                            out.append("\">\n");
                            out.append(inner.as_str());
                            out.append(spaces(indent).as_str());
                            out.append("</blockquote>");
                            proof {
                                assert(out@ =~= render_node(node_view(*item), indent as int));
                            }
                            out
                        },
                        _ => {
                            let out = String::new();
                            proof {
                                assert(out@ =~= Seq::<char>::empty());
                            }
                            out
                        },
                    }
                },
                Token::Code => {
                    match &**content {
                        Content::PlainText { value } => {
                            let mut out = String::from_str("<code class=\"flav-md-code\">\n  ");
                            out.append(value.as_str());
                            out.append("\n</code>");
                            proof {
                                assert(out@ =~= render_node(node_view(*item), indent as int));
                            }
                            out
                        },
                        _ => {
                            let out = String::new();
                            proof {
                                assert(out@ =~= Seq::<char>::empty());
                            }
                            out
                        },
                    }
                },
                Token::Table => {
                    match &**content {
                        Content::Table { value } => {
                            proof {
                                assert(crate::node::content_view(**content) == ContentV::Table {
                                    value: value@,
                                });
                                assert(wf_content(crate::node::content_view(**content)));
                                assert(wf_table(value@));
                            }
                            generate_table(value)
                        },
                        _ => {
                            let out = String::new();
                            proof {
                                assert(out@ =~= Seq::<char>::empty());
                            }
                            out
                        },
                    }
                },
                _ => {
                    let text: String = match &**content {
                        Content::PlainText { value } => value.clone(),
                        _ => String::new(),
                    };
                    proof {
                        match &**content {
                            Content::PlainText { value } => {},
                            _ => {
                                assert(text@ =~= Seq::<char>::empty());
                            },
                        }
                    }
                    let name = tag.value();
                    let classes = generate_class_for_the_tag(tag);
                    let attr = join_with(&classes, " ");
                    let mut out = spaces(indent);
                    out.append("<");
                    out.append(name.as_str());
                    out.append(" class=\"");
                    out.append(attr.as_str());
                    out.append("\">");
                    out.append(text.as_str());
                    out.append("</");
                    out.append(name.as_str());
                    out.append(">");
                    proof {
                        assert(out@ =~= render_node(node_view(*item), indent as int));
                    }
                    out
                },
            }
        },
    }
}

/// The serialization of a whole document: its root nodes at indent
/// zero, joined with single newlines.
pub open spec fn render_doc(v: Seq<NodeV>) -> Seq<char>
    decreases v,
{
    if v.len() == 0 {
        Seq::empty()
    } else if v.len() == 1 {
        render_node(v.first(), 0)
    } else {
        render_node(v.first(), 0) + "\n"@ + render_doc(v.drop_first())
    }
}

/// A parsed document: the sequence of its root nodes.
#[derive(Debug, PartialEq)]
pub struct MdNode {
    element_nodes: Vec<ElementNode>,
}

impl View for MdNode {
    type V = Seq<NodeV>;

    closed spec fn view(&self) -> Seq<NodeV> {
        nodes_view(self.element_nodes@)
    }
}

impl MdNode {
    /// Builds a document from its root nodes.
    pub fn new(element_nodes: Vec<ElementNode>) -> (r: Self)
        ensures
            r@ == nodes_view(element_nodes@),
    {
        MdNode { element_nodes }
    }

    /// Serializes the whole document to HTML.
    pub fn to_html_string(&self) -> (r: String)
        requires
            wf_nodes(self@),
        ensures
            r@ == render_doc(self@),
    {
        let ghost nv = self@;
        proof {
            crate::node::lemma_nodes_view_len(self.element_nodes@);
            lemma_wf_nodes_index(nv);
        }
        let items = &self.element_nodes;
        let mut out = String::new();
        if items.len() == 0 {
            proof {
                assert(out@ =~= Seq::<char>::empty());
            }
            return out;
        }
        let mut i: usize = 0;
        proof {
            assert(nv.skip(0) =~= nv);
        }
        while i < items.len() - 1
            invariant
                items.len() >= 1,
                i <= items.len() - 1,
                items == &self.element_nodes,
                nv == nodes_view(items@),
                nv.len() == items.len(),
                forall|m: int| 0 <= m < nv.len() ==> nv[m] == node_view(items@[m]),
                forall|m: int| 0 <= m < nv.len() ==> wf_node(#[trigger] nv[m]),
                render_doc(nv) == out@ + render_doc(nv.skip(i as int)),
            decreases items.len() - i,
        {
            let piece = create_tag(&items[i], 0);
            out.append(piece.as_str());
            out.append("\n");
            proof {
                assert(nv.skip(i as int).first() == nv[i as int]);
                assert(nv.skip(i as int).drop_first() =~= nv.skip(i as int + 1));
            }
            i = i + 1;
        }
        let piece = create_tag(&items[i], 0);
        out.append(piece.as_str());
        proof {
            assert(nv.skip(i as int).len() == 1);
            assert(nv.skip(i as int).first() == nv[i as int]);
        }
        out
    }
}

} // verus!
