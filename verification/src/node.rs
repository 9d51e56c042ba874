//! The document tree: node kinds, table data and tagged content.
use vstd::prelude::*;

verus! {

/// The kind of a document node; each kind maps to one HTML element.
#[derive(Debug, PartialEq)]
pub enum Token {
    H1,
    H2,
    H3,
    H4,
    H5,
    H6,
    P,
    Ul,
    Ol,
    Li,
    Blockquote,
    Code,
    Table,
}

/// The `text-align` value of one table column.
#[derive(Debug, Copy, Clone, PartialEq)]
pub enum Align {
    Center,
    Left,
    Right,
}

/// One table header cell together with its column's alignment.
#[derive(Debug, PartialEq)]
pub struct TableHead {
    pub(crate) cell: String,
    pub(crate) align: Align,
}

/// A parsed table: header cells and body rows of cell text.
#[derive(Debug, PartialEq)]
pub struct Table {
    pub head: Vec<TableHead>,
    pub body: Vec<Vec<String>>,
}

/// The content attached to a node; which variant is valid depends on
/// the node's `Token`.
#[derive(Debug, PartialEq)]
pub enum Content {
    PlainText { value: String },
    ElementNode { value: ElementNode },
    ElementNodes { value: Vec<ElementNode> },
    Table { value: Table },
}

/// A document node, or the absence of one.  `children` holds the one
/// nested list attached to a list item; siblings live in a
/// `Content::ElementNodes` sequence.
#[derive(Debug, PartialEq)]
pub enum ElementNode {
    Exist { tag: Token, content: Box<Content>, children: Box<ElementNode> },
    Nil,
}

/// The mathematical value of a [`TableHead`].
pub struct TableHeadV {
    pub cell: Seq<char>,
    pub align: Align,
}

/// The mathematical value of a [`Table`].
pub struct TableV {
    pub head: Seq<TableHeadV>,
    pub body: Seq<Seq<Seq<char>>>,
}

/// The mathematical value of a [`Content`].
pub enum ContentV {
    PlainText { value: Seq<char> },
    ElementNode { value: Box<NodeV> },
    ElementNodes { value: Seq<NodeV> },
    Table { value: TableV },
}

/// The mathematical value of an [`ElementNode`].
pub enum NodeV {
    Exist { tag: Token, content: ContentV, children: Box<NodeV> },
    Nil,
}

impl View for TableHead {
    type V = TableHeadV;

    closed spec fn view(&self) -> TableHeadV {
        TableHeadV { cell: self.cell@, align: self.align }
    }
}

pub open spec fn heads_view(v: Seq<TableHead>) -> Seq<TableHeadV> {
    v.map_values(|h: TableHead| h@)
}

impl View for Table {
    type V = TableV;

    open spec fn view(&self) -> TableV {
        TableV { head: heads_view(self.head@), body: self.body.deep_view() }
    }
}

/// The mathematical value of a [`Content`].
pub open spec fn content_view(c: Content) -> ContentV
    decreases c,
{
    match c {
        Content::PlainText { value } => ContentV::PlainText { value: value@ },
        Content::ElementNode { value } => ContentV::ElementNode {
            value: Box::new(node_view(value)),
        },
        Content::ElementNodes { value } => ContentV::ElementNodes {
            value: nodes_view(value@),
        },
        Content::Table { value } => ContentV::Table { value: value@ },
    }
}

/// The mathematical value of an [`ElementNode`].
pub open spec fn node_view(n: ElementNode) -> NodeV
    decreases n,
{
    match n {
        ElementNode::Exist { tag, content, children } => NodeV::Exist {
            tag,
            content: content_view(*content),
            children: Box::new(node_view(*children)),
        },
        ElementNode::Nil => NodeV::Nil,
    }
}

/// The values of the nodes of a sequence, in order.
pub open spec fn nodes_view(v: Seq<ElementNode>) -> Seq<NodeV>
    decreases v,
{
    if v.len() == 0 {
        Seq::empty()
    } else {
        nodes_view(v.drop_last()).push(node_view(v.last()))
    }
}

pub broadcast proof fn lemma_nodes_view_len(v: Seq<ElementNode>)
    ensures
        (#[trigger] nodes_view(v)).len() == v.len(),
        forall|i: int| 0 <= i < v.len() ==> nodes_view(v)[i] == node_view(v[i]),
    decreases v,
{
    if v.len() > 0 {
        lemma_nodes_view_len(v.drop_last());
    }
}

/// A well-formed table value: every body row has exactly the
/// header's width.
pub open spec fn wf_table(t: TableV) -> bool {
    forall|r: int| 0 <= r < t.body.len() ==> (#[trigger] t.body[r]).len() == t.head.len()
}

/// The content variant that is valid for each node kind: headings,
/// paragraphs, list items and code blocks hold plain text; list
/// containers and blockquotes hold child sequences; a table node
/// holds table data.
pub open spec fn content_matches_tag(tag: Token, c: ContentV) -> bool {
    match tag {
        Token::H1 | Token::H2 | Token::H3 | Token::H4 | Token::H5 | Token::H6 | Token::P
            | Token::Li | Token::Code => c is PlainText,
        Token::Ul | Token::Ol | Token::Blockquote => c is ElementNodes,
        Token::Table => c is Table,
    }
}

/// A well-formed content value: its tables are well formed, down the
/// whole tree.
pub open spec fn wf_content(c: ContentV) -> bool
    decreases c,
{
    match c {
        ContentV::PlainText { value } => true,
        ContentV::ElementNode { value } => wf_node(*value),
        ContentV::ElementNodes { value } => wf_nodes(value),
        ContentV::Table { value } => wf_table(value),
    }
}

/// A well-formed node value: its content variant matches its kind
/// and its tables are well formed, down the whole tree.  The builders
/// construct only such nodes, so a tag whose content does not match
/// is a contract violation, never a rendered value.
pub open spec fn wf_node(n: NodeV) -> bool
    decreases n,
{
    match n {
        NodeV::Exist { tag, content, children } => content_matches_tag(tag, content)
            && wf_content(content) && wf_node(*children),
        NodeV::Nil => true,
    }
}

/// A well-formed node sequence: each node is well formed.
pub open spec fn wf_nodes(v: Seq<NodeV>) -> bool
    decreases v,
{
    if v.len() == 0 {
        true
    } else {
        wf_node(v.first()) && wf_nodes(v.drop_first())
    }
}

pub proof fn lemma_wf_nodes_index(v: Seq<NodeV>)
    requires
        wf_nodes(v),
    ensures
        forall|i: int| 0 <= i < v.len() ==> wf_node(v[i]),
    decreases v,
{
    if v.len() > 0 {
        lemma_wf_nodes_index(v.drop_first());
        assert(forall|i: int| 1 <= i < v.len() ==> v[i] == v.drop_first()[i - 1]);
    }
}

/// A node sequence built by putting a well-formed node before a
/// well-formed sequence is well formed.
pub proof fn lemma_wf_cons(n: NodeV, rest: Seq<NodeV>)
    requires
        wf_node(n),
        wf_nodes(rest),
    ensures
        wf_nodes(seq![n] + rest),
{
    assert((seq![n] + rest).first() == n);
    assert((seq![n] + rest).drop_first() =~= rest);
}

pub proof fn lemma_nodes_view_push(v: Seq<ElementNode>, x: ElementNode)
    ensures
        nodes_view(v.push(x)) == nodes_view(v).push(node_view(x)),
{
    assert(v.push(x).drop_last() =~= v);
    assert(v.push(x).last() == x);
}

impl View for Content {
    type V = ContentV;

    open spec fn view(&self) -> ContentV {
        content_view(*self)
    }
}

impl View for ElementNode {
    type V = NodeV;

    open spec fn view(&self) -> NodeV {
        node_view(*self)
    }
}

impl TableHead {
    /// Builds a header cell with its alignment.
    pub fn new(cell: String, align: Align) -> (r: Self)
        ensures
            r@ == (TableHeadV { cell: cell@, align }),
    {
        TableHead { cell, align }
    }
}

impl TableHead {
    /// The CSS `text-align` value of this cell's column.
    pub(crate) fn get_align(&self) -> (r: String)
        ensures
            r@ == self@.align.spec_value(),
    {
        self.align.value()
    }

    /// A reference to this cell's text.
    pub(crate) fn cell_text(&self) -> (r: &String)
        ensures
            r@ == self@.cell,
    {
        &self.cell
    }
}

impl Table {
    /// Builds a table from its header and body rows.
    pub fn new(head: Vec<TableHead>, body: Vec<Vec<String>>) -> (r: Self)
        ensures
            r@ == (TableV { head: heads_view(head@), body: body.deep_view() }),
    {
        Table { head, body }
    }
}

impl ElementNode {
    /// Builds a present node from its kind, content and nested child.
    pub fn new(tag: Token, content: Content, children: Box<ElementNode>) -> (r: Self)
        ensures
            r@ == (NodeV::Exist {
                tag,
                content: content@,
                children: Box::new(children@),
            }),
    {
        ElementNode::Exist { tag, content: Box::new(content), children }
    }
}

impl Token {
    /// The HTML element name of this node kind.
    pub open spec fn spec_value(&self) -> Seq<char> {
        match self {
            Token::H1 => "h1"@,
            Token::H2 => "h2"@,
            Token::H3 => "h3"@,
            Token::H4 => "h4"@,
            Token::H5 => "h5"@,
            Token::H6 => "h6"@,
            Token::P => "p"@,
            Token::Ul => "ul"@,
            Token::Ol => "ol"@,
            Token::Li => "li"@,
            Token::Blockquote => "blockquote"@,
            Token::Code => "code"@,
            Token::Table => "table"@,
        }
    }

    /// The HTML element name of this node kind.
    pub fn value(&self) -> (r: String)
        ensures
            r@ == self.spec_value(),
    {
        let s: &str = match self {
            Token::H1 => "h1",
            Token::H2 => "h2",
            Token::H3 => "h3",
            Token::H4 => "h4",
            Token::H5 => "h5",
            Token::H6 => "h6",
            Token::P => "p",
            Token::Ul => "ul",
            Token::Ol => "ol",
            Token::Li => "li",
            Token::Blockquote => "blockquote",
            Token::Code => "code",
            Token::Table => "table",
        };
        s.to_owned()
    }

    /// The heading kind of a `#` count, with the paragraph kind for any
    /// count outside 1 through 6.
    pub open spec fn spec_value_of(number: i8) -> Token {
        if number == 1 {
            Token::H1
        } else if number == 2 {
            Token::H2
        } else if number == 3 {
            Token::H3
        } else if number == 4 {
            Token::H4
        } else if number == 5 {
            Token::H5
        } else if number == 6 {
            Token::H6
        } else {
            Token::P
        }
    }

    /// Maps a heading level to its node kind; any level outside 1
    /// through 6 is a paragraph.
    pub fn value_of(number: i8) -> (r: Self)
        ensures
            r == Token::spec_value_of(number),
    {
        match number {
            1 => Token::H1,
            2 => Token::H2,
            3 => Token::H3,
            4 => Token::H4,
            5 => Token::H5,
            6 => Token::H6,
            _ => Token::P,
        }
    }
}

impl Align {
    /// The CSS `text-align` value of this alignment.
    pub open spec fn spec_value(&self) -> Seq<char> {
        match self {
            Align::Center => "center"@,
            Align::Left => "left"@,
            Align::Right => "right"@,
        }
    }

    /// The CSS `text-align` value of this alignment.
    pub fn value(&self) -> (r: String)
        ensures
            r@ == self.spec_value(),
    {
        let s: &str = match self {
            Align::Center => "center",
            Align::Left => "left",
            Align::Right => "right",
        };
        s.to_owned()
    }
}

} // verus!
