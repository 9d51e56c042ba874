//! A markdown-to-HTML engine with a fixed CSS class naming scheme.
//!
//! The input document is split into lines, classified into blocks
//! (headings, paragraphs, nested lists, nested blockquotes, fenced code
//! blocks and pipe-delimited tables), built into a tree of typed nodes,
//! and rendered to HTML whose elements carry `flav-md-*` classes.
use crate::builder::render_doc;
use crate::lexer::{lemma_parse_wf, parse_spec_at, Lexer};
use crate::util::{split_lines, split_string};
use vstd::prelude::*;

pub mod builder;
pub mod code_block;
pub mod inline;
pub mod lexer;
pub mod list;
pub mod node;
pub mod quote;
pub mod table;
pub mod util;

verus! {

/// The HTML a markdown document renders to: its lines parsed into a
/// tree and the tree serialized.
pub open spec fn html_of(md: Seq<char>) -> Seq<char> {
    render_doc(parse_spec_at(split_lines(md), 0))
}

/// The engine: holds the HTML and the stylesheet of the last build.
pub struct FlavMd {
    html_text: String,
    css_text: String,
}

impl View for FlavMd {
    type V = (Seq<char>, Seq<char>);

    closed spec fn view(&self) -> (Seq<char>, Seq<char>) {
        (self.html_text@, self.css_text@)
    }
}

impl FlavMd {
    /// Builds an engine with no document yet.
    pub fn new() -> (r: Self)
        ensures
            r@ == (Seq::<char>::empty(), Seq::<char>::empty()),
    {
        FlavMd { html_text: String::new(), css_text: String::new() }
    }

    /// Renders a markdown document and embeds the given stylesheet
    /// verbatim before it.
    pub fn build(&mut self, md_text: String, css_text: String) -> (r: String)
        ensures
            r@ == "<style>"@ + css_text@ + "</style>\n"@ + html_of(md_text@),
            final(self)@ == (html_of(md_text@), css_text@),
    {
        let lines = split_string(md_text);
        let lexer = Lexer::new(lines);
        let md = lexer.parse();
        proof {
            lemma_parse_wf(split_lines(md_text@), 0);
        }
        self.html_text = md.to_html_string();
        self.css_text = css_text;
        let mut out = String::from_str("<style>");
        out.append(self.css_text.as_str());
        out.append("</style>\n");
        out.append(self.html_text.as_str());
        out
    }
}

/// A one-line document that holds no inline markup and no block
/// markup renders to a single paragraph carrying the text unchanged:
/// plain text is passed through without escaping.
#[verifier::rlimit(60)]
pub proof fn lemma_plain_text_renders_verbatim(s: Seq<char>)
    requires
        forall|i: int|
            0 <= i < s.len() ==> s[i] != '[' && s[i] != '`' && s[i] != '*' && s[i] != '\n',
        s.len() == 0 || s[0] != '#',
        !crate::list::is_simple_spec(s),
        !crate::list::is_number_spec(s),
        !crate::quote::is_quote_spec(s),
        !crate::table::is_table_spec(s),
    ensures
        html_of(s) == "<p class=\"flav-md-text flav-md-p\">"@ + s + "</p>"@,
{
    crate::util::lemma_find_char_from(s, '\n', 0);
    assert(crate::util::find_char_from(s, '\n', 0) == s.len());
    assert(split_lines(s) =~= seq![s]);
    let v = seq![s];
    assert(!crate::code_block::is_fence_spec(s)) by {
        if crate::code_block::is_fence_spec(s) {
            assert(s[0] == '`');
        }
    }
    crate::inline::lemma_inline_plain_text(s);
    let node = crate::lexer::text_node(node::Token::P, s);
    assert(parse_spec_at(v, 1) =~= Seq::<node::NodeV>::empty());
    assert(parse_spec_at(v, 0) == seq![node] + Seq::<node::NodeV>::empty());
    assert(parse_spec_at(v, 0) =~= seq![node]);
    assert(render_doc(seq![node]) == crate::builder::render_node(node, 0));
    reveal_strlit("p");
    reveal_strlit("<");
    reveal_strlit(" class=\"");
    reveal_strlit("flav-md-text");
    reveal_strlit(" ");
    reveal_strlit("flav-md-p");
    reveal_strlit("\">");
    reveal_strlit("</");
    reveal_strlit(">");
    reveal_strlit("<p class=\"flav-md-text flav-md-p\">");
    reveal_strlit("</p>");
    let cl = crate::builder::classes_spec(node::Token::P);
    assert(cl.drop_first() =~= seq!["flav-md-p"@]);
    assert(crate::util::join_sep(seq!["flav-md-p"@], " "@) == "flav-md-p"@);
    assert(crate::builder::class_attr(node::Token::P) =~= "flav-md-text"@ + " "@ + "flav-md-p"@);
    assert(crate::builder::sp(0) =~= Seq::<char>::empty());
    assert(crate::builder::render_node(node, 0) =~= "<p class=\"flav-md-text flav-md-p\">"@ + s
        + "</p>"@);
}

/// Builds a fresh engine.
pub fn create_flav_md() -> (r: FlavMd)
    ensures
        r@ == (Seq::<char>::empty(), Seq::<char>::empty()),
{
    FlavMd::new()
}

} // verus!
