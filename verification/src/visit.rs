//! Traversal of the syntax tree: the visitor trait and the HTML and Markdown emitters.
use vstd::prelude::*;
use vstd::string::StringExecFns;
use crate::ast::{lemma_view_nodes, AstNode, AstView, NodeKind, NodeKindView};
use crate::lex::{InlineFormat, Token, TokenView};

verus! {

/// The node has a heading marker and a line.
pub open spec fn heading_shape(n: AstView) -> bool {
    &&& n.children.len() >= 2
    &&& n.children[0].kind matches NodeKindView::Token(TokenView::HeadingMarker { .. })
}

/// The node has a single-style format opener and a non-empty paragraph.
pub open spec fn format_shape(n: AstView) -> bool {
    &&& n.children.len() >= 2
    &&& n.children[0].kind matches NodeKindView::Token(TokenView::InlineFormat { ty, .. })
    &&& ty != InlineFormat::BoldItalic
    &&& n.children[1].children.len() > 0
}

/// The depth of a heading node's marker.
pub open spec fn heading_depth(n: AstView) -> u8 {
    match n.children[0].kind {
        NodeKindView::Token(TokenView::HeadingMarker { depth }) => depth,
        _ => 0,
    }
}

/// The style of a format node's opener.
pub open spec fn format_style(n: AstView) -> InlineFormat {
    match n.children[0].kind {
        NodeKindView::Token(TokenView::InlineFormat { ty, .. }) => ty,
        _ => InlineFormat::Bold,
    }
}

/// The text of a decimal digit.
pub open spec fn digit_text(d: nat) -> Seq<char> {
    if d == 0 {
        "0"@
    } else if d == 1 {
        "1"@
    } else if d == 2 {
        "2"@
    } else if d == 3 {
        "3"@
    } else if d == 4 {
        "4"@
    } else if d == 5 {
        "5"@
    } else if d == 6 {
        "6"@
    } else if d == 7 {
        "7"@
    } else if d == 8 {
        "8"@
    } else {
        "9"@
    }
}

/// A number written in decimal.
pub open spec fn decimal(n: nat) -> Seq<char>
    decreases n,
{
    if n < 10 {
        digit_text(n)
    } else {
        decimal(n / 10) + digit_text(n % 10)
    }
}

/// `n` hash signs.
pub open spec fn hashes(n: nat) -> Seq<char>
    decreases n,
{
    if n == 0 {
        Seq::empty()
    } else {
        hashes((n - 1) as nat) + "#"@
    }
}

fn append_digit(out: &mut String, d: u8)
    requires
        d < 10,
    ensures
        final(out)@ == old(out)@ + digit_text(d as nat),
{
    if d == 0 {
        out.append("0");
    } else if d == 1 {
        out.append("1");
    } else if d == 2 {
        out.append("2");
    } else if d == 3 {
        out.append("3");
    } else if d == 4 {
        out.append("4");
    } else if d == 5 {
        out.append("5");
    } else if d == 6 {
        out.append("6");
    } else if d == 7 {
        out.append("7");
    } else if d == 8 {
        out.append("8");
    } else {
        out.append("9");
    }
}

fn append_decimal(out: &mut String, n: u8)
    ensures
        final(out)@ == old(out)@ + decimal(n as nat),
{
    if n >= 100 {
        append_digit(out, n / 100);
        append_digit(out, (n / 10) % 10);
        append_digit(out, n % 10);
        proof {
            let m = n as nat;
            assert(m / 10 >= 10);
            assert((m / 10) / 10 == m / 100);
            assert(decimal(m / 10) == decimal(m / 100) + digit_text((m / 10) % 10));
            assert(decimal(m / 100) == digit_text(m / 100));
        }
    } else if n >= 10 {
        append_digit(out, n / 10);
        append_digit(out, n % 10);
        proof {
            let m = n as nat;
            assert(decimal(m / 10) == digit_text(m / 10));
        }
    } else {
        append_digit(out, n);
    }
}

fn append_hashes(out: &mut String, n: u8)
    ensures
        final(out)@ == old(out)@ + hashes(n as nat),
{
    let ghost start = out@;
    let mut i: u8 = 0;
    while i < n
        invariant
            i <= n,
            out@ == start + hashes(i as nat),
        decreases n - i,
    {
        out.append("#");
        i += 1;
        proof {
            assert(out@ == start + hashes(i as nat));
        }
    }
}

/// A visitor over the nodes of the syntax tree.
///
/// Each method visits a node of the kind it is named after; by default it does nothing.
/// The nodes that the grammar builds for a rule have the shape that the method for
/// that rule requires.
pub trait AstVisitor<'a>: Sized {
    // Rules
    fn visit_markup(&mut self, node: &AstNode<'a>) {
    }

    fn visit_top_level_element(&mut self, node: &AstNode<'a>) {
    }

    fn visit_heading(&mut self, node: &AstNode<'a>)
        requires
            heading_shape(node@),
    {
    }

    fn visit_line(&mut self, node: &AstNode<'a>)
        default_ensures
            *final(self) == *old(self),
    {
    }

    fn visit_line_element(&mut self, node: &AstNode<'a>)
        default_ensures
            *final(self) == *old(self),
    {
    }

    fn visit_format(&mut self, node: &AstNode<'a>)
        requires
            format_shape(node@),
    {
    }

    fn visit_link(&mut self, node: &AstNode<'a>) {
    }

    fn visit_embed(&mut self, node: &AstNode<'a>) {
    }

    fn visit_paragraph(&mut self, node: &AstNode<'a>)
        requires
            node@.children.len() > 0,
        default_ensures
            *final(self) == *old(self),
    {
    }

    fn visit_link_target(&mut self, node: &AstNode<'a>) {
    }

    fn visit_list(&mut self, node: &AstNode<'a>) {
    }

    fn visit_list_item(&mut self, node: &AstNode<'a>) {
    }

    fn visit_line_quote(&mut self, node: &AstNode<'a>)
        requires
            node@.children.len() >= 2,
    {
    }

    fn visit_block_quote(&mut self, node: &AstNode<'a>)
        requires
            node@.children.len() >= 3,
    {
    }

    fn visit_macro_rule(&mut self, node: &AstNode<'a>) {
    }

    // Tokens
    fn visit_plaintext(&mut self, node: &AstNode<'a>) {
    }

    fn visit_literal(&mut self, node: &AstNode<'a>) {
    }

    fn visit_link_body(&mut self, node: &AstNode<'a>) {
    }

    fn visit_link_alias_body(&mut self, node: &AstNode<'a>) {
    }

    fn visit_inferred_link(&mut self, node: &AstNode<'a>) {
    }

    fn visit_link_marker(&mut self, node: &AstNode<'a>) {
    }

    fn visit_embed_marker(&mut self, node: &AstNode<'a>) {
    }

    fn visit_macro_handle(&mut self, node: &AstNode<'a>) {
    }

    fn visit_inline_code(&mut self, node: &AstNode<'a>) {
    }

    fn visit_inline_raw_code(&mut self, node: &AstNode<'a>) {
    }

    fn visit_inline_math(&mut self, node: &AstNode<'a>) {
    }

    fn visit_inline_format(&mut self, node: &AstNode<'a>) {
    }

    fn visit_newline(&mut self, node: &AstNode<'a>) {
    }

    fn visit_horizontal_rule(&mut self, node: &AstNode<'a>) {
    }

    fn visit_line_quote_marker(&mut self, node: &AstNode<'a>) {
    }

    fn visit_block_quote_open(&mut self, node: &AstNode<'a>) {
    }

    fn visit_block_quote_close(&mut self, node: &AstNode<'a>) {
    }

    fn visit_macro_args(&mut self, node: &AstNode<'a>) {
    }

    fn visit_macro_body(&mut self, node: &AstNode<'a>) {
    }

    fn visit_heading_marker(&mut self, node: &AstNode<'a>) {
    }

    fn visit_code_block(&mut self, node: &AstNode<'a>) {
    }

    fn visit_math_block(&mut self, node: &AstNode<'a>) {
    }

    fn visit_checkbox(&mut self, node: &AstNode<'a>) {
    }

    fn visit_list_item_marker(&mut self, node: &AstNode<'a>) {
    }

    fn visit_numbered_item_marker(&mut self, node: &AstNode<'a>) {
    }

    fn visit_assignment_marker(&mut self, node: &AstNode<'a>) {
    }

    // Everything else
    fn visit_none(&mut self, node: &AstNode<'a>) {
    }
}

/// The tags that open a formatted span in HTML.
pub open spec fn html_format_open(ty: InlineFormat) -> Seq<char> {
    match ty {
        InlineFormat::Bold => "<b class='dt-bold'>"@,
        InlineFormat::Highlight => "<mark class='dt-hl'>"@,
        InlineFormat::Italic => "<i class='dt-italic'>"@,
        InlineFormat::Strikethrough => "<s class='dt-rem'>"@,
        InlineFormat::Underline => "<u class='dt-under'>"@,
        InlineFormat::BoldItalic => Seq::empty(),
    }
}

/// The tags that close a formatted span in HTML.
pub open spec fn html_format_close(ty: InlineFormat) -> Seq<char> {
    match ty {
        InlineFormat::Bold => "</b>"@,
        InlineFormat::Highlight => "</mark>"@,
        InlineFormat::Italic => "</i>"@,
        InlineFormat::Strikethrough => "</s>"@,
        InlineFormat::Underline => "</u>"@,
        InlineFormat::BoldItalic => Seq::empty(),
    }
}

/// What the HTML emitter writes for a paragraph.
pub open spec fn html_paragraph() -> Seq<char> {
    "<p class='dt-pgraph'>"@ + "</p>"@
}

/// Emits HTML.
///
/// Emitted CSS obeys block-element-modifier (BEM) rules:
/// - **Block:** `.block`
/// - **Element:** `.block__element`
/// - **Modifier:** `.block--modifier` or `.block__element--modifier`
pub struct HtmlVisitor {
    pub out: String,
    pub in_pgraph: bool,
}

impl HtmlVisitor {
    /// An emitter with no output.
    pub fn new() -> (v: HtmlVisitor)
        ensures
            v.out@ == Seq::<char>::empty(),
            !v.in_pgraph,
    {
        HtmlVisitor { out: String::new(), in_pgraph: false }
    }
}

impl<'a> AstVisitor<'a> for HtmlVisitor {
    fn visit_paragraph(&mut self, node: &AstNode<'a>)
        ensures
            final(self).out@ == old(self).out@ + html_paragraph(),
            !final(self).in_pgraph,
    {
        self.in_pgraph = true;
        self.out.append("<p class='dt-pgraph'>");
        proof {
            lemma_view_nodes(node.children@);
        }
        let first = &node.children[0];
        let ghost out0 = self.out@;
        let mut i: usize = 0;
        while i < first.children.len()
            invariant
                i <= first.children@.len(),
                self.out@ == out0,
            decreases first.children@.len() - i,
        {
            if first.children[i].is_branch() {
                self.visit_line_element(&first.children[i]);
            }
            i += 1;
        }
        self.out.append("</p>");
        self.in_pgraph = false;
    }

    fn visit_newline(&mut self, node: &AstNode<'a>)
        ensures
            final(self).out@ == old(self).out@ + " "@,
            final(self).in_pgraph == old(self).in_pgraph,
    {
        self.out.append(" ");
    }

    fn visit_markup(&mut self, node: &AstNode<'a>)
        ensures
            *final(self) == *old(self),
    {
    }

    fn visit_heading(&mut self, node: &AstNode<'a>)
        ensures
            final(self).out@ == old(self).out@ + "<h"@ + decimal(heading_depth(node@) as nat) + ">"@
                + "</h"@ + decimal(heading_depth(node@) as nat) + ">"@,
            final(self).in_pgraph == old(self).in_pgraph,
    {
        proof {
            lemma_view_nodes(node.children@);
        }
        let depth = match node.children[0].kind {
            NodeKind::Token(Token::HeadingMarker { depth }) => depth,
            _ => 0,
        };
        self.out.append("<h");
        append_decimal(&mut self.out, depth);
        self.out.append(">");
        self.visit_line(&node.children[1]);
        self.out.append("</h");
        append_decimal(&mut self.out, depth);
        self.out.append(">");
    }

    fn visit_format(&mut self, node: &AstNode<'a>)
        ensures
            final(self).out@ == old(self).out@ + html_format_open(format_style(node@)) + html_paragraph()
                + html_format_close(format_style(node@)),
            !final(self).in_pgraph,
    {
        proof {
            lemma_view_nodes(node.children@);
            lemma_view_nodes(node.children@[1].children@);
        }
        let ty = match node.children[0].kind {
            NodeKind::Token(Token::InlineFormat { ty, .. }) => ty,
            _ => InlineFormat::Bold,
        };
        match ty {
            InlineFormat::Bold => {
                self.out.append("<b class='dt-bold'>");
                self.visit_paragraph(&node.children[1]);
                self.out.append("</b>");
            },
            InlineFormat::Highlight => {
                self.out.append("<mark class='dt-hl'>");
                self.visit_paragraph(&node.children[1]);
                self.out.append("</mark>");
            },
            InlineFormat::Italic => {
                self.out.append("<i class='dt-italic'>");
                self.visit_paragraph(&node.children[1]);
                self.out.append("</i>");
            },
            InlineFormat::Strikethrough => {
                self.out.append("<s class='dt-rem'>");
                self.visit_paragraph(&node.children[1]);
                self.out.append("</s>");
            },
            InlineFormat::Underline => {
                self.out.append("<u class='dt-under'>");
                self.visit_paragraph(&node.children[1]);
                self.out.append("</u>");
            },
            InlineFormat::BoldItalic => {},
        }
    }

    fn visit_horizontal_rule(&mut self, node: &AstNode<'a>)
        ensures
            final(self).out@ == old(self).out@ + "<hr>"@,
            final(self).in_pgraph == old(self).in_pgraph,
    {
        self.out.append("<hr>");
    }

    fn visit_line_quote(&mut self, node: &AstNode<'a>)
        ensures
            final(self).out@ == old(self).out@ + "<blockquote>"@ + "</blockquote>"@,
            final(self).in_pgraph == old(self).in_pgraph,
    {
        proof {
            lemma_view_nodes(node.children@);
        }
        self.out.append("<blockquote>");
        self.visit_line(&node.children[1]);
        self.out.append("</blockquote>");
    }

    fn visit_block_quote(&mut self, node: &AstNode<'a>)
        ensures
            final(self).out@ == old(self).out@ + "<blockquote>"@ + "</blockquote>"@,
            final(self).in_pgraph == old(self).in_pgraph,
    {
        proof {
            lemma_view_nodes(node.children@);
        }
        self.out.append("<blockquote>");
        self.visit_line(&node.children[2]);
        self.out.append("</blockquote>");
    }

    fn visit_line_quote_marker(&mut self, node: &AstNode<'a>)
        ensures
            *final(self) == *old(self),
    {
    }

    fn visit_block_quote_open(&mut self, node: &AstNode<'a>)
        ensures
            *final(self) == *old(self),
    {
    }

    fn visit_block_quote_close(&mut self, node: &AstNode<'a>)
        ensures
            *final(self) == *old(self),
    {
    }
}

/// The markers that open and close a formatted span in Markdown.
pub open spec fn md_format_mark(ty: InlineFormat) -> Seq<char> {
    match ty {
        InlineFormat::Bold => "**"@,
        InlineFormat::Highlight => "***"@,
        InlineFormat::Italic => "*"@,
        InlineFormat::Strikethrough => "~~"@,
        InlineFormat::Underline => "<ins>"@,
        InlineFormat::BoldItalic => Seq::empty(),
    }
}

pub open spec fn md_format_close(ty: InlineFormat) -> Seq<char> {
    match ty {
        InlineFormat::Underline => "</ins>"@,
        _ => md_format_mark(ty),
    }
}

/// Transforms an AST into Github-flavored Markdown (GFM).
pub struct MarkdownVisitor {
    pub out: String,
}

impl MarkdownVisitor {
    /// An emitter with no output.
    pub fn new() -> (v: MarkdownVisitor)
        ensures
            v.out@ == Seq::<char>::empty(),
    {
        MarkdownVisitor { out: String::new() }
    }
}

impl<'a> AstVisitor<'a> for MarkdownVisitor {
    fn visit_horizontal_rule(&mut self, node: &AstNode<'a>)
        ensures
            final(self).out@ == old(self).out@ + "---"@,
    {
        self.out.append("---");
    }

    fn visit_newline(&mut self, node: &AstNode<'a>)
        ensures
            final(self).out@ == old(self).out@ + "\n"@,
    {
        self.out.append("\n");
    }

    fn visit_heading(&mut self, node: &AstNode<'a>)
        ensures
            final(self).out@ == old(self).out@ + hashes(heading_depth(node@) as nat) + " "@,
    {
        proof {
            lemma_view_nodes(node.children@);
        }
        let depth = match node.children[0].kind {
            NodeKind::Token(Token::HeadingMarker { depth }) => depth,
            _ => 0,
        };
        append_hashes(&mut self.out, depth);
        self.out.append(" ");
        self.visit_line(&node.children[1]);
    }

    fn visit_format(&mut self, node: &AstNode<'a>)
        ensures
            final(self).out@ == old(self).out@ + md_format_mark(format_style(node@)) + md_format_close(
                format_style(node@),
            ),
    {
        proof {
            lemma_view_nodes(node.children@);
        }
        let ty = match node.children[0].kind {
            NodeKind::Token(Token::InlineFormat { ty, .. }) => ty,
            _ => InlineFormat::Bold,
        };
        match ty {
            InlineFormat::Bold => {
                self.out.append("**");
                self.visit_paragraph(&node.children[1]);
                self.out.append("**");
            },
            InlineFormat::Highlight => {
                self.out.append("***");
                self.visit_paragraph(&node.children[1]);
                self.out.append("***");
            },
            InlineFormat::Italic => {
                self.out.append("*");
                self.visit_paragraph(&node.children[1]);
                self.out.append("*");
            },
            InlineFormat::Strikethrough => {
                self.out.append("~~");
                self.visit_paragraph(&node.children[1]);
                self.out.append("~~");
            },
            InlineFormat::Underline => {
                self.out.append("<ins>");
                self.visit_paragraph(&node.children[1]);
                self.out.append("</ins>");
            },
            InlineFormat::BoldItalic => {},
        }
    }

    fn visit_line_quote(&mut self, node: &AstNode<'a>)
        ensures
            final(self).out@ == old(self).out@ + "> "@ + "\n"@,
    {
        proof {
            lemma_view_nodes(node.children@);
        }
        self.out.append("> ");
        self.visit_line(&node.children[1]);
        self.out.append("\n");
    }

    fn visit_block_quote(&mut self, node: &AstNode<'a>)
        ensures
            final(self).out@ == old(self).out@ + "<blockquote>"@ + "</blockquote>"@,
    {
        proof {
            lemma_view_nodes(node.children@);
        }
        self.out.append("<blockquote>");
        self.visit_line(&node.children[2]);
        self.out.append("</blockquote>");
    }

    fn visit_line_quote_marker(&mut self, node: &AstNode<'a>)
        ensures
            *final(self) == *old(self),
    {
    }
}

/// The HTML for an embedded media element.
pub open spec fn spec_media_html(tag: Seq<char>, url: Seq<char>) -> Seq<char> {
    "<"@ + tag + " src='"@ + url + "' controls>"@
        + "<span class='dt-error'>Your browser does not support the &lt;$tag&gt; tag.</span>"@ + "</"@
        + tag + ">"@
}

/// Returns the HTML for an embedded media element with a fallback message.
pub fn media_html(tag: &str, url: &str) -> (r: String)
    ensures
        r@ == spec_media_html(tag@, url@),
{
    let mut out = String::new();
    out.append("<");
    out.append(tag);
    out.append(" src='");
    out.append(url);
    out.append("' controls>");
    out.append("<span class='dt-error'>Your browser does not support the &lt;$tag&gt; tag.</span>");
    out.append("</");
    out.append(tag);
    out.append(">");
    out
}

} // verus!
