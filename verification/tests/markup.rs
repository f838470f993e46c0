use draft::ast::{AstNode, NodeKind, NodeMetadata, RuleKind, SymbolKind};
use draft::grammar::{assemble_ast, Grammar, TokenStream};
use draft::lex::{
    CheckboxType, DynConf, InlineFormat, ListItemKind, ListItemPos, Numbering, StaticConf, Token,
    TokenKind, TokenSpan,
};
use draft::lexer::{LexerError, MarkupSyntax, Scanner};
use draft::SliceExt;
use draft::visit::{media_html, AstVisitor, HtmlVisitor, MarkdownVisitor};
use draft::Compile;

fn lex<'a>(input: &'a str, dyn_conf: &'a DynConf, conf: &'a StaticConf) -> Result<Vec<TokenSpan<'a>>, LexerError> {
    let syntax = MarkupSyntax::new(dyn_conf, conf, input.as_bytes());
    syntax.compile()
}

fn span(token: Token<'static>, start: usize, end: usize) -> TokenSpan<'static> {
    TokenSpan::new(token, start, end)
}

fn assert_tiles(tokens: &[TokenSpan<'_>], n: usize) {
    if tokens.is_empty() {
        assert_eq!(n, 0);
        return;
    }
    assert_eq!(tokens[0].start, 0);
    for w in tokens.windows(2) {
        assert_eq!(w[1].start, w[0].end);
    }
    assert_eq!(tokens[tokens.len() - 1].end, n);
}

#[test]
fn configuration_defaults() {
    let d = DynConf::default();
    assert!(!d.latex_math);
    assert_eq!(d.code_lang, "txt");
    let s = StaticConf::default();
    assert!(!s.finance_mode && !s.trusted_mode && s.infer_links && !s.single_line_mode);
}

#[test]
fn plain_text_is_one_token() {
    let d = DynConf::default();
    let c = StaticConf::default();
    let tokens = lex("abc", &d, &c).unwrap();
    assert_eq!(tokens, vec![span(Token::Plaintext, 0, 3)]);
    assert!(lex("", &d, &c).unwrap().is_empty());
}

#[test]
fn heading_tokens() {
    let input = "== Title\n\n";
    let d = DynConf::default();
    let c = StaticConf::default();
    let tokens = lex(input, &d, &c).unwrap();
    assert_eq!(
        tokens,
        vec![
            span(Token::HeadingMarker { depth: 2 }, 0, 2),
            span(Token::Plaintext, 2, 8),
            span(Token::Newline, 8, 9),
            span(Token::Newline, 9, 10),
        ]
    );
    assert_tiles(&tokens, input.len());
}

#[test]
fn format_tokens() {
    let input = "*hi* x\n";
    let d = DynConf::default();
    let c = StaticConf::default();
    let tokens = lex(input, &d, &c).unwrap();
    assert_eq!(
        tokens,
        vec![
            span(Token::InlineFormat { ty: InlineFormat::Italic, twin_pos: 3 }, 0, 1),
            span(Token::Plaintext, 1, 3),
            span(Token::InlineFormat { ty: InlineFormat::Italic, twin_pos: 0 }, 3, 4),
            span(Token::Plaintext, 4, 6),
            span(Token::Newline, 6, 7),
        ]
    );
    assert_tiles(&tokens, input.len());
}

#[test]
fn finance_mode_has_no_inline_math() {
    let mut conf = StaticConf::default();
    conf.finance_mode = true;
    let input = "$x$ $y$\n";
    let d = DynConf::default();
    let tokens = lex(input, &d, &conf).unwrap();
    assert!(tokens.iter().all(|t| t.token.kind() != TokenKind::InlineMath));
    assert_eq!(tokens, vec![span(Token::Plaintext, 0, 7), span(Token::Newline, 7, 8)]);
}

#[test]
fn invalid_utf8_is_refused_unless_trusted() {
    let bytes = [b'a', 0xff, b'b'];
    let dyn_conf = DynConf::default();
    let conf = StaticConf::default();
    let syntax = MarkupSyntax::new(&dyn_conf, &conf, &bytes);
    assert!(matches!(syntax.compile(), Err(LexerError::InvalidUtf8(_))));
    let mut trusted = StaticConf::default();
    trusted.trusted_mode = true;
    let syntax = MarkupSyntax::new(&dyn_conf, &trusted, &bytes);
    let tokens = syntax.compile().unwrap();
    assert_eq!(tokens, vec![span(Token::Plaintext, 0, 3)]);
}

#[test]
fn paragraph_spacing() {
    let dyn_conf = DynConf::default();
    let conf = StaticConf::default();
    assert_eq!(MarkupSyntax::new(&dyn_conf, &conf, b"").default_pgraph_spacing(), 2);
    let mut single = StaticConf::default();
    single.single_line_mode = true;
    assert_eq!(MarkupSyntax::new(&dyn_conf, &single, b"").default_pgraph_spacing(), 1);
}

#[test]
fn empty_input_gives_empty_root() {
    let tokens: Vec<TokenSpan<'static>> = vec![];
    let out = assemble_ast(&tokens).unwrap();
    assert!(out.root.children.is_empty());
    assert_eq!(out.root.kind, NodeKind::Rule(RuleKind::Markup));
    assert_eq!(out.rest.pos, 0);
}

#[test]
fn heading_tree_and_emitters() {
    let d = DynConf::default();
    let c = StaticConf::default();
    let tokens = lex("== Title\n\n", &d, &c).unwrap();
    let out = assemble_ast(&tokens).unwrap();
    assert_eq!(out.rest.pos, 4);
    assert_eq!(out.root.children.len(), 1);
    let top = &out.root.children[0];
    assert_eq!(top.meta, NodeMetadata::Choice(6));
    assert_eq!(top.parent, Some(RuleKind::Markup));
    let heading = &top.children[0];
    assert_eq!(heading.kind, NodeKind::Rule(RuleKind::Heading));
    assert_eq!(heading.children.len(), 3);
    assert_eq!((heading.start, heading.end), (0, 10));
    assert_eq!(heading.children[1].kind, NodeKind::Rule(RuleKind::Line));

    let mut html = HtmlVisitor::new();
    html.visit_heading(heading);
    assert_eq!(html.out, "<h2></h2>");
    let mut md = MarkdownVisitor::new();
    md.visit_heading(heading);
    assert_eq!(md.out, "## ");
}

#[test]
fn paragraph_tree_and_emitter() {
    let d = DynConf::default();
    let c = StaticConf::default();
    let tokens = lex("hello", &d, &c).unwrap();
    let out = assemble_ast(&tokens).unwrap();
    assert_eq!(out.rest.pos, 1);
    let top = &out.root.children[0];
    assert_eq!(top.meta, NodeMetadata::Choice(4));
    let para = &top.children[0];
    assert_eq!(para.kind, NodeKind::Rule(RuleKind::Group));
    assert_eq!(para.children.len(), 1);
    assert_eq!(para.children[0].meta, NodeMetadata::Choice(1));
    let element = &para.children[0].children[0];
    assert_eq!(element.kind, NodeKind::Rule(RuleKind::LineElement));
    assert_eq!(element.meta, NodeMetadata::Choice(0));
    assert!(element.children[0].is_leaf());

    let mut html = HtmlVisitor::new();
    html.visit_paragraph(para);
    assert_eq!(html.out, "<p class='dt-pgraph'></p>");
    assert!(!html.in_pgraph);
}

#[test]
fn format_tree_and_emitters() {
    let d = DynConf::default();
    let c = StaticConf::default();
    let tokens = lex("*hi* x\n", &d, &c).unwrap();
    let out = assemble_ast(&tokens).unwrap();
    assert_eq!(out.rest.pos, 5);
    let para = &out.root.children[0].children[0];
    assert_eq!(para.children.len(), 3);
    let element = &para.children[0].children[0];
    assert_eq!(element.meta, NodeMetadata::Choice(5));
    let format = &element.children[0];
    assert_eq!(format.kind, NodeKind::Rule(RuleKind::Format));
    assert_eq!((format.start, format.end), (0, 4));

    let mut html = HtmlVisitor::new();
    html.visit_format(format);
    assert_eq!(html.out, "<i class='dt-italic'><p class='dt-pgraph'></p></i>");
    let mut md = MarkdownVisitor::new();
    md.visit_format(format);
    assert_eq!(md.out, "**");
}

#[test]
fn list_marks_first_and_last() {
    let tokens = vec![
        span(Token::ListItemMarker { indent: 0, kind: ListItemKind::Unordered }, 0, 1),
        span(Token::Plaintext, 1, 2),
        span(Token::Newline, 2, 3),
        span(Token::ListItemMarker { indent: 0, kind: ListItemKind::Unordered }, 3, 4),
        span(Token::Plaintext, 4, 5),
        span(Token::Newline, 5, 6),
    ];
    let out = assemble_ast(&tokens).unwrap();
    assert_eq!(out.rest.pos, 6);
    let top = &out.root.children[0];
    assert_eq!(top.meta, NodeMetadata::Choice(5));
    let list = &top.children[0];
    assert_eq!(list.kind, NodeKind::Rule(RuleKind::List));
    let items = &list.children[0].children;
    assert_eq!(items.len(), 2);
    assert_eq!(
        items[0].children[0].meta,
        NodeMetadata::ListItem { kind: ListItemKind::Unordered, pos: ListItemPos { bits: 1 } }
    );
    assert_eq!(
        items[1].children[0].meta,
        NodeMetadata::ListItem { kind: ListItemKind::Unordered, pos: ListItemPos { bits: 3 } }
    );
}

#[test]
fn continuation_item_takes_sibling_kind() {
    let mut marker = AstNode::token(span(
        Token::ListItemMarker { indent: 0, kind: ListItemKind::Checkbox(CheckboxType::Empty) },
        0,
        1,
    ));
    marker.meta = NodeMetadata::ListItem {
        kind: ListItemKind::Checkbox(CheckboxType::Empty),
        pos: ListItemPos::first(),
    };
    let mut parent = AstNode::new(RuleKind::List, vec![marker], 0, NodeMetadata::Empty);
    let tokens = vec![
        span(Token::ListItemMarker { indent: 0, kind: ListItemKind::Continuation }, 5, 6),
        span(Token::Plaintext, 6, 7),
        span(Token::Newline, 7, 8),
    ];
    let (item, rest) = Grammar::list_item(TokenStream::new(&tokens), &mut parent).unwrap();
    assert_eq!(rest.pos, 3);
    assert_eq!(
        item.children[0].meta,
        NodeMetadata::ListItem {
            kind: ListItemKind::Checkbox(CheckboxType::Empty),
            pos: ListItemPos::any()
        }
    );
}

#[test]
fn deeper_item_clears_first_flag_of_previous() {
    let mut marker = AstNode::token(span(
        Token::ListItemMarker { indent: 0, kind: ListItemKind::Unordered },
        0,
        1,
    ));
    marker.meta = NodeMetadata::ListItem { kind: ListItemKind::Unordered, pos: ListItemPos::first() };
    let mut parent = AstNode::new(RuleKind::List, vec![marker], 0, NodeMetadata::Empty);
    let tokens = vec![
        span(Token::ListItemMarker { indent: 1, kind: ListItemKind::Unordered }, 3, 4),
        span(Token::Plaintext, 4, 5),
        span(Token::Newline, 5, 6),
    ];
    let (item, _) = Grammar::list_item(TokenStream::new(&tokens), &mut parent).unwrap();
    assert_eq!(
        parent.children[0].meta,
        NodeMetadata::ListItem { kind: ListItemKind::Unordered, pos: ListItemPos { bits: 0 } }
    );
    assert_eq!(
        item.children[0].meta,
        NodeMetadata::ListItem { kind: ListItemKind::Unordered, pos: ListItemPos::any() }
    );
}

#[test]
fn continuation_without_sibling_fails() {
    let tokens = vec![
        span(Token::ListItemMarker { indent: 0, kind: ListItemKind::Continuation }, 0, 1),
        span(Token::Plaintext, 1, 2),
        span(Token::Newline, 2, 3),
    ];
    assert!(Grammar::list(TokenStream::new(&tokens)).is_none());
}

#[test]
fn links_embeds_and_macros() {
    let tokens = vec![
        span(Token::LinkMarker, 0, 1),
        span(Token::LinkBody { href: b"x" }, 1, 4),
        span(Token::EmbedMarker, 4, 6),
        span(Token::LinkAliasBody { alias: b"y" }, 6, 9),
        span(Token::MacroHandle { name: b"m" }, 9, 11),
        span(Token::MacroConfig { body: b"c" }, 11, 14),
        span(Token::MacroBody { body: b"b" }, 14, 17),
        span(Token::MacroBody { body: b"d" }, 17, 20),
    ];
    let (link, t) = Grammar::link(TokenStream::new(&tokens)).unwrap();
    assert_eq!(link.meta, NodeMetadata::Choice(1));
    assert_eq!(t.pos, 2);
    let (embed, t) = Grammar::embed(t).unwrap();
    assert_eq!(embed.kind, NodeKind::Rule(RuleKind::Embed));
    assert_eq!(embed.children[1].meta, NodeMetadata::Choice(1));
    assert_eq!(t.pos, 4);
    let (mac, t) = Grammar::macro_rule(t).unwrap();
    assert_eq!(t.pos, 8);
    assert_eq!(mac.children[1].meta, NodeMetadata::IsPresent(true));
    assert_eq!(mac.children[2].meta, NodeMetadata::IsPresent(true));
    assert_eq!(mac.children[2].children.len(), 2);
    assert_eq!((mac.start, mac.end), (9, 20));
    let inferred = vec![span(Token::InferredLink { href: b"a.com" }, 0, 5)];
    let (link, _) = Grammar::link(TokenStream::new(&inferred)).unwrap();
    assert_eq!(link.meta, NodeMetadata::Choice(0));
}

#[test]
fn line_quote_and_block_quote() {
    let tokens = vec![
        span(Token::LineQuoteMarker, 0, 2),
        span(Token::Plaintext, 2, 4),
        span(Token::Newline, 4, 5),
    ];
    let (quote, t) = Grammar::line_quote(TokenStream::new(&tokens)).unwrap();
    assert_eq!(t.pos, 3);
    assert_eq!(quote.children[1].kind, NodeKind::Rule(RuleKind::Line));
    let mut html = HtmlVisitor::new();
    html.visit_line_quote(&quote);
    assert_eq!(html.out, "<blockquote></blockquote>");
    let mut md = MarkdownVisitor::new();
    md.visit_line_quote(&quote);
    assert_eq!(md.out, "> \n");

    let tokens = vec![
        span(Token::BlockQuoteOpen, 0, 3),
        span(Token::Newline, 3, 4),
        span(Token::HorizontalRule, 4, 7),
        span(Token::BlockQuoteClose, 7, 10),
    ];
    let (block, t) = Grammar::block_quote(TokenStream::new(&tokens)).unwrap();
    assert_eq!(t.pos, 4);
    assert_eq!(block.children.len(), 4);
    assert_eq!(block.children[1].meta, NodeMetadata::Choice(0));
    let mut html = HtmlVisitor::new();
    html.visit_block_quote(&block);
    assert_eq!(html.out, "<blockquote></blockquote>");
}

#[test]
fn top_level_tokens() {
    let tokens = vec![span(Token::HorizontalRule, 0, 3), span(Token::MathBlock { body: b"x" }, 3, 8)];
    let (a, t) = Grammar::top_level_element(TokenStream::new(&tokens)).unwrap();
    assert_eq!(a.meta, NodeMetadata::Choice(1));
    let (b, t) = Grammar::top_level_element(t).unwrap();
    assert_eq!(b.meta, NodeMetadata::Choice(3));
    assert!(Grammar::top_level_element(t).is_none());
    let mut html = HtmlVisitor::new();
    html.visit_horizontal_rule(&a.children[0]);
    html.visit_newline(&a.children[0]);
    assert_eq!(html.out, "<hr> ");
    let mut md = MarkdownVisitor::new();
    md.visit_horizontal_rule(&a.children[0]);
    md.visit_newline(&a.children[0]);
    assert_eq!(md.out, "---\n");
}

#[test]
fn try_token_moves_only_on_match() {
    let tokens = vec![span(Token::Newline, 0, 1)];
    let mut tape = TokenStream::new(&tokens);
    assert!(AstNode::try_token(TokenKind::Plaintext, &mut tape).is_none());
    assert_eq!(tape.pos, 0);
    let n = AstNode::try_token(TokenKind::Newline, &mut tape).unwrap();
    assert_eq!(tape.pos, 1);
    assert_eq!(n.kind, NodeKind::Token(Token::Newline));
    assert!(tape.is_at(TokenKind::Newline) == false);
}

#[test]
fn node_constructors() {
    let leaf = AstNode::leaf(span(Token::Plaintext, 2, 5), RuleKind::Line);
    assert_eq!(leaf.parent, Some(RuleKind::Line));
    assert!(leaf.is_leaf() && !leaf.is_branch());
    let root = AstNode::root();
    assert!(root.is_branch() && root.children.is_empty());
    let empty = AstNode::new(RuleKind::Group, vec![], 7, NodeMetadata::IsPresent(false));
    assert_eq!((empty.start, empty.end), (7, 7));
    let b = AstNode::branch(
        RuleKind::Line,
        vec![AstNode::token(span(Token::Plaintext, 1, 2)), AstNode::token(span(Token::Newline, 2, 3))],
        NodeMetadata::Empty,
    );
    assert_eq!((b.start, b.end), (1, 3));
    assert!(b.children.iter().all(|c| c.parent == Some(RuleKind::Line)));
    assert_eq!(b.kind.rule(), Some(RuleKind::Line));
    assert_eq!(b.kind.token(), None);
    assert_eq!(leaf.kind.token(), Some(Token::Plaintext));
    assert_eq!(RuleKind::Heading.as_rule_kind(), Some(RuleKind::Heading));
    assert_eq!(RuleKind::Heading.as_token_kind(), None);
    assert_eq!(TokenKind::Newline.as_token_kind(), Some(TokenKind::Newline));
    assert_eq!(leaf.kind.as_token_kind(), None);
    assert_eq!(b.kind.as_rule_kind(), Some(RuleKind::Line));
}

#[test]
fn token_helpers() {
    assert_eq!(Numbering::from_marker(b'd'), Some(Numbering::Number));
    assert_eq!(Numbering::from_marker(b'R'), Some(Numbering::UpperNumeral));
    assert_eq!(Numbering::from_marker(b'?'), None);
    assert_eq!(CheckboxType::from_marker(b'x'), Some(CheckboxType::Filled));
    assert_eq!(InlineFormat::Bold.len(), 2);
    assert_eq!(InlineFormat::BoldItalic.len(), 3);
    assert_eq!(InlineFormat::Italic.len(), 1);
    assert!(Token::Plaintext.is_content());
    assert!(!Token::Newline.is_content());
    assert_eq!(Token::Eof.kind(), TokenKind::Eof);
    let mut s = TokenSpan::new(Token::Newline, 3, 5);
    assert_eq!(s.len(), 2);
    s.bind_plain();
    assert_eq!(s, TokenSpan::new(Token::Plaintext, 3, 5));
    assert!(ListItemKind::Unordered.is_sibling(ListItemKind::Unordered));
    assert_eq!(ListItemKind::Unordered.open_tag(), "ul class='dt-Unordered'");
    assert_eq!(ListItemKind::Unordered.close_tag(), "ul");
    assert_eq!(ListItemKind::Numbered(Numbering::Lower).open_tag(), "ol type='a' class='dt-numbering'");
    assert!(ListItemKind::Checkbox(CheckboxType::Empty).is_sibling(ListItemKind::Checkbox(CheckboxType::Filled)));
    assert!(!ListItemKind::Numbered(Numbering::Lower).is_sibling(ListItemKind::Numbered(Numbering::Upper)));
}

#[test]
fn media_element_html() {
    assert_eq!(
        media_html("video", "clip.mp4"),
        "<video src='clip.mp4' controls><span class='dt-error'>Your browser does not support the &lt;$tag&gt; tag.</span></video>"
    );
}

#[test]
fn config_override_split() {
    assert_eq!(draft::lex::split_override("finance-mode=true"), Some(("finance-mode", "true")));
    assert_eq!(draft::lex::split_override("a=b=c"), Some(("a", "b=c")));
    assert_eq!(draft::lex::split_override("flag"), None);
}

#[test]
fn escapes_and_checkbox_bytes() {
    let d = DynConf::default();
    let c = StaticConf::default();
    let tokens = lex("\\*x", &d, &c).unwrap();
    assert_eq!(tokens, vec![span(Token::Plaintext, 0, 3)]);
    let tokens = lex("a\\", &d, &c).unwrap();
    assert_eq!(tokens, vec![span(Token::Plaintext, 0, 2)]);
    assert_eq!(
        draft::editor::checkbox_state_bytes(&[(1, true), (0x01020304, false)]),
        vec![1, 0, 0, 0, 1, 4, 3, 2, 1, 0]
    );
}

fn scanner(open_fmts: Vec<(InlineFormat, usize)>, in_alt_text: bool) -> Scanner<'static> {
    Scanner { tokens: vec![], pgraph_spacing: 2, in_alt_text, open_fmts, open_quotes: vec![] }
}

#[test]
fn format_closer_leaves_cursor_on_cluster_end() {
    let s: &'static [u8] = b"*a* \n";
    let mut scan = scanner(vec![(InlineFormat::Italic, 0)], false);
    assert_eq!(scan.handle_fmt(s, 2, InlineFormat::Italic), Some(2));
    assert!(scan.open_fmts.is_empty());
    assert_eq!(
        scan.tokens,
        vec![
            span(Token::InlineFormat { ty: InlineFormat::Italic, twin_pos: 2 }, 0, 1),
            span(Token::InlineFormat { ty: InlineFormat::Italic, twin_pos: 0 }, 2, 3),
        ]
    );
}

#[test]
fn bold_closer_pairs_with_bold_opener() {
    let s: &'static [u8] = b"**a* \n";
    let mut scan = scanner(vec![(InlineFormat::Bold, 0)], false);
    assert_eq!(scan.handle_fmt(s, 3, InlineFormat::Bold), Some(4));
    assert!(scan.open_fmts.is_empty());
    assert_eq!(
        scan.tokens,
        vec![
            span(Token::InlineFormat { ty: InlineFormat::Bold, twin_pos: 3 }, 0, 2),
            span(Token::InlineFormat { ty: InlineFormat::Bold, twin_pos: 0 }, 3, 5),
        ]
    );
}

#[test]
fn three_quotes_open_a_block_quote() {
    let s: &'static [u8] = b"\"\"\"\n";
    let mut scan = scanner(vec![], false);
    assert_eq!(scan.handle_quote(s, 0, b'"'), Some(3));
    assert_eq!(scan.open_quotes, vec![(true, 0)]);
    assert!(scan.tokens.is_empty());
    let s2: &'static [u8] = b"\"\"x\n";
    let mut scan2 = scanner(vec![], false);
    assert_eq!(scan2.handle_quote(s2, 0, b'"'), Some(2));
    assert_eq!(scan2.tokens, vec![span(Token::LineQuoteMarker, 0, 2)]);
}

#[test]
fn link_body_lies_between_brackets_and_ends_alt_text() {
    let s: &'static [u8] = b"[a](u)";
    let mut scan = scanner(vec![], true);
    assert_eq!(scan.handle_cbrac(s, 2), Some(5));
    assert!(!scan.in_alt_text);
    assert_eq!(scan.tokens, vec![span(Token::LinkBody { href: b"u" }, 2, 6)]);
    let empty: &'static [u8] = b"[a]()";
    let mut scan2 = scanner(vec![], true);
    assert_eq!(scan2.handle_cbrac(empty, 2), None);
    assert!(scan2.in_alt_text && scan2.tokens.is_empty());
}

#[test]
fn macro_and_raw_code_bodies_exclude_delimiters() {
    let s: &'static [u8] = b";m[c]{x}";
    let mut scan = scanner(vec![], false);
    assert_eq!(scan.handle_semi(s, 0), Some(8));
    assert_eq!(
        scan.tokens,
        vec![
            span(Token::MacroHandle { name: b"m" }, 0, 2),
            span(Token::MacroConfig { body: b"c" }, 2, 5),
            span(Token::MacroBody { body: b"x" }, 5, 8),
        ]
    );
    let r: &'static [u8] = b"``x``";
    let mut scan2 = scanner(vec![], false);
    assert_eq!(scan2.handle_btick(r, 0), Some(4));
    assert_eq!(scan2.tokens, vec![span(Token::InlineRawCode { body: b"x" }, 0, 5)]);
}

#[test]
fn empty_block_quote_becomes_plaintext() {
    let dyn_conf = DynConf::default();
    let conf = StaticConf::default();
    let syntax = MarkupSyntax::new(&dyn_conf, &conf, b"");
    let mut tokens = vec![
        span(Token::BlockQuoteOpen, 0, 3),
        span(Token::BlockQuoteClose, 3, 6),
        span(Token::Eof, 6, 6),
    ];
    syntax.convert_bad_tokens(&mut tokens);
    assert_eq!(tokens[0], span(Token::Plaintext, 0, 3));
    let mut full = vec![
        span(Token::BlockQuoteOpen, 0, 3),
        span(Token::Plaintext, 3, 4),
        span(Token::BlockQuoteClose, 4, 7),
    ];
    syntax.convert_bad_tokens(&mut full);
    assert_eq!(full[0], span(Token::BlockQuoteOpen, 0, 3));
}

#[test]
fn checked_compile_refuses_overlapping_tokens() {
    let dyn_conf = DynConf::default();
    let conf = StaticConf::default();
    let ok = MarkupSyntax::new(&dyn_conf, &conf, b"*hi* x\n").compile_checked();
    assert!(matches!(ok, Some(Ok(ref t)) if t.len() == 5));
    let bad = MarkupSyntax::new(&dyn_conf, &conf, b"***a *").compile_checked();
    assert!(bad.is_none());
}

#[test]
fn top_level_domain_of_links() {
    assert_eq!(b"example.com".as_slice().tld(), Some(b"com".as_slice()));
    assert_eq!(b"example.org/x".as_slice().tld(), Some(b"org".as_slice()));
    assert_eq!(b"".as_slice().tld(), None);
}

#[test]
fn escape_covers_two_bytes() {
    let d = DynConf::default();
    let c = StaticConf::default();
    let tokens = lex("\\a\n", &d, &c).unwrap();
    assert_eq!(tokens, vec![span(Token::Plaintext, 0, 2), span(Token::Newline, 2, 3)]);
}

#[test]
fn inferred_link_is_content() {
    assert!(Token::InferredLink { href: b"x.com" }.is_content());
}

#[test]
fn macro_decoration_after_name() {
    let s: &'static [u8] = b";m(x)";
    let mut scan = scanner(vec![], false);
    assert_eq!(scan.handle_semi(s, 0), Some(5));
    assert_eq!(
        scan.tokens,
        vec![span(Token::MacroHandle { name: b"m" }, 0, 2), span(Token::MacroDecor { body: b"x" }, 2, 5)]
    );
}

#[test]
fn inline_code_and_math() {
    let d = DynConf::default();
    let c = StaticConf::default();
    let tokens = lex("`x` y\n", &d, &c).unwrap();
    assert_eq!(
        tokens,
        vec![
            span(Token::InlineCode { body: b"x" }, 0, 3),
            span(Token::Plaintext, 3, 5),
            span(Token::Newline, 5, 6),
        ]
    );
    let tokens = lex("$x$\n", &d, &c).unwrap();
    assert_eq!(tokens, vec![span(Token::InlineMath { body: b"x" }, 0, 3), span(Token::Newline, 3, 4)]);
}

#[test]
fn inferred_links_need_known_domains() {
    assert!(draft::lexer::inferred_link_ok(b"example.com", (true, 0, 11)));
    assert!(!draft::lexer::inferred_link_ok(b"example.xyz", (true, 0, 11)));
    assert!(draft::lexer::inferred_link_ok(b"http://x.xyz", (true, 0, 12)));
    assert!(draft::lexer::inferred_link_ok(b"a@b.c", (false, 0, 5)));
    assert_eq!(b"example".as_slice().tld(), None);
}
