//! The markup grammar: assembles the syntax tree from the token stream.
//!
//! Each rule is given by a spec function `spec_*` over the spans' views and a
//! position; each rule of `Grammar` is proved to compute exactly its spec function.
use vstd::prelude::*;
use crate::ast::{
    branch_view, lemma_view_nodes, lemma_view_nodes_push, lemma_view_nodes_update, leaf_view,
    new_view, view_node, view_nodes, AstNode, AstView, NodeKind, NodeKindView, NodeMetadata,
    RuleKind,
};
use crate::lex::{spec_kind, ListItemKind, ListItemPos, SpanView, Token, TokenKind, TokenSpan, TokenView};

verus! {

/// A position in a list of token spans.
#[derive(Debug, Clone, Copy)]
pub struct TokenStream<'a> {
    pub raw: &'a [TokenSpan<'a>],
    pub pos: usize,
}

/// The views of a list of spans.
pub open spec fn spans(raw: Seq<TokenSpan>) -> Seq<SpanView> {
    raw.map_values(|s: TokenSpan| s@)
}

/// The token at `p` is of kind `k`.
pub open spec fn kind_at(t: Seq<SpanView>, p: int, k: TokenKind) -> bool {
    0 <= p < t.len() && spec_kind(t[p].token) == k
}

/// A matched rule: its node and the position after it.
pub open spec fn view_parsed(r: Option<(AstNode, TokenStream)>) -> Option<(AstView, int)> {
    match r {
        Some((n, t)) => Some((n@, t.pos as int)),
        None => None,
    }
}

/// The choice among the token kinds that stand alone at the top level.
pub open spec fn top_token_choice(k: TokenKind) -> Option<u8> {
    match k {
        TokenKind::Newline => Some(0u8),
        TokenKind::HorizontalRule => Some(1u8),
        TokenKind::CodeBlock => Some(2u8),
        TokenKind::MathBlock => Some(3u8),
        _ => None,
    }
}

/// The choice among the token kinds that stand alone within a line.
pub open spec fn inline_token_choice(k: TokenKind) -> Option<u8> {
    match k {
        TokenKind::Plaintext => Some(0u8),
        TokenKind::InlineCode => Some(1u8),
        TokenKind::InlineMath => Some(2u8),
        TokenKind::InlineRawCode => Some(3u8),
        TokenKind::Literal => Some(4u8),
        _ => None,
    }
}

/// The choice among the token kinds that are a link's target.
pub open spec fn target_token_choice(k: TokenKind) -> Option<u8> {
    match k {
        TokenKind::LinkBody => Some(0u8),
        TokenKind::LinkAliasBody => Some(1u8),
        _ => None,
    }
}

/// `linkTarget := LinkBody | LinkAliasBody`
pub open spec fn spec_link_target(t: Seq<SpanView>, p: int) -> Option<(AstView, int)> {
    if 0 <= p < t.len() && target_token_choice(spec_kind(t[p].token)) is Some {
        Some(
            (
                branch_view(
                    RuleKind::LinkTarget,
                    seq![leaf_view(t[p])],
                    NodeMetadata::Choice(target_token_choice(spec_kind(t[p].token))->0),
                ),
                p + 1,
            ),
        )
    } else {
        None
    }
}

/// `link := InferredLink | LinkMarker & linkTarget`
pub open spec fn spec_link(t: Seq<SpanView>, p: int) -> Option<(AstView, int)> {
    if kind_at(t, p, TokenKind::InferredLink) {
        Some((branch_view(RuleKind::Link, seq![leaf_view(t[p])], NodeMetadata::Choice(0)), p + 1))
    } else if kind_at(t, p, TokenKind::LinkMarker) {
        match spec_link_target(t, p + 1) {
            Some((b, q)) => {
                let ab = branch_view(RuleKind::Group, seq![leaf_view(t[p]), b], NodeMetadata::Empty);
                Some((branch_view(RuleKind::Link, seq![ab], NodeMetadata::Choice(1)), q))
            },
            None => None,
        }
    } else {
        None
    }
}

/// `embed := EmbedMarker & linkTarget`
pub open spec fn spec_embed(t: Seq<SpanView>, p: int) -> Option<(AstView, int)> {
    if kind_at(t, p, TokenKind::EmbedMarker) {
        match spec_link_target(t, p + 1) {
            Some((b, q)) => Some(
                (branch_view(RuleKind::Embed, seq![leaf_view(t[p]), b], NodeMetadata::Empty), q),
            ),
            None => None,
        }
    } else {
        None
    }
}

/// The run of macro bodies from `p` on, after `acc`.
pub open spec fn spec_macro_bodies(t: Seq<SpanView>, p: int, acc: Seq<AstView>) -> (Seq<AstView>, int)
    decreases t.len() - p,
{
    if kind_at(t, p, TokenKind::MacroBody) {
        spec_macro_bodies(t, p + 1, acc.push(leaf_view(t[p])))
    } else {
        (acc, p)
    }
}

/// `macro := MacroHandle & MacroConfig? & MacroBody*`
pub open spec fn spec_macro(t: Seq<SpanView>, p: int) -> Option<(AstView, int)> {
    if kind_at(t, p, TokenKind::MacroHandle) {
        let a = leaf_view(t[p]);
        let has_config = kind_at(t, p + 1, TokenKind::MacroConfig);
        let children_b: Seq<AstView> = if has_config {
            seq![leaf_view(t[p + 1])]
        } else {
            Seq::empty()
        };
        let r = if has_config {
            p + 2
        } else {
            p + 1
        };
        let b = new_view(RuleKind::Group, children_b, a.end, NodeMetadata::IsPresent(has_config));
        let (children_c, s) = spec_macro_bodies(t, r, Seq::empty());
        let c = new_view(RuleKind::Group, children_c, b.end, NodeMetadata::IsPresent(children_c.len() > 0));
        Some((branch_view(RuleKind::Macro, seq![a, b, c], NodeMetadata::Empty), s))
    } else {
        None
    }
}

/// A rule's node wrapped as the only child of a node for `rule` with the given choice.
pub open spec fn wrap(r: Option<(AstView, int)>, rule: RuleKind, choice: u8) -> Option<(AstView, int)> {
    match r {
        Some((c, q)) => Some((branch_view(rule, seq![c], NodeMetadata::Choice(choice)), q)),
        None => None,
    }
}

/// `markup := topLevelElement*`, and the elements of a block quote:
/// the elements from `p` on, after `acc`, and the position after them.
pub open spec fn spec_elements(t: Seq<SpanView>, p: int, acc: Seq<AstView>) -> (Seq<AstView>, int)
    decreases t.len() - p, 7int,
{
    if p < 0 || p > t.len() {
        (acc, p)
    } else {
        match spec_top_level(t, p) {
            Some((c, q)) => if p < q <= t.len() {
                spec_elements(t, q, acc.push(c))
            } else {
                (acc, p)
            },
            None => (acc, p),
        }
    }
}

/// `topLevelElement := Newline | HorizontalRule | CodeBlock | MathBlock
///     | paragraph | list | heading | lineQuote | blockQuote`
pub open spec fn spec_top_level(t: Seq<SpanView>, p: int) -> Option<(AstView, int)>
    decreases t.len() - p, 6int,
{
    if 0 <= p < t.len() && top_token_choice(spec_kind(t[p].token)) is Some {
        Some(
            (
                branch_view(
                    RuleKind::TopLevelElement,
                    seq![leaf_view(t[p])],
                    NodeMetadata::Choice(top_token_choice(spec_kind(t[p].token))->0),
                ),
                p + 1,
            ),
        )
    } else if spec_paragraph(t, p) is Some {
        wrap(spec_paragraph(t, p), RuleKind::TopLevelElement, 4)
    } else if spec_list(t, p) is Some {
        wrap(spec_list(t, p), RuleKind::TopLevelElement, 5)
    } else if spec_heading(t, p) is Some {
        wrap(spec_heading(t, p), RuleKind::TopLevelElement, 6)
    } else if spec_line_quote(t, p) is Some {
        wrap(spec_line_quote(t, p), RuleKind::TopLevelElement, 7)
    } else {
        wrap(spec_block_quote(t, p), RuleKind::TopLevelElement, 8)
    }
}

/// `heading := HeadingMarker & line & Newline`
pub open spec fn spec_heading(t: Seq<SpanView>, p: int) -> Option<(AstView, int)>
    decreases t.len() - p, 3int,
{
    if kind_at(t, p, TokenKind::HeadingMarker) {
        match spec_line(t, p + 1) {
            Some((b, q)) => if kind_at(t, q, TokenKind::Newline) {
                Some(
                    (
                        branch_view(
                            RuleKind::Heading,
                            seq![leaf_view(t[p]), b, leaf_view(t[q])],
                            NodeMetadata::Empty,
                        ),
                        q + 1,
                    ),
                )
            } else {
                None
            },
            None => None,
        }
    } else {
        None
    }
}

/// The line elements from `p` on, after `acc`, and the position after them.
pub open spec fn spec_line_loop(t: Seq<SpanView>, p: int, acc: Seq<AstView>) -> (Seq<AstView>, int)
    decreases t.len() - p, 2int,
{
    if p < 0 || p > t.len() {
        (acc, p)
    } else {
        match spec_line_element(t, p) {
            Some((c, q)) => if p < q <= t.len() {
                spec_line_loop(t, q, acc.push(c))
            } else {
                (acc, p)
            },
            None => (acc, p),
        }
    }
}

/// `line := lineElement+ & Newline`
pub open spec fn spec_line(t: Seq<SpanView>, p: int) -> Option<(AstView, int)>
    decreases t.len() - p, 3int,
{
    let (cs, q) = spec_line_loop(t, p, Seq::empty());
    if cs.len() == 0 {
        None
    } else if kind_at(t, q, TokenKind::Newline) {
        let a = branch_view(RuleKind::Group, cs, NodeMetadata::Empty);
        Some((branch_view(RuleKind::Line, seq![a, leaf_view(t[q])], NodeMetadata::Empty), q + 1))
    } else {
        None
    }
}

/// `lineElement := Plaintext | InlineCode | InlineMath | InlineRawCode | Literal
///     | format | link | embed | macro`
pub open spec fn spec_line_element(t: Seq<SpanView>, p: int) -> Option<(AstView, int)>
    decreases t.len() - p, 1int,
{
    if 0 <= p < t.len() && inline_token_choice(spec_kind(t[p].token)) is Some {
        Some(
            (
                branch_view(
                    RuleKind::LineElement,
                    seq![leaf_view(t[p])],
                    NodeMetadata::Choice(inline_token_choice(spec_kind(t[p].token))->0),
                ),
                p + 1,
            ),
        )
    } else if spec_format(t, p) is Some {
        wrap(spec_format(t, p), RuleKind::LineElement, 5)
    } else if spec_link(t, p) is Some {
        wrap(spec_link(t, p), RuleKind::LineElement, 6)
    } else if spec_embed(t, p) is Some {
        wrap(spec_embed(t, p), RuleKind::LineElement, 7)
    } else {
        wrap(spec_macro(t, p), RuleKind::LineElement, 8)
    }
}

/// The parts of a paragraph from `p` on, after `acc`, and the position after them.
/// Two newlines end it; the first of them is passed over.
pub open spec fn spec_para_loop(t: Seq<SpanView>, p: int, acc: Seq<AstView>) -> (Seq<AstView>, int)
    decreases t.len() - p, 2int,
{
    if p < 0 || p > t.len() {
        (acc, p)
    } else if kind_at(t, p, TokenKind::Newline) {
        if kind_at(t, p + 1, TokenKind::Newline) {
            (acc, p + 1)
        } else {
            spec_para_loop(
                t,
                p + 1,
                acc.push(branch_view(RuleKind::Group, seq![leaf_view(t[p])], NodeMetadata::Choice(0))),
            )
        }
    } else {
        match spec_line_element(t, p) {
            Some((c, q)) => if p < q <= t.len() {
                spec_para_loop(
                    t,
                    q,
                    acc.push(branch_view(RuleKind::Group, seq![c], NodeMetadata::Choice(1))),
                )
            } else {
                (acc, p)
            },
            None => (acc, p),
        }
    }
}

/// `paragraph := (Newline | lineElement)+`, stopping at two newlines.
pub open spec fn spec_paragraph(t: Seq<SpanView>, p: int) -> Option<(AstView, int)>
    decreases t.len() - p, 3int,
{
    let (cs, q) = spec_para_loop(t, p, Seq::empty());
    if cs.len() == 0 {
        None
    } else {
        Some((branch_view(RuleKind::Group, cs, NodeMetadata::Empty), q))
    }
}

/// `format := InlineFormat & paragraph & InlineFormat`, the closer being the twin of the opener.
pub open spec fn spec_format(t: Seq<SpanView>, p: int) -> Option<(AstView, int)>
    decreases t.len() - p, 0int,
{
    if kind_at(t, p, TokenKind::InlineFormat) {
        let a = leaf_view(t[p]);
        match spec_paragraph(t, p + 1) {
            Some((b, q)) => if 0 <= q < t.len() && (t[q].token matches TokenView::InlineFormat {
                twin_pos,
                ..
            } && twin_pos == a.start) {
                Some((branch_view(RuleKind::Format, seq![a, b, leaf_view(t[q])], NodeMetadata::Empty), q + 1))
            } else {
                None
            },
            None => None,
        }
    } else {
        None
    }
}

/// `lineQuote := LineQuoteMarker & line`
pub open spec fn spec_line_quote(t: Seq<SpanView>, p: int) -> Option<(AstView, int)>
    decreases t.len() - p, 3int,
{
    if kind_at(t, p, TokenKind::LineQuoteMarker) {
        match spec_line(t, p + 1) {
            Some((b, q)) => Some(
                (branch_view(RuleKind::LineQuote, seq![leaf_view(t[p]), b], NodeMetadata::Empty), q),
            ),
            None => None,
        }
    } else {
        None
    }
}

/// `blockQuote := BlockQuoteOpen & (Newline | line) & topLevelElement+ & BlockQuoteClose`
pub open spec fn spec_block_quote(t: Seq<SpanView>, p: int) -> Option<(AstView, int)>
    decreases t.len() - p, 3int,
{
    if kind_at(t, p, TokenKind::BlockQuoteOpen) {
        let a = leaf_view(t[p]);
        let head: Option<(AstView, u8, int)> = if kind_at(t, p + 1, TokenKind::Newline) {
            Some((leaf_view(t[p + 1]), 0u8, p + 2))
        } else {
            match spec_line(t, p + 1) {
                Some((c, q)) => Some((c, 1u8, q)),
                None => None,
            }
        };
        match head {
            Some((child_b, choice, r)) => if p < r <= t.len() {
                let b = branch_view(RuleKind::Group, seq![child_b], NodeMetadata::Choice(choice));
                let (cs, s) = spec_elements(t, r, Seq::empty());
                if cs.len() > 0 && kind_at(t, s, TokenKind::BlockQuoteClose) {
                    let c = branch_view(RuleKind::Group, cs, NodeMetadata::Empty);
                    Some(
                        (
                            branch_view(
                                RuleKind::BlockQuote,
                                seq![a, b, c, leaf_view(t[s])],
                                NodeMetadata::Empty,
                            ),
                            s + 1,
                        ),
                    )
                } else {
                    None
                }
            } else {
                None
            },
            None => None,
        }
    } else {
        None
    }
}

/// What the search for an earlier item of the same indentation finds among
/// a list's children, from the last backwards.
pub enum Sibling {
    Found(ListItemKind),
    Missing,
    /// A rule node was met: the search cannot read it as a token.
    Fault,
}

/// The kind of the last list item marker among `ch` with the given indentation
/// and a kind other than `Continuation`.
pub open spec fn sibling_lookup(ch: Seq<AstView>, indent: u8) -> Sibling
    decreases ch.len(),
{
    if ch.len() == 0 {
        Sibling::Missing
    } else {
        match ch.last().kind {
            NodeKindView::Rule(_) => Sibling::Fault,
            NodeKindView::Token(tok) => match tok {
                TokenView::ListItemMarker { indent: i, kind } => if i == indent && kind
                    != ListItemKind::Continuation {
                    Sibling::Found(kind)
                } else {
                    sibling_lookup(ch.drop_last(), indent)
                },
                _ => sibling_lookup(ch.drop_last(), indent),
            },
        }
    }
}

/// Where an item goes among the children of `parent`: its position flags and
/// `parent` as the item leaves it; `None` where the children cannot be read so.
pub open spec fn place_item(parent: AstView, indent: u8) -> Option<(ListItemPos, AstView)> {
    if parent.children.len() == 0 {
        Some((ListItemPos { bits: 1 }, parent))
    } else {
        let prev = parent.children.last();
        match prev.kind {
            NodeKindView::Token(TokenView::ListItemMarker { indent: pi, .. }) => if pi > indent {
                Some((ListItemPos { bits: 1 }, parent))
            } else if pi < indent {
                match prev.meta {
                    NodeMetadata::ListItem { kind: pk, pos: pp } => {
                        let prev2 = AstView {
                            meta: NodeMetadata::ListItem { kind: pk, pos: ListItemPos { bits: pp.bits & 2u8 } },
                            ..prev
                        };
                        Some(
                            (
                                ListItemPos { bits: 0 },
                                AstView {
                                    children: parent.children.update(parent.children.len() - 1, prev2),
                                    ..parent
                                },
                            ),
                        )
                    },
                    _ => None,
                }
            } else {
                Some((ListItemPos { bits: 0 }, parent))
            },
            _ => None,
        }
    }
}

/// `listItem := ListItemMarker & line`: the item at `p` and what becomes of `parent`;
/// `None` where the item cannot be placed among the children of `parent`.
pub open spec fn spec_list_item(t: Seq<SpanView>, p: int, parent: AstView) -> Option<(Option<(AstView, int)>, AstView)>
    decreases t.len() - p, 3int,
{
    if !kind_at(t, p, TokenKind::ListItemMarker) {
        Some((None, parent))
    } else {
        match t[p].token {
            TokenView::ListItemMarker { indent, kind } => {
                let look = if kind == ListItemKind::Continuation {
                    sibling_lookup(parent.children, indent)
                } else {
                    Sibling::Found(kind)
                };
                match look {
                    Sibling::Fault => None,
                    Sibling::Missing => Some((None, parent)),
                    Sibling::Found(k) => match place_item(parent, indent) {
                        None => None,
                        Some((pos, parent2)) => {
                            let a = AstView { meta: NodeMetadata::ListItem { kind: k, pos }, ..leaf_view(t[p]) };
                            match spec_line(t, p + 1) {
                                Some((b, q)) => Some(
                                    (
                                        Some((branch_view(RuleKind::ListItem, seq![a, b], NodeMetadata::Empty), q)),
                                        parent2,
                                    ),
                                ),
                                None => Some((None, parent2)),
                            }
                        },
                    },
                }
            },
            _ => None,
        }
    }
}

/// The items of a list from `p` on, after `acc`, and the position after them.
pub open spec fn spec_list_loop(t: Seq<SpanView>, p: int, parent: AstView, acc: Seq<AstView>) -> (Seq<AstView>, int)
    decreases t.len() - p, 4int,
{
    if p < 0 || p > t.len() {
        (acc, p)
    } else {
        match spec_list_item(t, p, parent) {
            Some((Some((c, q)), _)) => if p < q <= t.len() {
                spec_list_loop(t, q, parent, acc.push(c))
            } else {
                (acc, p)
            },
            _ => (acc, p),
        }
    }
}

/// The last of the items with its marker flagged as last.
pub open spec fn mark_last(items: Seq<AstView>) -> Option<Seq<AstView>> {
    let last = items.last();
    let marker = last.children[0];
    match marker.meta {
        NodeMetadata::ListItem { kind, pos } => {
            let marker2 = AstView {
                meta: NodeMetadata::ListItem { kind, pos: ListItemPos { bits: pos.bits | 2u8 } },
                ..marker
            };
            Some(items.update(items.len() - 1, AstView { children: last.children.update(0, marker2), ..last }))
        },
        _ => None,
    }
}

/// `list := listItem+`, with the last item marked.
pub open spec fn spec_list(t: Seq<SpanView>, p: int) -> Option<(AstView, int)>
    decreases t.len() - p, 5int,
{
    if 0 <= p < t.len() {
        let parent = new_view(RuleKind::List, Seq::empty(), t[p].start, NodeMetadata::Empty);
        let (items, q) = spec_list_loop(t, p, parent, Seq::empty());
        if items.len() == 0 {
            None
        } else {
            match mark_last(items) {
                Some(marked) => {
                    let a = branch_view(RuleKind::Group, marked, NodeMetadata::Empty);
                    Some((branch_view(RuleKind::List, seq![a], NodeMetadata::Empty), q))
                },
                None => None,
            }
        }
    } else {
        None
    }
}

/// The syntax tree of the tokens from `p` on: a root over the top-level
/// elements, and the position after them.
pub open spec fn spec_markup(t: Seq<SpanView>, p: int) -> (AstView, int) {
    let (cs, q) = spec_elements(t, p, Seq::empty());
    (new_view(RuleKind::Markup, cs, 0, NodeMetadata::Empty), q)
}

/// A successful match moves forward within the same spans.
pub open spec fn advances(tape: TokenStream, r: Option<(AstNode, TokenStream)>) -> bool {
    r matches Some((_, t2)) ==> t2.raw == tape.raw && tape.pos < t2.pos <= tape.raw@.len()
}

impl<'a> TokenStream<'a> {
    /// A stream at the start of the spans.
    pub fn new(raw: &'a [TokenSpan<'a>]) -> (r: TokenStream<'a>)
        ensures
            r.raw == raw,
            r.pos == 0,
    {
        TokenStream { raw, pos: 0 }
    }

    /// True if the span at the current position is of kind `k`.
    pub fn is_at(self, k: TokenKind) -> (b: bool)
        ensures
            b == kind_at(spans(self.raw@), self.pos as int, k),
    {
        self.pos < self.raw.len() && self.raw[self.pos].token.kind() == k
    }
}

impl<'a> AstNode<'a> {
    /// Returns a token leaf node for the span at the current position if it is
    /// of kind `token`, and then moves past it. The stream must not be exhausted.
    pub fn try_token(token: TokenKind, tape: &mut TokenStream<'a>) -> (r: Option<AstNode<'a>>)
        requires
            old(tape).pos < old(tape).raw@.len(),
        ensures
            final(tape).raw == old(tape).raw,
            kind_at(spans(old(tape).raw@), old(tape).pos as int, token) ==> {
                &&& r matches Some(n)
                &&& n@ == leaf_view(spans(old(tape).raw@)[old(tape).pos as int])
                &&& final(tape).pos == old(tape).pos + 1
            },
            !kind_at(spans(old(tape).raw@), old(tape).pos as int, token) ==> {
                &&& r is None
                &&& final(tape).pos == old(tape).pos
            },
    {
        take_token(token, tape)
    }
}

/// A token leaf node for the span at the current position if it is of kind
/// `token`, moving past it; nothing at the end of the stream.
fn take_token<'a>(token: TokenKind, tape: &mut TokenStream<'a>) -> (r: Option<AstNode<'a>>)
    ensures
        final(tape).raw == old(tape).raw,
        kind_at(spans(old(tape).raw@), old(tape).pos as int, token) ==> {
            &&& r matches Some(n)
            &&& n@ == leaf_view(spans(old(tape).raw@)[old(tape).pos as int])
            &&& final(tape).pos == old(tape).pos + 1
        },
        !kind_at(spans(old(tape).raw@), old(tape).pos as int, token) ==> {
            &&& r is None
            &&& final(tape).pos == old(tape).pos
        },
{
    if !tape.is_at(token) {
        return None;
    }
    let span = tape.raw[tape.pos];
    tape.pos = tape.pos + 1;
    Some(AstNode::token(span))
}

fn nodes1<'a>(a: AstNode<'a>) -> (v: Vec<AstNode<'a>>)
    ensures
        view_nodes(v@) == seq![a@],
{
    let mut v: Vec<AstNode<'a>> = Vec::new();
    proof {
        lemma_view_nodes_push(v@, a);
        assert(view_nodes(v@).push(a@) =~= seq![a@]);
    }
    v.push(a);
    v
}

fn nodes2<'a>(a: AstNode<'a>, b: AstNode<'a>) -> (v: Vec<AstNode<'a>>)
    ensures
        view_nodes(v@) == seq![a@, b@],
{
    let mut v = nodes1(a);
    proof {
        lemma_view_nodes_push(v@, b);
        assert(seq![a@].push(b@) =~= seq![a@, b@]);
    }
    v.push(b);
    v
}

fn nodes3<'a>(a: AstNode<'a>, b: AstNode<'a>, c: AstNode<'a>) -> (v: Vec<AstNode<'a>>)
    ensures
        view_nodes(v@) == seq![a@, b@, c@],
{
    let mut v = nodes2(a, b);
    proof {
        lemma_view_nodes_push(v@, c);
        assert(seq![a@, b@].push(c@) =~= seq![a@, b@, c@]);
    }
    v.push(c);
    v
}

fn nodes4<'a>(a: AstNode<'a>, b: AstNode<'a>, c: AstNode<'a>, d: AstNode<'a>) -> (v: Vec<AstNode<'a>>)
    ensures
        view_nodes(v@) == seq![a@, b@, c@, d@],
{
    let mut v = nodes3(a, b, c);
    proof {
        lemma_view_nodes_push(v@, d);
        assert(seq![a@, b@, c@].push(d@) =~= seq![a@, b@, c@, d@]);
    }
    v.push(d);
    v
}

/// The macro bodies from the current position on.
fn macro_bodies<'a>(tape: &mut TokenStream<'a>) -> (r: Vec<AstNode<'a>>)
    requires
        old(tape).pos <= old(tape).raw@.len(),
    ensures
        final(tape).raw == old(tape).raw,
        old(tape).pos <= final(tape).pos <= old(tape).raw@.len(),
        spec_macro_bodies(spans(old(tape).raw@), old(tape).pos as int, Seq::empty()) == (
            view_nodes(r@),
            final(tape).pos as int,
        ),
{
    let ghost t = spans(tape.raw@);
    let ghost raw0 = tape.raw;
    let ghost p0 = tape.pos as int;
    let mut children: Vec<AstNode<'a>> = Vec::new();
    loop
        invariant
            tape.raw == raw0,
            spans(tape.raw@) == t,
            p0 <= tape.pos <= t.len(),
            spec_macro_bodies(t, p0, Seq::empty()) == spec_macro_bodies(
                t,
                tape.pos as int,
                view_nodes(children@),
            ),
        ensures
            tape.raw == raw0,
            p0 <= tape.pos <= t.len(),
            spec_macro_bodies(t, p0, Seq::empty()) == (view_nodes(children@), tape.pos as int),
        decreases t.len() - tape.pos,
    {
        let ghost before = *tape;
        match take_token(TokenKind::MacroBody, tape) {
            Some(child) => {
                proof {
                    lemma_view_nodes_push(children@, child);
                }
                children.push(child);
            },
            None => {
                break;
            },
        }
    }
    children
}

/// Assembles the abstract syntax tree (AST) from the token stream.
pub struct Grammar;

impl Grammar {
    /// `linkTarget := LinkBody | LinkAliasBody`
    pub fn link_target<'a>(tape: TokenStream<'a>) -> (r: Option<(AstNode<'a>, TokenStream<'a>)>)
        ensures
            view_parsed(r) == spec_link_target(spans(tape.raw@), tape.pos as int),
            advances(tape, r),
    {
        if tape.pos < tape.raw.len() {
            let span = tape.raw[tape.pos];
            let choice: Option<u8> = match span.token.kind() {
                TokenKind::LinkBody => Some(0u8),
                TokenKind::LinkAliasBody => Some(1u8),
                _ => None,
            };
            if let Some(c) = choice {
                let child = AstNode::token(span);
                proof {
                    assert(spans(tape.raw@)[tape.pos as int] == span@);
                }
                let jump = TokenStream { raw: tape.raw, pos: tape.pos + 1 };
                return Some((AstNode::branch(RuleKind::LinkTarget, nodes1(child), NodeMetadata::Choice(c)), jump));
            }
        }
        None
    }

    /// `link := InferredLink | LinkMarker & linkTarget`
    pub fn link<'a>(tape: TokenStream<'a>) -> (r: Option<(AstNode<'a>, TokenStream<'a>)>)
        ensures
            view_parsed(r) == spec_link(spans(tape.raw@), tape.pos as int),
            advances(tape, r),
    {
        let mut tape = tape;
        match take_token(TokenKind::InferredLink, &mut tape) {
            Some(a) => {
                Some((AstNode::branch(RuleKind::Link, nodes1(a), NodeMetadata::Choice(0)), tape))
            },
            None => {
                let a = match take_token(TokenKind::LinkMarker, &mut tape) {
                    Some(a) => a,
                    None => {
                        return None;
                    },
                };
                let (b, tape) = match Self::link_target(tape) {
                    Some(x) => x,
                    None => {
                        return None;
                    },
                };
                let ab = AstNode::branch(RuleKind::Group, nodes2(a, b), NodeMetadata::Empty);
                Some((AstNode::branch(RuleKind::Link, nodes1(ab), NodeMetadata::Choice(1)), tape))
            },
        }
    }

    /// `embed := EmbedMarker & linkTarget`
    pub fn embed<'a>(tape: TokenStream<'a>) -> (r: Option<(AstNode<'a>, TokenStream<'a>)>)
        ensures
            view_parsed(r) == spec_embed(spans(tape.raw@), tape.pos as int),
            advances(tape, r),
    {
        let mut tape = tape;
        let a = match take_token(TokenKind::EmbedMarker, &mut tape) {
            Some(a) => a,
            None => {
                return None;
            },
        };
        let (b, tape) = match Self::link_target(tape) {
            Some(x) => x,
            None => {
                return None;
            },
        };
        Some((AstNode::branch(RuleKind::Embed, nodes2(a, b), NodeMetadata::Empty), tape))
    }

    /// `macro := MacroHandle & MacroConfig? & MacroBody*`
    pub fn macro_rule<'a>(tape: TokenStream<'a>) -> (r: Option<(AstNode<'a>, TokenStream<'a>)>)
        ensures
            view_parsed(r) == spec_macro(spans(tape.raw@), tape.pos as int),
            advances(tape, r),
    {
        let ghost t = spans(tape.raw@);
        let ghost p = tape.pos as int;
        let mut tape = tape;
        let a = match take_token(TokenKind::MacroHandle, &mut tape) {
            Some(a) => a,
            None => {
                return None;
            },
        };
        let a_end = a.end;
        let mut children_b: Vec<AstNode<'a>> = Vec::new();
        let is_present = match take_token(TokenKind::MacroConfig, &mut tape) {
            Some(n) => {
                proof {
                    lemma_view_nodes_push(children_b@, n);
                    assert(Seq::<AstView>::empty().push(n@) == seq![n@]);
                }
                children_b.push(n);
                true
            },
            None => false,
        };
        let b = AstNode::new(RuleKind::Group, children_b, a_end, NodeMetadata::IsPresent(is_present));
        let b_end = b.end;
        let children_c = macro_bodies(&mut tape);
        let present = children_c.len() > 0;
        proof {
            lemma_view_nodes(children_c@);
        }
        let c = AstNode::new(RuleKind::Group, children_c, b_end, NodeMetadata::IsPresent(present));
        Some((AstNode::branch(RuleKind::Macro, nodes3(a, b, c), NodeMetadata::Empty), tape))
    }
    /// `topLevelElement := Newline | HorizontalRule | CodeBlock | MathBlock
    ///     | paragraph | list | heading | lineQuote | blockQuote`
    pub fn top_level_element<'a>(tape: TokenStream<'a>) -> (r: Option<(AstNode<'a>, TokenStream<'a>)>)
        ensures
            view_parsed(r) == spec_top_level(spans(tape.raw@), tape.pos as int),
            advances(tape, r),
        decreases tape.raw@.len() - tape.pos, 6int,
    {
        if tape.pos < tape.raw.len() {
            let span = tape.raw[tape.pos];
            let choice: Option<u8> = match span.token.kind() {
                TokenKind::Newline => Some(0u8),
                TokenKind::HorizontalRule => Some(1u8),
                TokenKind::CodeBlock => Some(2u8),
                TokenKind::MathBlock => Some(3u8),
                _ => None,
            };
            if let Some(c) = choice {
                proof {
                    assert(spans(tape.raw@)[tape.pos as int] == span@);
                }
                let child = AstNode::token(span);
                let jump = TokenStream { raw: tape.raw, pos: tape.pos + 1 };
                return Some(
                    (AstNode::branch(RuleKind::TopLevelElement, nodes1(child), NodeMetadata::Choice(c)), jump),
                );
            }
        }
        if let Some((child, jump)) = Self::paragraph(tape) {
            return Some(
                (AstNode::branch(RuleKind::TopLevelElement, nodes1(child), NodeMetadata::Choice(4)), jump),
            );
        }
        if let Some((child, jump)) = Self::list(tape) {
            return Some(
                (AstNode::branch(RuleKind::TopLevelElement, nodes1(child), NodeMetadata::Choice(5)), jump),
            );
        }
        if let Some((child, jump)) = Self::heading(tape) {
            return Some(
                (AstNode::branch(RuleKind::TopLevelElement, nodes1(child), NodeMetadata::Choice(6)), jump),
            );
        }
        if let Some((child, jump)) = Self::line_quote(tape) {
            return Some(
                (AstNode::branch(RuleKind::TopLevelElement, nodes1(child), NodeMetadata::Choice(7)), jump),
            );
        }
        if let Some((child, jump)) = Self::block_quote(tape) {
            return Some(
                (AstNode::branch(RuleKind::TopLevelElement, nodes1(child), NodeMetadata::Choice(8)), jump),
            );
        }
        None
    }

    /// `heading := HeadingMarker & line & Newline`
    pub fn heading<'a>(tape: TokenStream<'a>) -> (r: Option<(AstNode<'a>, TokenStream<'a>)>)
        ensures
            view_parsed(r) == spec_heading(spans(tape.raw@), tape.pos as int),
            advances(tape, r),
        decreases tape.raw@.len() - tape.pos, 3int,
    {
        let mut tape = tape;
        let a = match take_token(TokenKind::HeadingMarker, &mut tape) {
            Some(a) => a,
            None => {
                return None;
            },
        };
        let (b, mut tape) = match Self::line(tape) {
            Some(x) => x,
            None => {
                return None;
            },
        };
        let c = match take_token(TokenKind::Newline, &mut tape) {
            Some(c) => c,
            None => {
                return None;
            },
        };
        Some((AstNode::branch(RuleKind::Heading, nodes3(a, b, c), NodeMetadata::Empty), tape))
    }

    /// `line := lineElement+ & Newline`
    pub fn line<'a>(tape: TokenStream<'a>) -> (r: Option<(AstNode<'a>, TokenStream<'a>)>)
        ensures
            view_parsed(r) == spec_line(spans(tape.raw@), tape.pos as int),
            advances(tape, r),
        decreases tape.raw@.len() - tape.pos, 3int,
    {
        let ghost t = spans(tape.raw@);
        let ghost p0 = tape.pos as int;
        let ghost raw0 = tape.raw;
        if tape.pos > tape.raw.len() {
            return None;
        }
        let mut cur = tape;
        let mut children_a: Vec<AstNode<'a>> = Vec::new();
        loop
            invariant
                cur.raw == raw0,
                cur.raw == tape.raw,
                tape.pos as int == p0,
                t == spans(cur.raw@),
                p0 <= cur.pos <= t.len(),
                cur.pos <= cur.raw@.len(),
                spec_line_loop(t, p0, Seq::empty()) == spec_line_loop(
                    t,
                    cur.pos as int,
                    view_nodes(children_a@),
                ),
                children_a@.len() > 0 ==> p0 < cur.pos,
            ensures
                cur.raw == raw0,
                p0 <= cur.pos <= t.len(),
                spec_line_loop(t, p0, Seq::empty()) == (view_nodes(children_a@), cur.pos as int),
                children_a@.len() > 0 ==> p0 < cur.pos,
            decreases t.len() - cur.pos,
        {
            match Self::line_element(cur) {
                Some((child, jump)) => {
                    proof {
                        lemma_view_nodes_push(children_a@, child);
                    }
                    children_a.push(child);
                    cur = jump;
                },
                None => {
                    break;
                },
            }
        }
        proof {
            lemma_view_nodes(children_a@);
        }
        if children_a.len() == 0 {
            return None;
        }
        let a = AstNode::branch(RuleKind::Group, children_a, NodeMetadata::Empty);
        let b = match take_token(TokenKind::Newline, &mut cur) {
            Some(b) => b,
            None => {
                return None;
            },
        };
        Some((AstNode::branch(RuleKind::Line, nodes2(a, b), NodeMetadata::Empty), cur))
    }

    /// `lineElement := Plaintext | InlineCode | InlineMath | InlineRawCode | Literal
    ///     | format | link | embed | macro`
    pub fn line_element<'a>(tape: TokenStream<'a>) -> (r: Option<(AstNode<'a>, TokenStream<'a>)>)
        ensures
            view_parsed(r) == spec_line_element(spans(tape.raw@), tape.pos as int),
            advances(tape, r),
        decreases tape.raw@.len() - tape.pos, 1int,
    {
        if tape.pos < tape.raw.len() {
            let span = tape.raw[tape.pos];
            let choice: Option<u8> = match span.token.kind() {
                TokenKind::Plaintext => Some(0u8),
                TokenKind::InlineCode => Some(1u8),
                TokenKind::InlineMath => Some(2u8),
                TokenKind::InlineRawCode => Some(3u8),
                TokenKind::Literal => Some(4u8),
                _ => None,
            };
            if let Some(c) = choice {
                proof {
                    assert(spans(tape.raw@)[tape.pos as int] == span@);
                }
                let child = AstNode::token(span);
                let jump = TokenStream { raw: tape.raw, pos: tape.pos + 1 };
                return Some(
                    (AstNode::branch(RuleKind::LineElement, nodes1(child), NodeMetadata::Choice(c)), jump),
                );
            }
        }
        if let Some((child, jump)) = Self::format(tape) {
            return Some(
                (AstNode::branch(RuleKind::LineElement, nodes1(child), NodeMetadata::Choice(5)), jump),
            );
        }
        if let Some((child, jump)) = Self::link(tape) {
            return Some(
                (AstNode::branch(RuleKind::LineElement, nodes1(child), NodeMetadata::Choice(6)), jump),
            );
        }
        if let Some((child, jump)) = Self::embed(tape) {
            return Some(
                (AstNode::branch(RuleKind::LineElement, nodes1(child), NodeMetadata::Choice(7)), jump),
            );
        }
        if let Some((child, jump)) = Self::macro_rule(tape) {
            return Some(
                (AstNode::branch(RuleKind::LineElement, nodes1(child), NodeMetadata::Choice(8)), jump),
            );
        }
        None
    }

    /// `paragraph := (Newline | lineElement)+`, stopping at two newlines, the
    /// first of which it passes over.
    pub fn paragraph<'a>(tape: TokenStream<'a>) -> (r: Option<(AstNode<'a>, TokenStream<'a>)>)
        ensures
            view_parsed(r) == spec_paragraph(spans(tape.raw@), tape.pos as int),
            advances(tape, r),
        decreases tape.raw@.len() - tape.pos, 3int,
    {
        let ghost t = spans(tape.raw@);
        let ghost p0 = tape.pos as int;
        let ghost raw0 = tape.raw;
        if tape.pos > tape.raw.len() {
            return None;
        }
        let mut cur = tape;
        let mut children: Vec<AstNode<'a>> = Vec::new();
        loop
            invariant_except_break
                spec_para_loop(t, p0, Seq::empty()) == spec_para_loop(
                    t,
                    cur.pos as int,
                    view_nodes(children@),
                ),
            invariant
                cur.raw == raw0,
                cur.raw == tape.raw,
                tape.pos as int == p0,
                t == spans(cur.raw@),
                p0 <= cur.pos <= t.len(),
                cur.pos <= cur.raw@.len(),
                children@.len() > 0 ==> p0 < cur.pos,
            ensures
                cur.raw == raw0,
                p0 <= cur.pos <= t.len(),
                spec_para_loop(t, p0, Seq::empty()) == (view_nodes(children@), cur.pos as int),
                children@.len() > 0 ==> p0 < cur.pos,
            decreases t.len() - cur.pos,
        {
            let ghost p = cur.pos as int;
            let child: AstNode<'a>;
            match take_token(TokenKind::Newline, &mut cur) {
                Some(child_a) => {
                    if cur.is_at(TokenKind::Newline) {
                        break;
                    }
                    child = AstNode::branch(RuleKind::Group, nodes1(child_a), NodeMetadata::Choice(0));
                },
                None => match Self::line_element(cur) {
                    Some((child_a, jump)) => {
                        cur = jump;
                        child = AstNode::branch(RuleKind::Group, nodes1(child_a), NodeMetadata::Choice(1));
                    },
                    None => {
                        break;
                    },
                },
            }
            proof {
                lemma_view_nodes_push(children@, child);
            }
            children.push(child);
        }
        proof {
            lemma_view_nodes(children@);
        }
        if children.len() == 0 {
            return None;
        }
        Some((AstNode::branch(RuleKind::Group, children, NodeMetadata::Empty), cur))
    }

    /// `format := InlineFormat & paragraph & InlineFormat`, where the closer is
    /// the twin of the opener.
    pub fn format<'a>(tape: TokenStream<'a>) -> (r: Option<(AstNode<'a>, TokenStream<'a>)>)
        ensures
            view_parsed(r) == spec_format(spans(tape.raw@), tape.pos as int),
            advances(tape, r),
        decreases tape.raw@.len() - tape.pos, 0int,
    {
        let mut tape = tape;
        let a = match take_token(TokenKind::InlineFormat, &mut tape) {
            Some(a) => a,
            None => {
                return None;
            },
        };
        let a_start = a.start;
        let (b, mut tape) = match Self::paragraph(tape) {
            Some(x) => x,
            None => {
                return None;
            },
        };
        if tape.pos < tape.raw.len() {
            let closer = tape.raw[tape.pos];
            proof {
                assert(spans(tape.raw@)[tape.pos as int] == closer@);
            }
            tape.pos = tape.pos + 1;
            if let Token::InlineFormat { twin_pos, .. } = closer.token {
                if twin_pos == a_start {
                    let c = AstNode::token(closer);
                    return Some((AstNode::branch(RuleKind::Format, nodes3(a, b, c), NodeMetadata::Empty), tape));
                }
            }
        }
        None
    }

    /// `lineQuote := LineQuoteMarker & line`
    pub fn line_quote<'a>(tape: TokenStream<'a>) -> (r: Option<(AstNode<'a>, TokenStream<'a>)>)
        ensures
            view_parsed(r) == spec_line_quote(spans(tape.raw@), tape.pos as int),
            advances(tape, r),
        decreases tape.raw@.len() - tape.pos, 3int,
    {
        let mut tape = tape;
        let a = match take_token(TokenKind::LineQuoteMarker, &mut tape) {
            Some(a) => a,
            None => {
                return None;
            },
        };
        let (b, tape) = match Self::line(tape) {
            Some(x) => x,
            None => {
                return None;
            },
        };
        Some((AstNode::branch(RuleKind::LineQuote, nodes2(a, b), NodeMetadata::Empty), tape))
    }

    /// `blockQuote := BlockQuoteOpen & (Newline | line) & topLevelElement+ & BlockQuoteClose`
    pub fn block_quote<'a>(tape: TokenStream<'a>) -> (r: Option<(AstNode<'a>, TokenStream<'a>)>)
        ensures
            view_parsed(r) == spec_block_quote(spans(tape.raw@), tape.pos as int),
            advances(tape, r),
        decreases tape.raw@.len() - tape.pos, 3int,
    {
        let ghost t = spans(tape.raw@);
        let ghost p0 = tape.pos as int;
        let ghost raw0 = tape.raw;
        let mut cur = tape;
        let a = match take_token(TokenKind::BlockQuoteOpen, &mut cur) {
            Some(a) => a,
            None => {
                return None;
            },
        };
        let choice: u8;
        let child_b: AstNode<'a>;
        match take_token(TokenKind::Newline, &mut cur) {
            Some(n) => {
                choice = 0;
                child_b = n;
            },
            None => match Self::line(cur) {
                Some((n, jump)) => {
                    choice = 1;
                    child_b = n;
                    cur = jump;
                },
                None => {
                    return None;
                },
            },
        }
        let b = AstNode::branch(RuleKind::Group, nodes1(child_b), NodeMetadata::Choice(choice));
        let ghost r0 = cur.pos as int;
        let mut children_c: Vec<AstNode<'a>> = Vec::new();
        loop
            invariant
                cur.raw == raw0,
                cur.raw == tape.raw,
                tape.pos as int == p0,
                t == spans(cur.raw@),
                p0 < r0 <= cur.pos <= t.len(),
                cur.pos <= cur.raw@.len(),
                spec_elements(t, r0, Seq::empty()) == spec_elements(
                    t,
                    cur.pos as int,
                    view_nodes(children_c@),
                ),
            ensures
                cur.raw == raw0,
                p0 < r0 <= cur.pos <= t.len(),
                spec_elements(t, r0, Seq::empty()) == (view_nodes(children_c@), cur.pos as int),
            decreases t.len() - cur.pos,
        {
            match Self::top_level_element(cur) {
                Some((child, jump)) => {
                    proof {
                        lemma_view_nodes_push(children_c@, child);
                    }
                    children_c.push(child);
                    cur = jump;
                },
                None => {
                    break;
                },
            }
        }
        proof {
            lemma_view_nodes(children_c@);
        }
        if children_c.len() == 0 {
            return None;
        }
        let c = AstNode::branch(RuleKind::Group, children_c, NodeMetadata::Empty);
        let d = match take_token(TokenKind::BlockQuoteClose, &mut cur) {
            Some(d) => d,
            None => {
                return None;
            },
        };
        Some((AstNode::branch(RuleKind::BlockQuote, nodes4(a, b, c, d), NodeMetadata::Empty), cur))
    }
    /// `list := listItem+`, with the marker of the last item flagged as last.
    pub fn list<'a>(tape: TokenStream<'a>) -> (r: Option<(AstNode<'a>, TokenStream<'a>)>)
        ensures
            view_parsed(r) == spec_list(spans(tape.raw@), tape.pos as int),
            advances(tape, r),
        decreases tape.raw@.len() - tape.pos, 5int,
    {
        let ghost t = spans(tape.raw@);
        let ghost p0 = tape.pos as int;
        let ghost raw0 = tape.raw;
        if tape.pos >= tape.raw.len() {
            return None;
        }
        let start = tape.raw[tape.pos].start;
        proof {
            assert(t[p0].start == start);
            lemma_view_nodes(Seq::<AstNode>::empty());
        }
        let mut node = AstNode::new(RuleKind::List, Vec::new(), start, NodeMetadata::Empty);
        let ghost parent = node@;
        let mut cur = tape;
        let mut children_a: Vec<AstNode<'a>> = Vec::new();
        loop
            invariant
                cur.raw == raw0,
                cur.raw == tape.raw,
                tape.pos as int == p0,
                t == spans(cur.raw@),
                p0 <= cur.pos <= t.len(),
                cur.pos <= cur.raw@.len(),
                node@ == parent,
                parent == new_view(RuleKind::List, Seq::empty(), t[p0].start, NodeMetadata::Empty),
                spec_list_loop(t, p0, parent, Seq::empty()) == spec_list_loop(
                    t,
                    cur.pos as int,
                    parent,
                    view_nodes(children_a@),
                ),
                children_a@.len() > 0 ==> p0 < cur.pos,
                forall|i: int| 0 <= i < children_a@.len() ==> (#[trigger] children_a@[i]).children@.len() == 2,
            ensures
                cur.raw == raw0,
                p0 <= cur.pos <= t.len(),
                spec_list_loop(t, p0, parent, Seq::empty()) == (view_nodes(children_a@), cur.pos as int),
                children_a@.len() > 0 ==> p0 < cur.pos,
                forall|i: int| 0 <= i < children_a@.len() ==> (#[trigger] children_a@[i]).children@.len() == 2,
            decreases t.len() - cur.pos,
        {
            match Self::list_item(cur, &mut node) {
                Some((child, jump)) => {
                    proof {
                        lemma_view_nodes(child.children@);
                        lemma_view_nodes_push(children_a@, child);
                    }
                    children_a.push(child);
                    cur = jump;
                },
                None => {
                    break;
                },
            }
        }
        proof {
            lemma_view_nodes(children_a@);
        }
        if children_a.len() == 0 {
            return None;
        }
        let ghost items = children_a@;
        let mut last = children_a.pop().unwrap();
        proof {
            assert(last == items.last());
            lemma_view_nodes(last.children@);
        }
        let ghost last_children = last.children@;
        let mut marker = last.children.remove(0);
        match marker.meta {
            NodeMetadata::ListItem { kind, pos } => {
                marker.meta = NodeMetadata::ListItem { kind, pos: pos.union(ListItemPos::last()) };
            },
            _ => {
                return None;
            },
        }
        last.children.insert(0, marker);
        proof {
            assert(last.children@ == last_children.update(0, marker));
            lemma_view_nodes_update(last_children, 0, marker);
            assert(children_a@ == items.drop_last());
            assert(children_a@.push(last) == items.update(items.len() - 1, last));
            lemma_view_nodes_update(items, items.len() - 1, last);
            lemma_view_nodes_push(children_a@, last);
        }
        children_a.push(last);
        let a = AstNode::branch(RuleKind::Group, children_a, NodeMetadata::Empty);
        Some((AstNode::branch(RuleKind::List, nodes1(a), NodeMetadata::Empty), cur))
    }

    /// `listItem := ListItemMarker & line`
    ///
    /// A continuation item takes the kind of the last earlier item of `parent`
    /// with the same indentation. The item's marker records its kind and its
    /// position flags; an item more indented than the last child of `parent`
    /// clears that child's first flag.
    pub fn list_item<'a>(tape: TokenStream<'a>, parent: &mut AstNode<'a>) -> (r: Option<(AstNode<'a>, TokenStream<'a>)>)
        requires
            spec_list_item(spans(tape.raw@), tape.pos as int, old(parent)@) is Some,
        ensures
            spec_list_item(spans(tape.raw@), tape.pos as int, old(parent)@) == Some(
                (view_parsed(r), final(parent)@),
            ),
            advances(tape, r),
        decreases tape.raw@.len() - tape.pos, 3int,
    {
        let ghost t = spans(tape.raw@);
        let ghost p = tape.pos as int;
        let mut tape = tape;
        let mut a = match take_token(TokenKind::ListItemMarker, &mut tape) {
            Some(a) => a,
            None => {
                return None;
            },
        };
        let (indent_a, kind_a) = match a.kind {
            NodeKind::Token(Token::ListItemMarker { indent, kind }) => (indent, kind),
            _ => {
                return None;
            },
        };
        proof {
            lemma_view_nodes(parent.children@);
        }
        let kind_a = if kind_a == ListItemKind::Continuation {
            let ghost ch = view_nodes(parent.children@);
            let mut i = parent.children.len();
            let mut found: Option<ListItemKind> = None;
            let mut fault = false;
            proof {
                assert(ch.subrange(0, ch.len() as int) == ch);
            }
            while i > 0
                invariant_except_break
                    found is None,
                    !fault,
                invariant
                    i <= parent.children@.len(),
                    ch == view_nodes(parent.children@),
                    ch.len() == parent.children@.len(),
                    forall|j: int| 0 <= j < parent.children@.len() ==> #[trigger] ch[j] == view_node(parent.children@[j]),
                    sibling_lookup(ch, indent_a) == sibling_lookup(ch.subrange(0, i as int), indent_a),
                ensures
                    fault ==> sibling_lookup(ch, indent_a) == Sibling::Fault,
                    !fault && found is None ==> sibling_lookup(ch, indent_a) == Sibling::Missing,
                    !fault ==> (found matches Some(k) ==> sibling_lookup(ch, indent_a) == Sibling::Found(k)),
                decreases i,
            {
                let ghost sub = ch.subrange(0, i as int);
                proof {
                    assert(sub.last() == ch[i - 1]);
                    assert(sub.drop_last() == ch.subrange(0, i - 1));
                    assert(ch.subrange(0, 0) == Seq::<AstView>::empty());
                }
                match parent.children[i - 1].kind {
                    NodeKind::Rule(_) => {
                        fault = true;
                        break;
                    },
                    NodeKind::Token(Token::ListItemMarker { indent, kind }) => {
                        if indent == indent_a && kind != ListItemKind::Continuation {
                            found = Some(kind);
                            break;
                        }
                    },
                    _ => {},
                }
                i -= 1;
            }
            if fault {
                return None;
            }
            match found {
                Some(k) => k,
                None => {
                    return None;
                },
            }
        } else {
            kind_a
        };
        let n = parent.children.len();
        if n == 0 {
            a.meta = NodeMetadata::ListItem { kind: kind_a, pos: ListItemPos::first() };
        } else {
            let mut pos = ListItemPos::any();
            let prev_indent = match parent.children[n - 1].kind {
                NodeKind::Token(Token::ListItemMarker { indent, .. }) => indent,
                _ => {
                    return None;
                },
            };
            if prev_indent > indent_a {
                pos = pos.union(ListItemPos::first());
                let bits = pos.bits;
                assert(bits == 1) by (bit_vector)
                    requires
                        bits == 0u8 | 1u8,
                ;
            } else if prev_indent < indent_a {
                let ghost before = parent.children@;
                let mut prev = parent.children.pop().unwrap();
                proof {
                    assert(prev == before[n - 1]);
                }
                match prev.meta {
                    NodeMetadata::ListItem { kind, pos: prev_pos } => {
                        prev.meta = NodeMetadata::ListItem {
                            kind,
                            pos: prev_pos.intersection(ListItemPos::last()),
                        };
                    },
                    _ => {
                        parent.children.push(prev);
                        return None;
                    },
                }
                proof {
                    assert(parent.children@.push(prev) == before.update(n - 1, prev));
                    lemma_view_nodes_update(before, n - 1, prev);
                }
                parent.children.push(prev);
            }
            a.meta = NodeMetadata::ListItem { kind: kind_a, pos };
        }
        let (b, tape) = match Self::line(tape) {
            Some(x) => x,
            None => {
                return None;
            },
        };
        Some((AstNode::branch(RuleKind::ListItem, nodes2(a, b), NodeMetadata::Empty), tape))
    }
    /// `markup := topLevelElement*`: the root over the top-level elements from
    /// the current position on. Since a zero-length input is also accepted, a
    /// match (even if partial) is always made.
    pub fn markup<'a>(tape: TokenStream<'a>) -> (r: Option<(AstNode<'a>, TokenStream<'a>)>)
        ensures
            r matches Some((root, rest)) && rest.raw == tape.raw && (root@, rest.pos as int)
                == spec_markup(spans(tape.raw@), tape.pos as int),
    {
        let ghost t = spans(tape.raw@);
        let ghost p0 = tape.pos as int;
        if tape.pos > tape.raw.len() {
            proof {
                lemma_view_nodes(Seq::<AstNode>::empty());
            }
            return Some((AstNode::new(RuleKind::Markup, Vec::new(), 0, NodeMetadata::Empty), tape));
        }
        let mut cur = tape;
        let mut children: Vec<AstNode<'a>> = Vec::new();
        loop
            invariant
                cur.raw == tape.raw,
                t == spans(cur.raw@),
                p0 == tape.pos,
                p0 <= cur.pos <= t.len(),
                cur.pos <= cur.raw@.len(),
                spec_elements(t, p0, Seq::empty()) == spec_elements(t, cur.pos as int, view_nodes(children@)),
            ensures
                cur.raw == tape.raw,
                spec_elements(t, p0, Seq::empty()) == (view_nodes(children@), cur.pos as int),
            decreases t.len() - cur.pos,
        {
            match Self::top_level_element(cur) {
                Some((child, jump)) => {
                    proof {
                        lemma_view_nodes_push(children@, child);
                    }
                    children.push(child);
                    cur = jump;
                },
                None => {
                    break;
                },
            }
        }
        Some((AstNode::new(RuleKind::Markup, children, 0, NodeMetadata::Empty), cur))
    }
}

/// Returned by [`assemble_ast`]: the root of the tree and the tokens after it.
pub struct AstOutput<'a> {
    pub root: AstNode<'a>,
    pub rest: TokenStream<'a>,
}

/// Assembles the abstract syntax tree (AST) from the token stream.
///
/// Since a zero-length input is also accepted, a match (even if partial)
/// will always be made. To check if the entire input is matched,
/// ensure the root `Markup` node contains children.
pub fn assemble_ast<'a>(tokens: &'a [TokenSpan<'a>]) -> (r: Option<AstOutput<'a>>)
    ensures
        r matches Some(out) && out.rest.raw == tokens && (out.root@, out.rest.pos as int) == spec_markup(
            spans(tokens@),
            0,
        ),
{
    match Grammar::markup(TokenStream::new(tokens)) {
        Some((root, rest)) => Some(AstOutput { root, rest }),
        None => None,
    }
}

} // verus!
