//! The abstract syntax tree of markup, and its mathematical model.
use vstd::prelude::*;
use crate::lex::{SpanView, Token, TokenKind, TokenSpan, TokenView};

verus! {

/// A token or parser rule that can be matched to some slice of the
/// list of tokens produced after lexing.
pub trait SymbolKind: Sized {
    fn as_token_kind(self) -> Option<TokenKind>;

    fn as_rule_kind(self) -> Option<RuleKind>;
}

/// Rule identifiers, decoupled from rule matching logic to promote extensibility.
///
/// The suffix *-Kind* is used instead of *-Id* to avoid confusion with unique serial numbers.
#[derive(Debug, Clone, Copy, PartialEq, Eq, Structural)]
pub enum RuleKind {
    Markup,
    TopLevelElement,
    Heading,
    Paragraph,
    Line,
    LineElement,
    Format,
    Link,
    Embed,
    List,
    LinkTarget,
    LineQuote,
    BlockQuote,
    ListItem,
    Macro,
    /// A node that groups the parts of a rule without naming a rule of its own.
    Group,
}

impl SymbolKind for RuleKind {
    fn as_token_kind(self) -> (r: Option<TokenKind>)
        ensures
            r is None,
    {
        Option::None
    }

    fn as_rule_kind(self) -> (r: Option<RuleKind>)
        ensures
            r == Some(self),
    {
        Some(self)
    }
}

impl SymbolKind for TokenKind {
    fn as_token_kind(self) -> (r: Option<TokenKind>)
        ensures
            r == Some(self),
    {
        Some(self)
    }

    fn as_rule_kind(self) -> (r: Option<RuleKind>)
        ensures
            r is None,
    {
        Option::None
    }
}

/// What an AST node stands for: a grammar rule or a token.
#[derive(Debug, Clone, Copy, PartialEq, Eq)]
pub enum NodeKind<'a> {
    Rule(RuleKind),
    Token(Token<'a>),
}

/// The kind of a node with its token seen as byte sequences.
pub enum NodeKindView {
    Rule(RuleKind),
    Token(TokenView),
}

pub open spec fn view_kind(k: NodeKind) -> NodeKindView {
    match k {
        NodeKind::Rule(r) => NodeKindView::Rule(r),
        NodeKind::Token(t) => NodeKindView::Token(t@),
    }
}

impl<'a> NodeKind<'a> {
    /// The token, for a token node.
    pub fn token(self) -> (r: Option<Token<'a>>)
        ensures
            r == (match self {
                NodeKind::Token(t) => Some(t),
                NodeKind::Rule(_) => Option::None,
            }),
    {
        match self {
            NodeKind::Token(token) => Some(token),
            NodeKind::Rule(_) => Option::None,
        }
    }

    /// The rule, for a rule node.
    pub fn rule(self) -> (r: Option<RuleKind>)
        ensures
            r == (match self {
                NodeKind::Rule(k) => Some(k),
                NodeKind::Token(_) => Option::None,
            }),
    {
        match self {
            NodeKind::Rule(rule) => Some(rule),
            NodeKind::Token(_) => Option::None,
        }
    }
}

impl<'a> SymbolKind for NodeKind<'a> {
    /// A node kind names no token kind, whatever it holds.
    fn as_token_kind(self) -> (r: Option<TokenKind>)
        ensures
            r is None,
    {
        match self {
            NodeKind::Token(_) => Option::None,
            NodeKind::Rule(_) => Option::None,
        }
    }

    fn as_rule_kind(self) -> (r: Option<RuleKind>)
        ensures
            r == (match self {
                NodeKind::Rule(k) => Some(k),
                NodeKind::Token(_) => Option::None,
            }),
    {
        match self {
            NodeKind::Rule(rule) => Some(rule),
            NodeKind::Token(_) => Option::None,
        }
    }
}

/// Information attached to a node by the rule that made it.
#[derive(Debug, Clone, Copy, PartialEq, Eq, Structural)]
pub enum NodeMetadata {
    /// 0-indexed option choice.
    Choice(u8),
    /// If true, target of optional was matched.
    IsPresent(bool),
    ListItem { kind: crate::lex::ListItemKind, pos: crate::lex::ListItemPos },
    /// Nothing attached.
    Empty,
}

/// A node of the syntax tree.
///
/// `end` is exclusive.
#[derive(Debug)]
pub struct AstNode<'a> {
    pub children: Vec<AstNode<'a>>,
    pub meta: NodeMetadata,
    pub parent: Option<RuleKind>,
    pub start: usize,
    pub end: usize,
    pub kind: NodeKind<'a>,
}

/// The mathematical value of a node.
pub struct AstView {
    pub children: Seq<AstView>,
    pub meta: NodeMetadata,
    pub parent: Option<RuleKind>,
    pub start: int,
    pub end: int,
    pub kind: NodeKindView,
}

pub open spec fn view_node(n: AstNode) -> AstView
    decreases n,
{
    AstView {
        children: view_nodes(n.children@),
        meta: n.meta,
        parent: n.parent,
        start: n.start as int,
        end: n.end as int,
        kind: view_kind(n.kind),
    }
}

pub open spec fn view_nodes(s: Seq<AstNode>) -> Seq<AstView>
    decreases s,
{
    if s.len() == 0 {
        Seq::empty()
    } else {
        view_nodes(s.drop_last()).push(view_node(s.last()))
    }
}

impl<'a> View for AstNode<'a> {
    type V = AstView;

    open spec fn view(&self) -> AstView {
        view_node(*self)
    }
}

pub proof fn lemma_view_nodes(s: Seq<AstNode>)
    ensures
        view_nodes(s).len() == s.len(),
        forall|i: int| 0 <= i < s.len() ==> #[trigger] view_nodes(s)[i] == view_node(s[i]),
    decreases s.len(),
{
    if s.len() > 0 {
        lemma_view_nodes(s.drop_last());
    }
}

pub proof fn lemma_view_nodes_push(s: Seq<AstNode>, n: AstNode)
    ensures
        view_nodes(s.push(n)) == view_nodes(s).push(view_node(n)),
{
    assert(s.push(n).drop_last() == s);
}

pub proof fn lemma_view_nodes_update(s: Seq<AstNode>, i: int, n: AstNode)
    requires
        0 <= i < s.len(),
    ensures
        view_nodes(s.update(i, n)) == view_nodes(s).update(i, view_node(n)),
{
    lemma_view_nodes(s);
    lemma_view_nodes(s.update(i, n));
    assert(view_nodes(s.update(i, n)) =~= view_nodes(s).update(i, view_node(n)));
}

/// A token leaf made from a span.
pub open spec fn leaf_view(s: SpanView) -> AstView {
    AstView {
        children: Seq::empty(),
        meta: NodeMetadata::Empty,
        parent: Option::None,
        start: s.start,
        end: s.end,
        kind: NodeKindView::Token(s.token),
    }
}

/// A node with its parent rule set.
pub open spec fn adopted(c: AstView, rule: RuleKind) -> AstView {
    AstView { parent: Some(rule), ..c }
}

/// Children as a rule node holds them: each with that rule as its parent.
pub open spec fn adopt_all(s: Seq<AstView>, rule: RuleKind) -> Seq<AstView> {
    Seq::new(s.len(), |i: int| adopted(s[i], rule))
}

/// A rule node over its children, spanning from the first to the last.
pub open spec fn branch_view(rule: RuleKind, children: Seq<AstView>, meta: NodeMetadata) -> AstView {
    AstView {
        children: adopt_all(children, rule),
        meta,
        parent: Option::None,
        start: children[0].start,
        end: children.last().end,
        kind: NodeKindView::Rule(rule),
    }
}

/// A rule node that may have no children; then it is empty at `pos`.
pub open spec fn new_view(rule: RuleKind, children: Seq<AstView>, pos: int, meta: NodeMetadata) -> AstView {
    if children.len() == 0 {
        AstView {
            children: Seq::empty(),
            meta,
            parent: Option::None,
            start: pos,
            end: pos,
            kind: NodeKindView::Rule(rule),
        }
    } else {
        branch_view(rule, children, meta)
    }
}

/// Sets the parent of each node.
fn adopt<'a>(children: Vec<AstNode<'a>>, rule: RuleKind) -> (r: Vec<AstNode<'a>>)
    ensures
        view_nodes(r@) == adopt_all(view_nodes(children@), rule),
{
    let ghost orig = view_nodes(children@);
    proof {
        lemma_view_nodes(children@);
    }
    let mut children = children;
    let mut rev: Vec<AstNode<'a>> = Vec::new();
    while children.len() > 0
        invariant
            children@.len() + rev@.len() == orig.len(),
            forall|i: int| 0 <= i < children@.len() ==> #[trigger] view_node(children@[i]) == orig[i],
            forall|j: int|
                0 <= j < rev@.len() ==> #[trigger] view_node(rev@[j]) == adopted(
                    orig[orig.len() - 1 - j],
                    rule,
                ),
        decreases children@.len(),
    {
        let ghost k = children@.len() - 1;
        let ghost before = children@;
        let mut c = children.pop().unwrap();
        assert(view_node(c) == orig[k]) by {
            assert(c == before[k]);
        }
        c.parent = Some(rule);
        assert(view_node(c) == adopted(orig[k], rule));
        let ghost rev_before = rev@;
        rev.push(c);
        assert forall|j: int| 0 <= j < rev@.len() implies #[trigger] view_node(rev@[j]) == adopted(
            orig[orig.len() - 1 - j],
            rule,
        ) by {
            if j < rev_before.len() {
                assert(rev@[j] == rev_before[j]);
            }
        }
    }
    let mut out: Vec<AstNode<'a>> = Vec::new();
    while rev.len() > 0
        invariant
            out@.len() + rev@.len() == orig.len(),
            forall|j: int|
                0 <= j < rev@.len() ==> #[trigger] view_node(rev@[j]) == adopted(
                    orig[orig.len() - 1 - j],
                    rule,
                ),
            forall|i: int| 0 <= i < out@.len() ==> #[trigger] view_node(out@[i]) == adopted(orig[i], rule),
        decreases rev@.len(),
    {
        let c = rev.pop().unwrap();
        out.push(c);
    }
    proof {
        lemma_view_nodes(out@);
        assert(view_nodes(out@) =~= adopt_all(orig, rule));
    }
    out
}

impl<'a> AstNode<'a> {
    /// An empty root node.
    pub fn root() -> (r: AstNode<'a>)
        ensures
            r@ == new_view(RuleKind::Markup, Seq::empty(), 0, NodeMetadata::Empty),
    {
        AstNode {
            children: Vec::new(),
            meta: NodeMetadata::Empty,
            parent: Option::None,
            start: 0,
            end: 0,
            kind: NodeKind::Rule(RuleKind::Markup),
        }
    }

    /// Returns a rule node that may be either a leaf or a branch.
    pub fn new(rule: RuleKind, children: Vec<AstNode<'a>>, pos: usize, meta: NodeMetadata) -> (r: AstNode<'a>)
        ensures
            r@ == new_view(rule, view_nodes(children@), pos as int, meta),
    {
        if children.len() == 0 {
            proof {
                lemma_view_nodes(children@);
            }
            return AstNode {
                children,
                meta,
                parent: Option::None,
                start: pos,
                end: pos,
                kind: NodeKind::Rule(rule),
            };
        }
        AstNode::branch(rule, children, meta)
    }

    /// Returns a rule branch node.
    pub fn branch(rule: RuleKind, children: Vec<AstNode<'a>>, meta: NodeMetadata) -> (r: AstNode<'a>)
        requires
            children@.len() > 0,
        ensures
            r@ == branch_view(rule, view_nodes(children@), meta),
    {
        proof {
            lemma_view_nodes(children@);
        }
        let start = children[0].start;
        let end = children[children.len() - 1].end;
        let children = adopt(children, rule);
        AstNode { children, meta, parent: Option::None, start, end, kind: NodeKind::Rule(rule) }
    }

    /// Returns a token leaf node for a span.
    pub fn token(span: TokenSpan<'a>) -> (r: AstNode<'a>)
        ensures
            r@ == leaf_view(span@),
    {
        let r = AstNode {
            children: Vec::new(),
            meta: NodeMetadata::Empty,
            parent: Option::None,
            start: span.start,
            end: span.end,
            kind: NodeKind::Token(span.token),
        };
        proof {
            assert(view_nodes(r.children@) =~= Seq::empty());
        }
        r
    }

    /// Returns a token leaf node for a span, with its parent rule set.
    pub fn leaf(span: TokenSpan<'a>, parent: RuleKind) -> (r: AstNode<'a>)
        ensures
            r@ == adopted(leaf_view(span@), parent),
    {
        let mut r = AstNode::token(span);
        r.parent = Some(parent);
        r
    }

    /// True for a token node.
    pub fn is_leaf(&self) -> (b: bool)
        ensures
            b == (self.kind is Token),
    {
        match self.kind {
            NodeKind::Token(_) => true,
            NodeKind::Rule(_) => false,
        }
    }

    /// True for a rule node.
    pub fn is_branch(&self) -> (b: bool)
        ensures
            b == (self.kind is Rule),
    {
        match self.kind {
            NodeKind::Rule(_) => true,
            NodeKind::Token(_) => false,
        }
    }
}

} // verus!
