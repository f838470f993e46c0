//! Tokens of the markup language.
use vstd::prelude::*;
use vstd::string::StringExecFns;

verus! {

/// The format in which a numbered list should be displayed.
#[derive(Debug, Clone, Copy, PartialEq, Eq, Structural)]
pub enum Numbering {
    Number,
    Lower,
    Upper,
    LowerNumeral,
    UpperNumeral,
}

pub open spec fn spec_numbering(marker: u8) -> Option<Numbering> {
    if marker == 100u8 {
        Some(Numbering::Number)
    } else if marker == 97u8 {
        Some(Numbering::Lower)
    } else if marker == 65u8 {
        Some(Numbering::Upper)
    } else if marker == 114u8 {
        Some(Numbering::LowerNumeral)
    } else if marker == 82u8 {
        Some(Numbering::UpperNumeral)
    } else {
        None
    }
}

impl Numbering {
    /// The numbering named by a list marker letter: `d`, `a`, `A`, `r` or `R`.
    pub fn from_marker(marker: u8) -> (r: Option<Numbering>)
        ensures
            r == spec_numbering(marker),
    {
        match marker {
            100u8 => Some(Numbering::Number),
            97u8 => Some(Numbering::Lower),
            65u8 => Some(Numbering::Upper),
            114u8 => Some(Numbering::LowerNumeral),
            82u8 => Some(Numbering::UpperNumeral),
            _ => None,
        }
    }
}

/// The type of inline format marker: a single format, or bold and italic together.
#[derive(Debug, Clone, Copy, PartialEq, Eq, Structural)]
pub enum InlineFormat {
    Bold,
    Italic,
    Strikethrough,
    Underline,
    Highlight,
    BoldItalic,
}

pub open spec fn spec_format_bits(f: InlineFormat) -> u8 {
    match f {
        InlineFormat::Bold => 1u8,
        InlineFormat::Italic => 2u8,
        InlineFormat::Strikethrough => 4u8,
        InlineFormat::Underline => 8u8,
        InlineFormat::Highlight => 16u8,
        InlineFormat::BoldItalic => 3u8,
    }
}

pub open spec fn spec_format_len(f: InlineFormat) -> usize {
    match f {
        InlineFormat::BoldItalic => 3usize,
        InlineFormat::Bold => 2usize,
        _ => 1usize,
    }
}

impl InlineFormat {
    /// The flag bits: bold 1, italic 2, strikethrough 4, underline 8, highlight 16.
    pub fn bits(self) -> (b: u8)
        ensures
            b == spec_format_bits(self),
    {
        match self {
            InlineFormat::Bold => 1u8,
            InlineFormat::Italic => 2u8,
            InlineFormat::Strikethrough => 4u8,
            InlineFormat::Underline => 8u8,
            InlineFormat::Highlight => 16u8,
            InlineFormat::BoldItalic => 3u8,
        }
    }

    /// True if the two formats share a flag.
    pub fn intersects(self, other: InlineFormat) -> (b: bool)
        ensures
            b == (spec_format_bits(self) & spec_format_bits(other) != 0),
    {
        self.bits() & other.bits() != 0
    }

    /// Returns the length of the character cluster that denotes the given format.
    pub fn len(self) -> (n: usize)
        ensures
            n == spec_format_len(self),
    {
        match self {
            InlineFormat::BoldItalic => 3,
            InlineFormat::Bold => 2,
            _ => 1,
        }
    }
}

#[derive(Debug, Clone, Copy, PartialEq, Eq, Structural)]
pub enum CheckboxType {
    Filled,
    Empty,
    Toggle,
}

pub open spec fn spec_checkbox(marker: u8) -> Option<CheckboxType> {
    if marker == 120u8 {
        Some(CheckboxType::Filled)
    } else if marker == 111u8 {
        Some(CheckboxType::Empty)
    } else if marker == 63u8 {
        Some(CheckboxType::Toggle)
    } else {
        None
    }
}

impl CheckboxType {
    /// The checkbox named by a marker: `x` filled, `o` empty, `?` toggle.
    pub fn from_marker(marker: u8) -> (r: Option<CheckboxType>)
        ensures
            r == spec_checkbox(marker),
    {
        match marker {
            120u8 => Some(CheckboxType::Filled),
            111u8 => Some(CheckboxType::Empty),
            63u8 => Some(CheckboxType::Toggle),
            _ => None,
        }
    }
}

/// The position of a list item within its list, as flag bits: first 1, last 2.
#[derive(Debug, Clone, Copy, PartialEq, Eq, Structural)]
pub struct ListItemPos {
    pub bits: u8,
}

impl ListItemPos {
    pub fn any() -> (p: ListItemPos)
        ensures
            p.bits == 0,
    {
        ListItemPos { bits: 0 }
    }

    pub fn first() -> (p: ListItemPos)
        ensures
            p.bits == 1,
    {
        ListItemPos { bits: 1 }
    }

    pub fn last() -> (p: ListItemPos)
        ensures
            p.bits == 2,
    {
        ListItemPos { bits: 2 }
    }

    /// Both sets of flags.
    pub fn union(self, other: ListItemPos) -> (p: ListItemPos)
        ensures
            p.bits == self.bits | other.bits,
    {
        ListItemPos { bits: self.bits | other.bits }
    }

    /// The flags in both.
    pub fn intersection(self, other: ListItemPos) -> (p: ListItemPos)
        ensures
            p.bits == self.bits & other.bits,
    {
        ListItemPos { bits: self.bits & other.bits }
    }
}

#[derive(Debug, Clone, Copy, PartialEq, Eq, Structural)]
pub enum ListItemKind {
    Unordered,
    Continuation,
    Numbered(Numbering),
    Checkbox(CheckboxType),
}

pub open spec fn spec_is_sibling(a: ListItemKind, b: ListItemKind) -> bool {
    match a {
        ListItemKind::Unordered => b == ListItemKind::Unordered,
        ListItemKind::Numbered(_) => a == b,
        _ => b is Checkbox,
    }
}

pub open spec fn spec_open_tag(k: ListItemKind) -> Seq<char> {
    match k {
        ListItemKind::Unordered => "ul class='dt-Unordered'"@,
        ListItemKind::Numbered(Numbering::Number) => "ol class='dt-numbering'"@,
        ListItemKind::Numbered(Numbering::Lower) => "ol type='a' class='dt-numbering'"@,
        ListItemKind::Numbered(Numbering::Upper) => "ol type='A' class='dt-numbering'"@,
        ListItemKind::Numbered(Numbering::LowerNumeral) => "ol type='i' class='dt-numbering'"@,
        ListItemKind::Numbered(Numbering::UpperNumeral) => "ol type='I' class='dt-numbering'"@,
        ListItemKind::Checkbox(CheckboxType::Empty) => "ol class='dt-checkbox--empty'"@,
        ListItemKind::Checkbox(CheckboxType::Filled) => "ol class='dt-checkbox--filled'"@,
        ListItemKind::Checkbox(CheckboxType::Toggle) => "ol class='det-checkbox--toggle'"@,
        ListItemKind::Continuation => Seq::empty(),
    }
}

pub open spec fn spec_close_tag(k: ListItemKind) -> Seq<char> {
    match k {
        ListItemKind::Unordered => "ul"@,
        _ => "ol"@,
    }
}

impl ListItemKind {
    /// Returns true if both kinds of list items can reside within the same list.
    ///
    /// Only defined for kinds other than a continuation.
    pub fn is_sibling(self, other: ListItemKind) -> (b: bool)
        requires
            !(self is Continuation),
        ensures
            b == spec_is_sibling(self, other),
    {
        match self {
            ListItemKind::Unordered => other == ListItemKind::Unordered,
            ListItemKind::Numbered(_) => self == other,
            _ => match other {
                ListItemKind::Checkbox(_) => true,
                _ => false,
            },
        }
    }

    /// True for numbered items.
    pub fn is_numbering(self) -> (b: bool)
        ensures
            b == self is Numbered,
    {
        match self {
            ListItemKind::Numbered(_) => true,
            _ => false,
        }
    }

    /// True for checkbox items.
    pub fn is_checkbox(self) -> (b: bool)
        ensures
            b == self is Checkbox,
    {
        match self {
            ListItemKind::Checkbox(_) => true,
            _ => false,
        }
    }

    /// The kind of a list item marker token.
    pub fn from_token(token: Token) -> (k: ListItemKind)
        requires
            token is ListItemMarker,
        ensures
            k == token->ListItemMarker_kind,
    {
        match token {
            Token::ListItemMarker { kind, .. } => kind,
            _ => ListItemKind::Unordered,
        }
    }

    /// Returns the open tag; a continuation has none.
    pub fn open_tag(self) -> (t: &'static str)
        requires
            !(self is Continuation),
        ensures
            t@ == spec_open_tag(self),
    {
        match self {
            ListItemKind::Unordered => "ul class='dt-Unordered'",
            ListItemKind::Numbered(ty) => match ty {
                Numbering::Number => "ol class='dt-numbering'",
                Numbering::Lower => "ol type='a' class='dt-numbering'",
                Numbering::Upper => "ol type='A' class='dt-numbering'",
                Numbering::LowerNumeral => "ol type='i' class='dt-numbering'",
                Numbering::UpperNumeral => "ol type='I' class='dt-numbering'",
            },
            ListItemKind::Checkbox(ty) => match ty {
                CheckboxType::Empty => "ol class='dt-checkbox--empty'",
                CheckboxType::Filled => "ol class='dt-checkbox--filled'",
                CheckboxType::Toggle => "ol class='det-checkbox--toggle'",
            },
            ListItemKind::Continuation => "",
        }
    }

    /// Returns the close tag; a continuation has none.
    pub fn close_tag(self) -> (t: &'static str)
        requires
            !(self is Continuation),
        ensures
            t@ == spec_close_tag(self),
    {
        match self {
            ListItemKind::Unordered => "ul",
            _ => "ol",
        }
    }

    /// Returns the open tag, or that of `fallback` if this is a continuation.
    pub fn open_tag_or(self, fallback: ListItemKind) -> (t: &'static str)
        requires
            !(self is Continuation) || !(fallback is Continuation),
        ensures
            t@ == spec_open_tag(
                if self is Continuation {
                    fallback
                } else {
                    self
                },
            ),
    {
        if self.is_continuation() {
            fallback.open_tag()
        } else {
            self.open_tag()
        }
    }

    /// Returns the close tag, or that of `fallback` if this is a continuation.
    pub fn close_tag_or(self, fallback: ListItemKind) -> (t: &'static str)
        requires
            !(self is Continuation) || !(fallback is Continuation),
        ensures
            t@ == spec_close_tag(
                if self is Continuation {
                    fallback
                } else {
                    self
                },
            ),
    {
        if self.is_continuation() {
            fallback.close_tag()
        } else {
            self.close_tag()
        }
    }

    pub fn is_continuation(self) -> (b: bool)
        ensures
            b == self is Continuation,
    {
        match self {
            ListItemKind::Continuation => true,
            _ => false,
        }
    }
}

/// The class and payload of a token; slices point into the input.
#[derive(Debug, Clone, Copy, PartialEq, Eq)]
pub enum Token<'a> {
    // Content
    Plaintext,
    Literal { ch: u8 },
    LinkBody { href: &'a [u8] },
    LinkAliasBody { alias: &'a [u8] },
    InferredLink { href: &'a [u8] },
    LinkMarker,
    EmbedMarker,
    MacroHandle { name: &'a [u8] },
    InlineCode { body: &'a [u8] },
    InlineRawCode { body: &'a [u8] },
    InlineMath { body: &'a [u8] },
    InlineFormat { ty: InlineFormat, twin_pos: usize },
    // Everything else
    Newline,
    HorizontalRule,
    LineQuoteMarker,
    BlockQuoteOpen,
    BlockQuoteClose,
    MacroDecor { body: &'a [u8] },
    MacroConfig { body: &'a [u8] },
    MacroBody { body: &'a [u8] },
    HeadingMarker { depth: u8 },
    CodeBlock { body: &'a [u8], lang: &'a [u8] },
    MathBlock { body: &'a [u8] },
    ListItemMarker { indent: u8, kind: ListItemKind },
    Eof,
}

/// The variant of a token, without its payload.
#[derive(Debug, Clone, Copy, PartialEq, Eq, Structural)]
pub enum TokenKind {
    Plaintext,
    Literal,
    LinkBody,
    LinkAliasBody,
    InferredLink,
    LinkMarker,
    EmbedMarker,
    MacroHandle,
    InlineCode,
    InlineRawCode,
    InlineMath,
    InlineFormat,
    Newline,
    HorizontalRule,
    LineQuoteMarker,
    BlockQuoteOpen,
    BlockQuoteClose,
    MacroDecor,
    MacroConfig,
    MacroBody,
    HeadingMarker,
    CodeBlock,
    MathBlock,
    ListItemMarker,
    Eof,
}

/// A token with its payload seen as byte sequences.
pub enum TokenView {
    Plaintext,
    Literal { ch: u8 },
    LinkBody { href: Seq<u8> },
    LinkAliasBody { alias: Seq<u8> },
    InferredLink { href: Seq<u8> },
    LinkMarker,
    EmbedMarker,
    MacroHandle { name: Seq<u8> },
    InlineCode { body: Seq<u8> },
    InlineRawCode { body: Seq<u8> },
    InlineMath { body: Seq<u8> },
    InlineFormat { ty: InlineFormat, twin_pos: int },
    Newline,
    HorizontalRule,
    LineQuoteMarker,
    BlockQuoteOpen,
    BlockQuoteClose,
    MacroDecor { body: Seq<u8> },
    MacroConfig { body: Seq<u8> },
    MacroBody { body: Seq<u8> },
    HeadingMarker { depth: u8 },
    CodeBlock { body: Seq<u8>, lang: Seq<u8> },
    MathBlock { body: Seq<u8> },
    ListItemMarker { indent: u8, kind: ListItemKind },
    Eof,
}

impl<'a> View for Token<'a> {
    type V = TokenView;

    open spec fn view(&self) -> TokenView {
        match *self {
            Token::Plaintext => TokenView::Plaintext,
            Token::Literal { ch } => TokenView::Literal { ch },
            Token::LinkBody { href } => TokenView::LinkBody { href: href@ },
            Token::LinkAliasBody { alias } => TokenView::LinkAliasBody { alias: alias@ },
            Token::InferredLink { href } => TokenView::InferredLink { href: href@ },
            Token::LinkMarker => TokenView::LinkMarker,
            Token::EmbedMarker => TokenView::EmbedMarker,
            Token::MacroHandle { name } => TokenView::MacroHandle { name: name@ },
            Token::InlineCode { body } => TokenView::InlineCode { body: body@ },
            Token::InlineRawCode { body } => TokenView::InlineRawCode { body: body@ },
            Token::InlineMath { body } => TokenView::InlineMath { body: body@ },
            Token::InlineFormat { ty, twin_pos } => TokenView::InlineFormat { ty, twin_pos: twin_pos as int },
            Token::Newline => TokenView::Newline,
            Token::HorizontalRule => TokenView::HorizontalRule,
            Token::LineQuoteMarker => TokenView::LineQuoteMarker,
            Token::BlockQuoteOpen => TokenView::BlockQuoteOpen,
            Token::BlockQuoteClose => TokenView::BlockQuoteClose,
            Token::MacroDecor { body } => TokenView::MacroDecor { body: body@ },
            Token::MacroConfig { body } => TokenView::MacroConfig { body: body@ },
            Token::MacroBody { body } => TokenView::MacroBody { body: body@ },
            Token::HeadingMarker { depth } => TokenView::HeadingMarker { depth },
            Token::CodeBlock { body, lang } => TokenView::CodeBlock { body: body@, lang: lang@ },
            Token::MathBlock { body } => TokenView::MathBlock { body: body@ },
            Token::ListItemMarker { indent, kind } => TokenView::ListItemMarker { indent, kind },
            Token::Eof => TokenView::Eof,
        }
    }
}

/// Tokens that stand for content within a line.
pub open spec fn spec_is_content(t: TokenView) -> bool {
    t is Plaintext || t is Literal || t is LinkBody || t is LinkAliasBody || t is InferredLink || t is LinkMarker
        || t is EmbedMarker || t is MacroHandle || t is InlineCode || t is InlineRawCode
        || t is InlineMath || t is InlineFormat
}

pub open spec fn spec_kind(t: TokenView) -> TokenKind {
    match t {
        TokenView::Plaintext => TokenKind::Plaintext,
        TokenView::Literal { .. } => TokenKind::Literal,
        TokenView::LinkBody { .. } => TokenKind::LinkBody,
        TokenView::LinkAliasBody { .. } => TokenKind::LinkAliasBody,
        TokenView::InferredLink { .. } => TokenKind::InferredLink,
        TokenView::LinkMarker => TokenKind::LinkMarker,
        TokenView::EmbedMarker => TokenKind::EmbedMarker,
        TokenView::MacroHandle { .. } => TokenKind::MacroHandle,
        TokenView::InlineCode { .. } => TokenKind::InlineCode,
        TokenView::InlineRawCode { .. } => TokenKind::InlineRawCode,
        TokenView::InlineMath { .. } => TokenKind::InlineMath,
        TokenView::InlineFormat { .. } => TokenKind::InlineFormat,
        TokenView::Newline => TokenKind::Newline,
        TokenView::HorizontalRule => TokenKind::HorizontalRule,
        TokenView::LineQuoteMarker => TokenKind::LineQuoteMarker,
        TokenView::BlockQuoteOpen => TokenKind::BlockQuoteOpen,
        TokenView::BlockQuoteClose => TokenKind::BlockQuoteClose,
        TokenView::MacroDecor { .. } => TokenKind::MacroDecor,
        TokenView::MacroConfig { .. } => TokenKind::MacroConfig,
        TokenView::MacroBody { .. } => TokenKind::MacroBody,
        TokenView::HeadingMarker { .. } => TokenKind::HeadingMarker,
        TokenView::CodeBlock { .. } => TokenKind::CodeBlock,
        TokenView::MathBlock { .. } => TokenKind::MathBlock,
        TokenView::ListItemMarker { .. } => TokenKind::ListItemMarker,
        TokenView::Eof => TokenKind::Eof,
    }
}

impl<'a> Token<'a> {
    /// The greatest heading depth.
    pub const HEADING_MAX: usize = 6;

    /// True for tokens that stand for content within a line.
    pub fn is_content(self) -> (b: bool)
        ensures
            b == spec_is_content(self@),
    {
        match self {
            Token::Plaintext | Token::Literal { .. } | Token::LinkBody { .. }
            | Token::LinkAliasBody { .. } | Token::InferredLink { .. } | Token::LinkMarker | Token::EmbedMarker
            | Token::MacroHandle { .. } | Token::InlineCode { .. } | Token::InlineRawCode { .. }
            | Token::InlineMath { .. } | Token::InlineFormat { .. } => true,
            _ => false,
        }
    }

    /// The variant of this token.
    pub fn kind(&self) -> (k: TokenKind)
        ensures
            k == spec_kind(self@),
    {
        match *self {
            Token::Plaintext => TokenKind::Plaintext,
            Token::Literal { .. } => TokenKind::Literal,
            Token::LinkBody { .. } => TokenKind::LinkBody,
            Token::LinkAliasBody { .. } => TokenKind::LinkAliasBody,
            Token::InferredLink { .. } => TokenKind::InferredLink,
            Token::LinkMarker => TokenKind::LinkMarker,
            Token::EmbedMarker => TokenKind::EmbedMarker,
            Token::MacroHandle { .. } => TokenKind::MacroHandle,
            Token::InlineCode { .. } => TokenKind::InlineCode,
            Token::InlineRawCode { .. } => TokenKind::InlineRawCode,
            Token::InlineMath { .. } => TokenKind::InlineMath,
            Token::InlineFormat { .. } => TokenKind::InlineFormat,
            Token::Newline => TokenKind::Newline,
            Token::HorizontalRule => TokenKind::HorizontalRule,
            Token::LineQuoteMarker => TokenKind::LineQuoteMarker,
            Token::BlockQuoteOpen => TokenKind::BlockQuoteOpen,
            Token::BlockQuoteClose => TokenKind::BlockQuoteClose,
            Token::MacroDecor { .. } => TokenKind::MacroDecor,
            Token::MacroConfig { .. } => TokenKind::MacroConfig,
            Token::MacroBody { .. } => TokenKind::MacroBody,
            Token::HeadingMarker { .. } => TokenKind::HeadingMarker,
            Token::CodeBlock { .. } => TokenKind::CodeBlock,
            Token::MathBlock { .. } => TokenKind::MathBlock,
            Token::ListItemMarker { .. } => TokenKind::ListItemMarker,
            Token::Eof => TokenKind::Eof,
        }
    }
}

/// Represents a range of meaningful content in a markup file.
///
/// The end index is exclusive.
#[derive(Debug, Clone, Copy, PartialEq, Eq)]
pub struct TokenSpan<'a> {
    pub token: Token<'a>,
    pub start: usize,
    pub end: usize,
}

pub struct SpanView {
    pub token: TokenView,
    pub start: int,
    pub end: int,
}

impl<'a> View for TokenSpan<'a> {
    type V = SpanView;

    open spec fn view(&self) -> SpanView {
        SpanView { token: self.token@, start: self.start as int, end: self.end as int }
    }
}

impl<'a> TokenSpan<'a> {
    pub fn new(token: Token<'a>, start: usize, end: usize) -> (s: TokenSpan<'a>)
        ensures
            s.token == token,
            s.start == start,
            s.end == end,
    {
        TokenSpan { token, start, end }
    }

    /// The number of bytes spanned.
    pub fn len(&self) -> (n: usize)
        requires
            self.start <= self.end,
        ensures
            n == self.end - self.start,
    {
        self.end - self.start
    }

    /// Marks this span as plaintext.
    pub fn bind_plain(&mut self)
        ensures
            final(self).token == Token::Plaintext,
            final(self).start == old(self).start,
            final(self).end == old(self).end,
    {
        self.token = Token::Plaintext;
    }
}

/// Dynamic configuration options set by the `\file` macro or by `config.mgon`.
///
/// These options can be changed at any point within a markup file by a macro.
#[derive(Debug, Clone, PartialEq, Eq)]
pub struct DynConf {
    pub latex_math: bool,
    pub code_lang: String,
}

impl DynConf {
    /// `latex_math = false`, `code_lang = "txt"`.
    pub fn default() -> (c: DynConf)
        ensures
            !c.latex_math,
            c.code_lang@ == "txt"@,
    {
        DynConf { latex_math: false, code_lang: String::from_str("txt") }
    }
}

/// Static configuration options set using compiler flags or by `config.mgon`.
///
/// These options cannot be changed from within a markup file.
#[derive(Debug, Clone, Copy, PartialEq, Eq)]
pub struct StaticConf {
    /// If true, does not recognize inline math formatting to make writing finances easier.
    pub finance_mode: bool,
    /// If true, does not perform a first pass to ensure the input is valid UTF-8.
    pub trusted_mode: bool,
    /// If true, recognizes links without having to use link syntax.
    pub infer_links: bool,
    /// If true, paragraph spacing is always 1.
    pub single_line_mode: bool,
}

impl StaticConf {
    /// `finance_mode = false`, `trusted_mode = false`, `infer_links = true`,
    /// `single_line_mode = false`.
    pub fn default() -> (c: StaticConf)
        ensures
            !c.finance_mode,
            !c.trusted_mode,
            c.infer_links,
            !c.single_line_mode,
    {
        StaticConf { finance_mode: false, trusted_mode: false, infer_links: true, single_line_mode: false }
    }
}

/// Splits a configuration override `KEY=VALUE` at its first `=`; `None` when
/// there is none.
pub fn split_override(entry: &str) -> (r: Option<(&str, &str)>)
    ensures
        r is Some <==> entry@.contains('='),
        r matches Some((k, v)) ==> (entry@ == k@ + seq!['='] + v@ && !k@.contains('=')),
{
    crate::format::split_once_char(entry, '=')
}

} // verus!
