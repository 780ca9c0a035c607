//! The nodes of the document tree.

use vstd::prelude::*;

use crate::key::Key;
use crate::math_expr::{MathExprParseResult, MathExprView};

verus! {

/// One parsed unit. Children are named by their keys, in textual order.
#[derive(Debug)]
pub enum Node {
    /// The paragraphs of a document, or nothing where splitting failed.
    ParagraphList(Option<Vec<Key>>),
    /// The units of a paragraph.
    Paragraph(Option<Vec<Key>>),
    /// A run of text, normalized.
    RawString(String),
    /// A command: its backslash and its name.
    InlineCommand(Option<String>),
    /// A math region.
    MathExpr(MathExprParseResult),
}

/// A node as a value.
pub enum NodeView {
    ParagraphList(Option<Seq<Key>>),
    Paragraph(Option<Seq<Key>>),
    RawString(Seq<char>),
    InlineCommand(Option<Seq<char>>),
    MathExpr(MathExprView),
}

impl View for Node {
    type V = NodeView;

    open spec fn view(&self) -> NodeView {
        match self {
            Node::ParagraphList(Some(keys)) => NodeView::ParagraphList(Some(keys@)),
            Node::ParagraphList(None) => NodeView::ParagraphList(None),
            Node::Paragraph(Some(keys)) => NodeView::Paragraph(Some(keys@)),
            Node::Paragraph(None) => NodeView::Paragraph(None),
            Node::RawString(text) => NodeView::RawString(text@),
            Node::InlineCommand(Some(text)) => NodeView::InlineCommand(Some(text@)),
            Node::InlineCommand(None) => NodeView::InlineCommand(None),
            Node::MathExpr(math) => NodeView::MathExpr(math@),
        }
    }
}

impl NodeView {
    /// The keys of the children: those of a paragraph list or of a
    /// paragraph that has any, and none for every other node.
    pub open spec fn children(self) -> Seq<Key> {
        match self {
            NodeView::ParagraphList(Some(keys)) => keys,
            NodeView::Paragraph(Some(keys)) => keys,
            _ => Seq::empty(),
        }
    }
}

} // verus!
