//! The data that a container holds: source files, the flattened syntax tree of
//! each, and the annotations attached to ranges of their text.

use vstd::prelude::*;

verus! {

/// A half-open interval `[offset, end_offset)` of bytes of a file's text.
#[derive(Debug, Clone, PartialEq, Eq)]
pub struct Range {
    /// The first byte of the interval.
    pub offset: usize,
    /// The byte after the last one of the interval.
    pub end_offset: usize,
}

/// One node of a syntax tree that was flattened in preorder.
#[derive(Debug, Clone, PartialEq, Eq)]
pub struct Node {
    /// The text that the node covers.
    pub range: Range,
    /// The name of the grammatical construct.
    pub node_type: String,
}

/// A message, such as a parse error, attached to a range of a file.
#[derive(Debug, Clone, PartialEq, Eq)]
pub struct Annotation {
    /// The text that the message is about.
    pub range: Range,
    /// The message.
    pub text: String,
}

/// A source file with what a parser made of it.
#[derive(Debug, Clone, PartialEq, Eq)]
pub struct File {
    /// Where the file was found.
    pub path: String,
    /// The file's whole text.
    pub content: String,
    /// The nodes of the syntax tree in preorder; empty where there is no tree.
    pub tree: Vec<Node>,
    /// The problems found in the file.
    pub errors: Vec<Annotation>,
}

/// An ordered collection of files.
#[derive(Debug, Clone, PartialEq, Eq)]
pub struct Project {
    /// The files, in the order in which they are encoded.
    pub files: Vec<File>,
}

/// A range as a pair of natural numbers.
pub struct RangeView {
    pub offset: nat,
    pub end_offset: nat,
}

/// A range with the string that goes with it: the model of a node, whose
/// string names its type, and of an annotation, whose string is its message.
pub struct SpanView {
    pub range: RangeView,
    pub text: Seq<char>,
}

/// The model of a file.
#[verifier::ext_equal]
pub struct FileView {
    pub path: Seq<char>,
    pub content: Seq<char>,
    pub tree: Seq<SpanView>,
    pub errors: Seq<SpanView>,
}

/// The model of a project.
#[verifier::ext_equal]
pub struct ProjectView {
    pub files: Seq<FileView>,
}

impl View for Range {
    type V = RangeView;

    open spec fn view(&self) -> RangeView {
        RangeView { offset: self.offset as nat, end_offset: self.end_offset as nat }
    }
}

impl View for Node {
    type V = SpanView;

    open spec fn view(&self) -> SpanView {
        SpanView { range: self.range@, text: self.node_type@ }
    }
}

impl View for Annotation {
    type V = SpanView;

    open spec fn view(&self) -> SpanView {
        SpanView { range: self.range@, text: self.text@ }
    }
}

/// The models of a file's nodes, in order.
pub open spec fn tree_view(tree: Seq<Node>) -> Seq<SpanView> {
    tree.map_values(|n: Node| n@)
}

/// The models of a file's annotations, in order.
pub open spec fn errors_view(errors: Seq<Annotation>) -> Seq<SpanView> {
    errors.map_values(|a: Annotation| a@)
}

/// The models of a project's files, in order.
pub open spec fn files_view(files: Seq<File>) -> Seq<FileView> {
    files.map_values(|f: File| f@)
}

impl View for File {
    type V = FileView;

    open spec fn view(&self) -> FileView {
        FileView {
            path: self.path@,
            content: self.content@,
            tree: tree_view(self.tree@),
            errors: errors_view(self.errors@),
        }
    }
}

impl View for Project {
    type V = ProjectView;

    open spec fn view(&self) -> ProjectView {
        ProjectView { files: files_view(self.files@) }
    }
}

} // verus!
