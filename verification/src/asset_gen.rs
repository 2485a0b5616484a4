//! From the text of a Rust source file to the file record that a project
//! holds: the nodes of its syntax tree in preorder, and what the parser found
//! wrong with it.

use crate::asset::{errors_view, tree_view, Annotation, File, FileView, Node, Range, SpanView};
use ra_ap_syntax::{Edition, NodeOrToken, SourceFile, TextRange, WalkEvent};
use vstd::prelude::*;
use vstd::utf8::encode_utf8;

verus! {

/// One step of a walk over a syntax tree, which enters every node and every
/// token and leaves it again once everything below it has been visited.
#[derive(Debug)]
pub enum WalkStep {
    /// A node is entered, described by its range and the name of its kind.
    EnterNode(Node),
    /// A token is entered.
    EnterToken,
    /// A node or a token is left.
    Leave,
}

/// The model of a step.
pub enum WalkStepView {
    EnterNode(SpanView),
    EnterToken,
    Leave,
}

impl View for WalkStep {
    type V = WalkStepView;

    open spec fn view(&self) -> WalkStepView {
        match self {
            WalkStep::EnterNode(node) => WalkStepView::EnterNode(node@),
            WalkStep::EnterToken => WalkStepView::EnterToken,
            WalkStep::Leave => WalkStepView::Leave,
        }
    }
}

/// The models of the steps of a walk, in order.
pub open spec fn walk_view(walk: Seq<WalkStep>) -> Seq<WalkStepView> {
    walk.map_values(|step: WalkStep| step@)
}

/// The walk over the syntax tree that the parser builds for a text.
pub uninterp spec fn syntax_walk(content: Seq<char>) -> Seq<WalkStepView>;

/// The errors that the parser and its validation report for a text.
pub uninterp spec fn syntax_errors(content: Seq<char>) -> Seq<SpanView>;

/// The nodes that a walk enters, in the order in which it enters them:
/// the preorder of the tree.
pub open spec fn entered_nodes(walk: Seq<WalkStepView>) -> Seq<SpanView>
    decreases walk.len(),
{
    if walk.len() == 0 {
        Seq::empty()
    } else {
        match walk.last() {
            WalkStepView::EnterNode(node) => entered_nodes(walk.drop_last()).push(node),
            _ => entered_nodes(walk.drop_last()),
        }
    }
}

/// Parses `content` as a Rust source file of the current edition with
/// `SourceFile::parse`, and hands out the preorder walk over the tree, tokens
/// included (`preorder_with_tokens`), and the errors (`Parse::errors`). Each
/// entered node comes with its text range and the debug name of its kind,
/// each error with its range and its message. The parser reads nothing but
/// the text, so both are functions of the text; what they are is not stated.
/// A text of more than `u32::MAX` bytes makes the parser panic. The parser
/// descends as deep as the text nests; no bound on that depth is stated here.
#[verifier::external_body]
fn parse_source(content: &str) -> (parsed: (Vec<WalkStep>, Vec<Annotation>))
    requires
        encode_utf8(content@).len() <= u32::MAX,
    ensures
        walk_view(parsed.0@) == syntax_walk(content@),
        errors_view(parsed.1@) == syntax_errors(content@),
{
    let parse = SourceFile::parse(content, Edition::CURRENT);
    let range = |r: TextRange| Range { offset: r.start().into(), end_offset: r.end().into() };
    let walk = parse.syntax_node().preorder_with_tokens().map(|event| match event {
        WalkEvent::Enter(NodeOrToken::Node(n)) => WalkStep::EnterNode(
            Node { range: range(n.text_range()), node_type: format!("{:?}", n.kind()) },
        ),
        WalkEvent::Enter(NodeOrToken::Token(_)) => WalkStep::EnterToken,
        WalkEvent::Leave(_) => WalkStep::Leave,
    }).collect();
    let errors = parse.errors().into_iter().map(
        |e| Annotation { range: range(e.range()), text: e.to_string() },
    ).collect();
    (walk, errors)
}

/// Flattens a syntax tree: of the steps of a walk over it, keeps the nodes
/// entered, in order.
pub fn flatten_ast(walk: &Vec<WalkStep>) -> (tree: Vec<Node>)
    ensures
        tree_view(tree@) == entered_nodes(walk_view(walk@)),
{
    let ghost steps = walk_view(walk@);
    let mut tree: Vec<Node> = Vec::new();
    let mut i: usize = 0;
    assert(steps.take(0) =~= Seq::<WalkStepView>::empty());
    assert(tree_view(tree@) =~= Seq::<SpanView>::empty());
    while i < walk.len()
        invariant
            i <= walk@.len(),
            steps == walk_view(walk@),
            tree_view(tree@) == entered_nodes(steps.take(i as int)),
        decreases walk@.len() - i,
    {
        proof {
            assert(steps.take(i + 1).drop_last() =~= steps.take(i as int));
            assert(steps.take(i + 1).last() == walk@[i as int]@);
        }
        match &walk[i] {
            WalkStep::EnterNode(node) => {
                let copy = Node {
                    range: Range {
                        offset: node.range.offset,
                        end_offset: node.range.end_offset,
                    },
                    node_type: node.node_type.clone(),
                };
                assert(tree_view(tree@.push(copy)) =~= tree_view(tree@).push(node@));
                tree.push(copy);
            },
            _ => {},
        }
        i += 1;
    }
    assert(steps.take(i as int) =~= steps);
    tree
}

/// Parses a Rust source file into the record that a project holds of it:
/// path and content as given, the tree flattened in preorder, and one
/// annotation for each error of the parser.
pub fn parse_rust_to_asset_file(path: String, content: String) -> (file: File)
    requires
        encode_utf8(content@).len() <= u32::MAX,
    ensures
        file@ == (FileView {
            path: path@,
            content: content@,
            tree: entered_nodes(syntax_walk(content@)),
            errors: syntax_errors(content@),
        }),
{
    let (walk, errors) = parse_source(content.as_str());
    let tree = flatten_ast(&walk);
    File { path, content, tree, errors }
}

} // verus!
