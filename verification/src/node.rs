//! Declarations: the nodes of the tree that the parser builds.

use vstd::prelude::*;

verus! {

/// What a declaration declares.
#[derive(Clone, Copy, Debug, PartialEq, Eq, Structural)]
pub enum DeclKind {
    /// A structured type with named fields.
    StructuredType,
    /// An enumeration with bare variants.
    Enumeration,
    /// A contract: a named set of required function signatures.
    Contract,
    /// A block of functions for a type, possibly implementing a contract.
    Implementation,
    /// A function.
    Function,
    /// A namespace that holds further declarations.
    Namespace,
    /// A function tagged `test`.
    TestCase,
    /// An import; present only where the options ask for imports to be kept.
    Import,
}

#[derive(Clone, Copy, Debug, PartialEq, Eq, Structural)]
pub enum Visibility {
    Public,
    Private,
}

/// A field, a variant or a parameter: its name and, where it has one, its type
/// annotation: the tokens of the type, joined. A variant has the empty
/// annotation; the receiver of a method has the name `self` and is annotated
/// with itself (`&mut self`).
#[derive(Debug, PartialEq, Eq)]
pub struct Descriptor {
    pub name: String,
    pub annotation: String,
}

/// A [`Descriptor`] as plain values.
pub struct DescriptorView {
    pub name: Seq<char>,
    pub annotation: Seq<char>,
}

impl View for Descriptor {
    type V = DescriptorView;

    open spec fn view(&self) -> DescriptorView {
        DescriptorView { name: self.name@, annotation: self.annotation@ }
    }
}

/// One declaration with the declarations nested in it.
#[derive(Debug, PartialEq, Eq)]
pub struct DeclarationNode {
    pub kind: DeclKind,
    /// The declared name; for an implementation the type's name, for an import its path.
    pub name: String,
    pub visibility: Visibility,
    /// The contents of the attributes written before the declaration, each with
    /// its tokens joined, in the order of the text.
    pub tags: Vec<String>,
    /// Fields of a structured type, variants of an enumeration, parameters of a function.
    pub members: Vec<Descriptor>,
    /// The return annotation of a function that has one.
    pub return_annotation: Option<String>,
    /// The contract that an implementation implements, if it names one.
    pub contract: Option<String>,
    /// The nested declarations, in the order of the text.
    pub children: Vec<DeclarationNode>,
}

/// A [`DeclarationNode`] as plain values.
pub struct Declaration {
    pub kind: DeclKind,
    pub name: Seq<char>,
    pub visibility: Visibility,
    pub tags: Seq<Seq<char>>,
    pub members: Seq<DescriptorView>,
    pub return_annotation: Option<Seq<char>>,
    pub contract: Option<Seq<char>>,
    pub children: Seq<Declaration>,
}

pub open spec fn strings_view(strings: Seq<String>) -> Seq<Seq<char>> {
    strings.map_values(|s: String| s@)
}

pub open spec fn descriptors_view(descriptors: Seq<Descriptor>) -> Seq<DescriptorView> {
    descriptors.map_values(|d: Descriptor| d@)
}

pub open spec fn option_view(text: Option<String>) -> Option<Seq<char>> {
    match text {
        Some(s) => Some(s@),
        None => None,
    }
}

/// The plain value of a node.
pub open spec fn node_view(node: DeclarationNode) -> Declaration
    decreases node,
{
    Declaration {
        kind: node.kind,
        name: node.name@,
        visibility: node.visibility,
        tags: strings_view(node.tags@),
        members: descriptors_view(node.members@),
        return_annotation: option_view(node.return_annotation),
        contract: option_view(node.contract),
        children: forest_view(node.children@),
    }
}

/// The plain values of a sequence of nodes.
pub open spec fn forest_view(nodes: Seq<DeclarationNode>) -> Seq<Declaration>
    decreases nodes,
{
    if nodes.len() == 0 {
        Seq::empty()
    } else {
        forest_view(nodes.drop_last()).push(node_view(nodes.last()))
    }
}

impl View for DeclarationNode {
    type V = Declaration;

    open spec fn view(&self) -> Declaration {
        node_view(*self)
    }
}

/// The number of declarations in a tree: the node and all below it.
pub open spec fn tree_size(tree: Declaration) -> nat
    decreases tree,
{
    1 + forest_size(tree.children)
}

/// The number of declarations in a sequence of trees.
pub open spec fn forest_size(forest: Seq<Declaration>) -> nat
    decreases forest,
{
    if forest.len() == 0 {
        0
    } else {
        forest_size(forest.drop_last()) + tree_size(forest.last())
    }
}

/// Every declaration of the tree has a name.
pub open spec fn tree_named(tree: Declaration) -> bool
    decreases tree,
{
    tree.name.len() > 0 && forest_named(tree.children)
}

/// Every declaration of the forest has a name.
pub open spec fn forest_named(forest: Seq<Declaration>) -> bool
    decreases forest,
{
    forest.len() == 0 || (forest_named(forest.drop_last()) && tree_named(forest.last()))
}

pub proof fn lemma_forest_view_push(nodes: Seq<DeclarationNode>, node: DeclarationNode)
    ensures
        forest_view(nodes.push(node)) == forest_view(nodes).push(node_view(node)),
{
    assert(nodes.push(node).drop_last() =~= nodes);
}

pub proof fn lemma_forest_view_len(nodes: Seq<DeclarationNode>)
    ensures
        forest_view(nodes).len() == nodes.len(),
        forall|i: int| 0 <= i < nodes.len() ==> forest_view(nodes)[i] == node_view(#[trigger] nodes[i]),
    decreases nodes.len(),
{
    if nodes.len() > 0 {
        lemma_forest_view_len(nodes.drop_last());
        assert forall|i: int| 0 <= i < nodes.len() implies forest_view(nodes)[i] == node_view(
            #[trigger] nodes[i],
        ) by {
            if i < nodes.len() - 1 {
                assert(nodes.drop_last()[i] == nodes[i]);
            }
        }
    }
}

impl DeclarationNode {
    /// Whether `tag` is among the tags of the node.
    pub fn has_tag(&self, tag: &str) -> (yes: bool)
        ensures
            yes == self@.tags.contains(tag@),
    {
        holds_tag(&self.tags, tag)
    }
}

/// Whether `tag` is among `tags`.
pub fn holds_tag(tags: &Vec<String>, tag: &str) -> (yes: bool)
    ensures
        yes == strings_view(tags@).contains(tag@),
{
    let wanted = tag.to_owned();
    let mut i: usize = 0;
    while i < tags.len()
        invariant
            i <= tags@.len(),
            wanted@ == tag@,
            forall|j: int| 0 <= j < i ==> strings_view(tags@)[j] != tag@,
        decreases tags@.len() - i,
    {
        if tags[i] == wanted {
            assert(strings_view(tags@)[i as int] == tag@);
            return true;
        }
        i += 1;
    }
    false
}

} // verus!
