//! The syntax tree of a Python file, as a list of plain nodes.
use vstd::prelude::*;
use vstd::string::*;
use vstd::utf8::*;

verus! {

/// Why a file could not be parsed.
#[derive(Debug, Clone, Copy, PartialEq, Eq, Structural)]
pub enum ParseError {
    /// The grammar is of a version that the parser does not take.
    Language,
    /// The parser gave up.
    Tree,
    /// The text is too long for the parser, which counts its bytes in 32 bits.
    TooLong,
    /// A node does not lie in the text.
    Span,
}

/// A node as its parent sees it: what kind of node it is, and the bytes that it covers.
pub struct Part {
    pub kind: String,
    pub start: usize,
    pub end: usize,
}

/// What a [`Part`] says.
pub struct PartView {
    pub kind: Seq<char>,
    pub start: nat,
    pub end: nat,
}

/// A node of a syntax tree.
pub struct SyntaxNode {
    pub kind: String,
    /// How many nodes stand above it.
    pub depth: usize,
    /// The rows that it starts and ends in, from 0 on.
    pub start_row: usize,
    pub end_row: usize,
    /// Its child in the field `name`.
    pub name: Option<Part>,
    /// Its child in the field `function`.
    pub function: Option<Part>,
    /// The child of that child in the field `attribute`.
    pub attribute: Option<Part>,
    /// The child of that child in the field `object`.
    pub object: Option<Part>,
}

/// What a [`SyntaxNode`] says.
pub struct NodeView {
    pub kind: Seq<char>,
    pub depth: nat,
    pub start_row: nat,
    pub end_row: nat,
    pub name: Option<PartView>,
    pub function: Option<PartView>,
    pub attribute: Option<PartView>,
    pub object: Option<PartView>,
}

impl View for Part {
    type V = PartView;

    open spec fn view(&self) -> PartView {
        PartView { kind: self.kind@, start: self.start as nat, end: self.end as nat }
    }
}

pub open spec fn part_view(part: Option<Part>) -> Option<PartView> {
    match part {
        Some(part) => Some(part@),
        None => None,
    }
}

impl View for SyntaxNode {
    type V = NodeView;

    open spec fn view(&self) -> NodeView {
        NodeView {
            kind: self.kind@,
            depth: self.depth as nat,
            start_row: self.start_row as nat,
            end_row: self.end_row as nat,
            name: part_view(self.name),
            function: part_view(self.function),
            attribute: part_view(self.attribute),
            object: part_view(self.object),
        }
    }
}

/// What each node of `nodes` says.
pub open spec fn node_views(nodes: Seq<SyntaxNode>) -> Seq<NodeView> {
    nodes.map_values(|n: SyntaxNode| n@)
}

/// A syntax tree of tree-sitter.
#[verifier::external_type_specification]
#[verifier::external_body]
pub struct ExTree(tree_sitter::Tree);

/// A cursor of tree-sitter, which goes from node to node of a syntax tree.
#[verifier::external_type_specification]
#[verifier::external_body]
pub struct ExTreeCursor<'a>(tree_sitter::TreeCursor<'a>);

/// The nodes of a syntax tree, each before its children, and these in order.
pub uninterp spec fn tree_nodes(tree: tree_sitter::Tree) -> Seq<NodeView>;

/// The nodes of the syntax tree that tree-sitter's grammar of Python gives `source`, or why it
/// gives none.
pub uninterp spec fn python_nodes(source: Seq<char>) -> Result<Seq<NodeView>, ParseError>;

/// Calls `tree_sitter::Parser::parse` with the grammar `tree_sitter_python::LANGUAGE`: the tree
/// depends on the text alone. The parser counts the bytes of the text in 32 bits.
#[verifier::external_body]
fn parse_python(source: &str) -> (r: Result<tree_sitter::Tree, ParseError>)
    requires
        encode_utf8(source@).len() <= u32::MAX,
    ensures
        match r {
            Ok(tree) => python_nodes(source@) == Ok::<Seq<NodeView>, ParseError>(tree_nodes(tree)),
            Err(e) => python_nodes(source@) == Err::<Seq<NodeView>, ParseError>(e),
        },
{
    let mut parser = tree_sitter::Parser::new();
    parser.set_language(&tree_sitter_python::LANGUAGE.into()).map_err(|_| ParseError::Language)?;
    parser.parse(source, None).ok_or(ParseError::Tree)
}

/// Calls `tree_sitter::Node::descendant_count` on the root: the number of nodes in the tree.
#[verifier::external_body]
fn node_count(tree: &tree_sitter::Tree) -> (r: usize)
    ensures
        r == tree_nodes(*tree).len(),
{
    tree.root_node().descendant_count()
}

/// The nodes of the syntax tree that a cursor was made for, each before its children.
pub uninterp spec fn cursor_nodes(cursor: tree_sitter::TreeCursor) -> Seq<NodeView>;

/// Calls `tree_sitter::Tree::walk`: a cursor for all nodes of the tree.
#[verifier::external_body]
fn walk(tree: &tree_sitter::Tree) -> (r: tree_sitter::TreeCursor)
    ensures
        cursor_nodes(r) == tree_nodes(*tree),
{
    tree.walk()
}

/// Goes to node number `i` with `tree_sitter::TreeCursor::goto_descendant`, which counts from
/// the node that the cursor was made for, wherever it stands; and copies what the cursor and the
/// node say of it: its kind, its depth, its rows, and the children that
/// `tree_sitter::Node::child_by_field_name` finds.
#[verifier::external_body]
fn node_at(cursor: &mut tree_sitter::TreeCursor, i: usize) -> (r: SyntaxNode)
    requires
        i < cursor_nodes(*old(cursor)).len(),
    ensures
        r@ == cursor_nodes(*old(cursor))[i as int],
        cursor_nodes(*final(cursor)) == cursor_nodes(*old(cursor)),
{
    cursor.goto_descendant(i);
    let node = cursor.node();
    let function = node.child_by_field_name("function");
    let part = |n: tree_sitter::Node| Part { kind: n.kind().to_string(), start: n.start_byte(), end: n.end_byte() };
    SyntaxNode {
        kind: node.kind().to_string(),
        depth: cursor.depth() as usize,
        start_row: node.start_position().row,
        end_row: node.end_position().row,
        name: node.child_by_field_name("name").map(part),
        function: function.map(part),
        attribute: function.and_then(|f| f.child_by_field_name("attribute")).map(part),
        object: function.and_then(|f| f.child_by_field_name("object")).map(part),
    }
}

/// The nodes of the syntax tree of `source`.
pub fn syntax_nodes(source: &str) -> (r: Result<Vec<SyntaxNode>, ParseError>)
    ensures
        encode_utf8(source@).len() > u32::MAX ==> r == Err::<Vec<SyntaxNode>, ParseError>(
            ParseError::TooLong,
        ),
        encode_utf8(source@).len() <= u32::MAX ==> match r {
            Ok(nodes) => python_nodes(source@) == Ok::<Seq<NodeView>, ParseError>(
                node_views(nodes@),
            ),
            Err(e) => python_nodes(source@) == Err::<Seq<NodeView>, ParseError>(e),
        },
{
    if source.as_bytes().len() > u32::MAX as usize {
        return Err(ParseError::TooLong);
    }
    let tree = match parse_python(source) {
        Ok(tree) => tree,
        Err(e) => return Err(e),
    };
    let total = node_count(&tree);
    let mut cursor = walk(&tree);
    let ghost all = tree_nodes(tree);
    let mut nodes: Vec<SyntaxNode> = Vec::new();
    let mut i: usize = 0;
    while i < total
        invariant
            i <= total == all.len(),
            all == cursor_nodes(cursor),
            node_views(nodes@) == all.take(i as int),
        decreases total - i,
    {
        let ghost before = nodes@;
        nodes.push(node_at(&mut cursor, i));
        i += 1;
        assert(node_views(nodes@) =~= node_views(before).push(all[i - 1]));
        assert(all.take(i as int) =~= all.take(i - 1).push(all[i - 1]));
    }
    assert(all.take(i as int) =~= all);
    Ok(nodes)
}

/// `part` covers whole characters of `source`.
pub open spec fn lies_in(part: PartView, source: Seq<char>) -> bool {
    let bytes = encode_utf8(source);
    &&& part.start <= part.end <= bytes.len()
    &&& is_char_boundary(bytes, part.start as int)
    &&& is_char_boundary(bytes, part.end as int)
}

/// The text that `part` covers.
pub open spec fn text_of(part: PartView, source: Seq<char>) -> Seq<char> {
    decode_utf8(encode_utf8(source).subrange(part.start as int, part.end as int))
}

/// A boundary between characters stays one when what comes before another one is cut off.
pub proof fn lemma_boundary_in_rest(bytes: Seq<u8>, start: int, end: int)
    requires
        valid_utf8(bytes),
        0 <= start <= end <= bytes.len(),
        is_char_boundary(bytes, start),
        is_char_boundary(bytes, end),
    ensures
        valid_utf8(bytes.subrange(start, bytes.len() as int)),
        is_char_boundary(bytes.subrange(start, bytes.len() as int), end - start),
{
    valid_utf8_split(bytes, start);
    let rest = bytes.subrange(start, bytes.len() as int);
    if end < bytes.len() {
        is_char_boundary_iff_not_is_continuation_byte(bytes, end);
        is_char_boundary_iff_not_is_continuation_byte(rest, end - start);
        assert(rest[end - start] == bytes[end]);
    } else {
        is_char_boundary_start_end_of_seq(rest);
    }
}

/// Whether `part` covers whole characters of `source`.
fn check_part(part: &Part, source: &str) -> (r: bool)
    ensures
        r == lies_in(part@, source@),
{
    part.start <= part.end && part.end <= source.as_bytes().len() && source.is_char_boundary(
        part.start,
    ) && source.is_char_boundary(part.end)
}

/// `part`, where there is one, covers whole characters of `source`.
pub open spec fn may_lie_in(part: Option<PartView>, source: Seq<char>) -> bool {
    part matches Some(part) ==> lies_in(part, source)
}

/// All that `node` names lies in `source`, and its rows can be counted from 1 on.
pub open spec fn node_lies_in(node: NodeView, source: Seq<char>) -> bool {
    &&& node.start_row < usize::MAX
    &&& node.end_row < usize::MAX
    &&& may_lie_in(node.name, source)
    &&& may_lie_in(node.function, source)
    &&& may_lie_in(node.attribute, source)
    &&& may_lie_in(node.object, source)
}

/// All that `nodes` name lies in `source`.
pub open spec fn all_lie_in(nodes: Seq<NodeView>, source: Seq<char>) -> bool {
    forall|i: int| 0 <= i < nodes.len() ==> node_lies_in(#[trigger] nodes[i], source)
}

fn check_optional(part: &Option<Part>, source: &str) -> (r: bool)
    ensures
        r == may_lie_in(part_view(*part), source@),
{
    match part {
        Some(part) => check_part(part, source),
        None => true,
    }
}

/// Whether all that `nodes` name lies in `source`.
pub fn check_nodes(nodes: &Vec<SyntaxNode>, source: &str) -> (r: bool)
    ensures
        r == all_lie_in(node_views(nodes@), source@),
{
    let mut i: usize = 0;
    while i < nodes.len()
        invariant
            i <= nodes@.len(),
            forall|k: int|
                0 <= k < i ==> node_lies_in(#[trigger] node_views(nodes@)[k], source@),
        decreases nodes@.len() - i,
    {
        let node = &nodes[i];
        assert(node_views(nodes@)[i as int] == node@);
        if !(node.start_row < usize::MAX && node.end_row < usize::MAX && check_optional(
            &node.name,
            source,
        ) && check_optional(&node.function, source) && check_optional(&node.attribute, source)
            && check_optional(&node.object, source)) {
            return false;
        }
        i += 1;
    }
    true
}

/// The text that `part` covers.
pub fn part_text(part: &Part, source: &str) -> (r: String)
    requires
        lies_in(part@, source@),
    ensures
        r@ == text_of(part@, source@),
{
    let ghost bytes = encode_utf8(source@);
    proof {
        encode_utf8_valid_utf8(source@);
        lemma_boundary_in_rest(bytes, part.start as int, part.end as int);
    }
    let (_, rest) = source.split_at(part.start);
    let (text, _) = rest.split_at(part.end - part.start);
    proof {
        let cut = bytes.subrange(part.start as int, part.end as int);
        assert(text.spec_bytes() =~= cut);
        encode_utf8_decode_utf8(text@);
    }
    text.to_owned()
}

} // verus!
