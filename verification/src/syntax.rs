//! The syntax tree as a table.
//!
//! The caller parses the source and hands the tree over as one row per node,
//! in document order. A row holds what the inference reads of a node: its
//! kind, how deep it lies, the byte range and the text of the node without
//! surrounding blanks and comments, and the groups that its kind belongs to.
//! The shape of the tree is read off the depths: the nodes below a row are
//! the rows that follow it for as long as they lie deeper.
//!
//! The rows are made for the trees of `rslint_parser`: one row for every node
//! of `SyntaxNode::descendants`, with its `kind`, the number of its
//! `ancestors`, its `trimmed_range` and `trimmed_text`, the kind of its
//! `first_lossy_token`, and what `can_cast` of `Expr`, `Pattern`, `TsType`
//! and `PropName` says of the kind.

use vstd::prelude::*;

verus! {

/// One node of the syntax tree.
pub struct SyntaxRow {
    /// The number of the node's kind in the parser's list of kinds.
    pub kind: u16,
    /// How many nodes lie on the way from the root to this node, both counted.
    pub depth: usize,
    /// Where the node's first token starts that is neither blank nor comment.
    pub start: usize,
    /// Where the node's last such token ends.
    pub end: usize,
    /// The source between `start` and `end`.
    pub text: String,
    /// The kind of the first token directly below the node that is neither
    /// blank nor comment, where there is one.
    pub token: Option<u16>,
    /// Whether the node is an expression.
    pub is_expr: bool,
    /// Whether the node is a binding pattern.
    pub is_pattern: bool,
    /// Whether the node is a type.
    pub is_type: bool,
    /// Whether the node can name a property: a name, a literal or a computed
    /// name.
    pub is_property_name: bool,
}

// The kinds that the inference tells apart, by their numbers in the parser's
// list of kinds: tokens first, then nodes.

pub const FALSE_KW: u16 = 75;

pub const NULL_KW: u16 = 86;

pub const TRUE_KW: u16 = 97;

pub const NUMBER: u16 = 122;

pub const STRING: u16 = 123;

pub const REGEX: u16 = 124;

pub const DECLARATOR: u16 = 139;

pub const EXPR_STMT: u16 = 141;

pub const CATCH_CLAUSE: u16 = 157;

pub const FN_DECL: u16 = 160;

pub const NAME: u16 = 161;

pub const NAME_REF: u16 = 162;

pub const PARAMETER_LIST: u16 = 163;

pub const THIS_EXPR: u16 = 164;

pub const ARRAY_EXPR: u16 = 165;

pub const OBJECT_EXPR: u16 = 166;

pub const FN_EXPR: u16 = 172;

pub const DOT_EXPR: u16 = 174;

pub const CALL_EXPR: u16 = 175;

pub const ASSIGN_EXPR: u16 = 179;

pub const ARG_LIST: u16 = 181;

pub const LITERAL: u16 = 182;

pub const SPREAD_ELEMENT: u16 = 186;

pub const OBJECT_PATTERN: u16 = 194;

pub const ASSIGN_PATTERN: u16 = 196;

pub const REST_PATTERN: u16 = 197;

pub const KEY_VALUE_PATTERN: u16 = 198;

pub const SINGLE_PATTERN: u16 = 201;

pub const ARROW_EXPR: u16 = 202;

pub const CLASS_DECL: u16 = 204;

pub const METHOD: u16 = 207;

pub const FOR_STMT_INIT: u16 = 220;

pub const CONSTRUCTOR: u16 = 224;

pub const TS_TYPE_ARGS: u16 = 258;

/// What is asked of a child node.
#[derive(Clone, Copy)]
pub enum Want {
    /// A node of this kind.
    Kind(u16),
    /// An expression.
    Expr,
    /// A binding pattern.
    Pattern,
    /// A type.
    Type,
    /// A node that can name a property.
    PropertyName,
    /// Any node.
    Any,
}

/// Whether a row is what `want` asks for.
pub open spec fn wanted(row: SyntaxRow, want: Want) -> bool {
    match want {
        Want::Kind(kind) => row.kind == kind,
        Want::Expr => row.is_expr,
        Want::Pattern => row.is_pattern,
        Want::Type => row.is_type,
        Want::PropertyName => row.is_property_name,
        Want::Any => true,
    }
}

/// The first row at or behind `at` that does not lie deeper than `depth`, or
/// the number of rows.
pub open spec fn scan_end(rows: Seq<SyntaxRow>, depth: usize, at: int) -> int
    decreases rows.len() - at,
{
    if at < 0 || at >= rows.len() {
        rows.len() as int
    } else if rows[at].depth <= depth {
        at
    } else {
        scan_end(rows, depth, at + 1)
    }
}

/// The row behind the last node below `node`.
pub open spec fn subtree_end(rows: Seq<SyntaxRow>, node: int) -> int {
    scan_end(rows, rows[node].depth, node + 1)
}

/// The nearest row at or before `at` that lies less deep than `depth`.
pub open spec fn scan_parent(rows: Seq<SyntaxRow>, depth: usize, at: int) -> Option<int>
    decreases at + 1,
{
    if at < 0 || at >= rows.len() {
        None
    } else if rows[at].depth < depth {
        Some(at)
    } else {
        scan_parent(rows, depth, at - 1)
    }
}

/// The node directly above `node`.
pub open spec fn parent_of(rows: Seq<SyntaxRow>, node: int) -> Option<int> {
    scan_parent(rows, rows[node].depth, node - 1)
}

/// The first wanted node at or behind `at` that lies directly below a node of
/// depth `depth` whose subtree reaches to `at`.
pub open spec fn next_child(rows: Seq<SyntaxRow>, depth: usize, at: int, want: Want) -> Option<int>
    decreases rows.len() - at,
{
    if at < 0 || at >= rows.len() || rows[at].depth <= depth {
        None
    } else if rows[at].depth == depth + 1 && wanted(rows[at], want) {
        Some(at)
    } else {
        next_child(rows, depth, at + 1, want)
    }
}

/// The first wanted node directly below `node`.
pub open spec fn first_child(rows: Seq<SyntaxRow>, node: int, want: Want) -> Option<int> {
    next_child(rows, rows[node].depth, node + 1, want)
}

/// The node that follows `node` directly below the same parent.
pub open spec fn next_sibling(rows: Seq<SyntaxRow>, node: int) -> Option<int> {
    let end = subtree_end(rows, node);
    if end < rows.len() && rows[end].depth == rows[node].depth {
        Some(end)
    } else {
        None
    }
}

/// A child lies behind the place from which it was looked for, directly
/// below the node, and is what was asked for.
pub proof fn lemma_next_child(rows: Seq<SyntaxRow>, depth: usize, at: int, want: Want)
    ensures
        next_child(rows, depth, at, want) matches Some(child) ==> 0 <= at <= child < rows.len()
            && rows[child].depth == depth + 1 && wanted(rows[child], want),
    decreases rows.len() - at,
{
    if at < 0 || at >= rows.len() || rows[at].depth <= depth {
    } else if rows[at].depth == depth + 1 && wanted(rows[at], want) {
    } else {
        lemma_next_child(rows, depth, at + 1, want);
    }
}

/// Finds the row behind the subtree of `node`.
pub fn find_subtree_end(rows: &Vec<SyntaxRow>, node: usize) -> (end: usize)
    requires
        node < rows.len(),
    ensures
        end == subtree_end(rows@, node as int),
        node < end <= rows.len(),
{
    let depth = rows[node].depth;
    let mut at: usize = node + 1;
    while at < rows.len() && rows[at].depth > depth
        invariant
            node < at <= rows.len(),
            scan_end(rows@, depth, at as int) == scan_end(rows@, depth, node + 1),
        decreases rows.len() - at,
    {
        at += 1;
    }
    at
}

/// Finds the node directly above `node`.
pub fn find_parent(rows: &Vec<SyntaxRow>, node: usize) -> (parent: Option<usize>)
    requires
        node < rows.len(),
    ensures
        parent.is_some() == parent_of(rows@, node as int).is_some(),
        parent matches Some(p) ==> parent_of(rows@, node as int) == Some(p as int) && p < node,
{
    let depth = rows[node].depth;
    let mut at: usize = node;
    while at > 0
        invariant
            at <= node,
            node < rows.len(),
            depth == rows[node as int].depth,
            scan_parent(rows@, depth, at - 1) == scan_parent(rows@, depth, node - 1),
        decreases at,
    {
        if rows[at - 1].depth < depth {
            return Some(at - 1);
        }
        at -= 1;
    }
    None
}

/// Whether `row` is what `want` asks for.
pub fn is_wanted(row: &SyntaxRow, want: Want) -> (yes: bool)
    ensures
        yes == wanted(*row, want),
{
    match want {
        Want::Kind(kind) => row.kind == kind,
        Want::Expr => row.is_expr,
        Want::Pattern => row.is_pattern,
        Want::Type => row.is_type,
        Want::PropertyName => row.is_property_name,
        Want::Any => true,
    }
}

/// Finds the first wanted child at or behind `from` of a node of depth
/// `depth`.
pub fn find_next_child(rows: &Vec<SyntaxRow>, depth: usize, from: usize, want: Want) -> (child:
    Option<usize>)
    ensures
        child.is_some() == next_child(rows@, depth, from as int, want).is_some(),
        child matches Some(c) ==> next_child(rows@, depth, from as int, want) == Some(c as int)
            && from <= c < rows.len() && rows[c as int].depth == depth + 1 && wanted(
            rows[c as int],
            want,
        ),
{
    let mut at: usize = from;
    while at < rows.len() && rows[at].depth > depth
        invariant
            from <= at,
            next_child(rows@, depth, at as int, want) == next_child(rows@, depth, from as int, want),
        decreases rows.len() - at,
    {
        if rows[at].depth - 1 == depth && is_wanted(&rows[at], want) {
            return Some(at);
        }
        at += 1;
    }
    None
}

/// Finds the first wanted child of `node`.
pub fn find_first_child(rows: &Vec<SyntaxRow>, node: usize, want: Want) -> (child: Option<usize>)
    requires
        node < rows.len(),
    ensures
        child.is_some() == first_child(rows@, node as int, want).is_some(),
        child matches Some(c) ==> first_child(rows@, node as int, want) == Some(c as int) && node
            < c < rows.len() && wanted(rows[c as int], want),
{
    find_next_child(rows, rows[node].depth, node + 1, want)
}

/// Finds the node that follows `node` below the same parent.
pub fn find_next_sibling(rows: &Vec<SyntaxRow>, node: usize) -> (sibling: Option<usize>)
    requires
        node < rows.len(),
    ensures
        sibling.is_some() == next_sibling(rows@, node as int).is_some(),
        sibling matches Some(s) ==> next_sibling(rows@, node as int) == Some(s as int) && node
            < s < rows.len(),
{
    let end = find_subtree_end(rows, node);
    if end < rows.len() && rows[end].depth == rows[node].depth {
        Some(end)
    } else {
        None
    }
}

} // verus!
