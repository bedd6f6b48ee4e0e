//! The type of an expression, as far as its own shape tells it.
//!
//! Literals have the type of their kind, an array literal the type of its
//! elements where they agree, an assignment the type of its right-hand side
//! and a call stands for a function. Everything else is left unresolved, and
//! the caller falls back to `any`.

use crate::syntax::{
    find_first_child, find_next_child, first_child, next_child, SyntaxRow, Want, ARRAY_EXPR,
    ASSIGN_EXPR, CALL_EXPR, FALSE_KW, LITERAL, NAME_REF, NULL_KW, NUMBER, OBJECT_EXPR, REGEX,
    STRING, TRUE_KW,
};
use vstd::prelude::*;
use vstd::string::*;
use vstd::utf8::*;

verus! {

/// Whether a text ends in the letter `n`, as big integer literals do.
pub open spec fn ends_with_n(text: Seq<char>) -> bool {
    let bytes = encode_utf8(text);
    bytes.len() > 0 && bytes.last() == 110u8
}

/// The type of a literal, by the kind of its token.
pub open spec fn literal_type(row: SyntaxRow) -> Option<Seq<char>> {
    if row.token == Some(NUMBER) {
        if ends_with_n(row.text@) {
            Some("BigInt"@)
        } else {
            Some("number"@)
        }
    } else if row.token == Some(STRING) {
        Some("string"@)
    } else if row.token == Some(NULL_KW) {
        Some("any"@)
    } else if row.token == Some(TRUE_KW) || row.token == Some(FALSE_KW) {
        Some("boolean"@)
    } else if row.token == Some(REGEX) {
        Some("RegExp"@)
    } else {
        None
    }
}

/// What the elements of an array literal seen so far say of its type.
pub enum Agreement {
    /// No element was seen.
    Nothing,
    /// Every element seen has this type.
    All(String),
    /// Two elements differ, or one has no type of its own.
    Mixed,
}

/// An [`Agreement`] over texts.
pub ghost enum Agreed {
    Nothing,
    All(Seq<char>),
    Mixed,
}

impl View for Agreement {
    type V = Agreed;

    open spec fn view(&self) -> Agreed {
        match self {
            Agreement::Nothing => Agreed::Nothing,
            Agreement::All(name) => Agreed::All(name@),
            Agreement::Mixed => Agreed::Mixed,
        }
    }
}

/// The agreement after one more element, whose type is `element`.
pub open spec fn agree(so_far: Agreed, element: Option<Seq<char>>) -> Agreed {
    match (so_far, element) {
        (Agreed::Mixed, _) => Agreed::Mixed,
        (_, None) => Agreed::Mixed,
        (Agreed::Nothing, Some(name)) => Agreed::All(name),
        (Agreed::All(seen), Some(name)) => if seen == name {
            Agreed::All(seen)
        } else {
            Agreed::Mixed
        },
    }
}

/// The second node directly below `node`, where it is an expression: the
/// right-hand side of an assignment.
pub open spec fn right_hand_side(rows: Seq<SyntaxRow>, node: int) -> Option<int> {
    match first_child(rows, node, Want::Any) {
        None => None,
        Some(left) => match next_child(rows, rows[node].depth, left + 1, Want::Any) {
            None => None,
            Some(right) => if rows[right].is_expr {
                Some(right)
            } else {
                None
            },
        },
    }
}

/// The type of the expression at `node`, or nothing where its shape does not
/// tell.
pub open spec fn type_of_node(rows: Seq<SyntaxRow>, node: int) -> Option<Seq<char>>
    decreases rows.len() - node, 0nat,
{
    if node < 0 || node >= rows.len() {
        None
    } else if rows[node].kind == ARRAY_EXPR {
        match elements_agreement(rows, rows[node].depth, node + 1, Agreed::Nothing) {
            Agreed::All(name) => Some(name + "[]"@),
            _ => Some("any[]"@),
        }
    } else if rows[node].kind == LITERAL {
        literal_type(rows[node])
    } else if rows[node].kind == OBJECT_EXPR {
        Some("any"@)
    } else if rows[node].kind == NAME_REF && rows[node].text@ == "undefined"@ {
        Some("any"@)
    } else if rows[node].kind == ASSIGN_EXPR {
        match right_hand_side(rows, node) {
            Some(right) => if node < right < rows.len() {
                type_of_node(rows, right)
            } else {
                None
            },
            None => Some("any"@),
        }
    } else if rows[node].kind == CALL_EXPR {
        match first_child(rows, node, Want::Expr) {
            None => None,
            Some(callee) => if rows[callee].text@ == "BigInt"@ {
                Some("BigInt"@)
            } else {
                Some("Function"@)
            },
        }
    } else {
        None
    }
}

/// What the expressions directly below an array literal of depth `depth`, from
/// row `at` on, add to the agreement `so_far`.
pub open spec fn elements_agreement(
    rows: Seq<SyntaxRow>,
    depth: usize,
    at: int,
    so_far: Agreed,
) -> Agreed
    decreases rows.len() - at, 1nat,
{
    match next_child(rows, depth, at, Want::Expr) {
        None => so_far,
        Some(element) => if element < at || element >= rows.len() {
            so_far
        } else {
            elements_agreement(
                rows,
                depth,
                element + 1,
                agree(so_far, type_of_node(rows, element)),
            )
        },
    }
}

/// The types of the expressions directly below an array literal of depth
/// `depth`, from row `at` on, in order.
pub open spec fn element_types(rows: Seq<SyntaxRow>, depth: usize, at: int) -> Seq<
    Option<Seq<char>>,
>
    decreases rows.len() - at,
{
    match next_child(rows, depth, at, Want::Expr) {
        None => Seq::empty(),
        Some(element) => if element < at || element >= rows.len() {
            Seq::empty()
        } else {
            seq![type_of_node(rows, element)] + element_types(rows, depth, element + 1)
        },
    }
}

/// Whether there is an element, the first has a type, and all have the same.
pub open spec fn uniform(types: Seq<Option<Seq<char>>>) -> bool {
    &&& types.len() > 0
    &&& types[0] is Some
    &&& forall|i: int| 0 <= i < types.len() ==> #[trigger] types[i] == types[0]
}

/// What the agreement is after a run of elements, said in one piece.
pub proof fn lemma_elements_agreement(rows: Seq<SyntaxRow>, depth: usize, at: int, so_far: Agreed)
    ensures
        ({
            let types = element_types(rows, depth, at);
            let after = elements_agreement(rows, depth, at, so_far);
            match so_far {
                Agreed::Mixed => after == Agreed::Mixed,
                Agreed::All(seen) => if forall|i: int|
                    0 <= i < types.len() ==> #[trigger] types[i] == Some(seen) {
                    after == Agreed::All(seen)
                } else {
                    after == Agreed::Mixed
                },
                Agreed::Nothing => if types.len() == 0 {
                    after == Agreed::Nothing
                } else if uniform(types) {
                    after == Agreed::All(types[0]->0)
                } else {
                    after == Agreed::Mixed
                },
            }
        }),
    decreases rows.len() - at,
{
    let types = element_types(rows, depth, at);
    match next_child(rows, depth, at, Want::Expr) {
        None => {},
        Some(element) => if element < at || element >= rows.len() {
        } else {
            let first = type_of_node(rows, element);
            let rest = element_types(rows, depth, element + 1);
            let next = agree(so_far, first);
            lemma_elements_agreement(rows, depth, element + 1, next);
            assert(types == seq![first] + rest);
            assert(types[0] == first);
            assert forall|i: int| 0 <= i < rest.len() implies #[trigger] rest[i] == types[i + 1] by {}
            match so_far {
                Agreed::Mixed => {},
                Agreed::All(seen) => {
                    if first == Some(seen) {
                        if forall|i: int| 0 <= i < rest.len() ==> #[trigger] rest[i] == Some(seen) {
                            assert forall|i: int| 0 <= i < types.len() implies #[trigger] types[i]
                                == Some(seen) by {
                                if i > 0 {
                                    assert(rest[i - 1] == types[i]);
                                }
                            }
                        } else {
                            let bad = choose|i: int|
                                0 <= i < rest.len() && #[trigger] rest[i] != Some(seen);
                            assert(types[bad + 1] != Some(seen));
                        }
                    } else {
                        assert(types[0] != Some(seen));
                    }
                },
                Agreed::Nothing => {
                    match first {
                        None => {},
                        Some(name) => {
                            if forall|i: int|
                                0 <= i < rest.len() ==> #[trigger] rest[i] == Some(name) {
                                assert forall|i: int| 0 <= i < types.len() implies #[trigger] types[i]
                                    == types[0] by {
                                    if i > 0 {
                                        assert(rest[i - 1] == types[i]);
                                    }
                                }
                            } else {
                                let bad = choose|i: int|
                                    0 <= i < rest.len() && #[trigger] rest[i] != Some(name);
                                assert(types[bad + 1] != types[0]);
                            }
                        },
                    }
                },
            }
        },
    }
}

/// The type of an array literal: where it has elements and all of them have
/// one and the same type, that type with `[]` behind it; else `any[]`.
pub proof fn lemma_array_type(rows: Seq<SyntaxRow>, node: int)
    requires
        0 <= node < rows.len(),
        rows[node].kind == ARRAY_EXPR,
    ensures
        ({
            let types = element_types(rows, rows[node].depth, node + 1);
            if uniform(types) {
                type_of_node(rows, node) == Some(types[0]->0 + "[]"@)
            } else {
                type_of_node(rows, node) == Some("any[]"@)
            }
        }),
{
    lemma_elements_agreement(rows, rows[node].depth, node + 1, Agreed::Nothing);
}

/// The type of an expression that may be absent: `any` without one.
pub open spec fn resolved_type(rows: Seq<SyntaxRow>, expr: Option<usize>) -> Option<Seq<char>> {
    match expr {
        None => Some("any"@),
        Some(node) => type_of_node(rows, node as int),
    }
}

/// The text of a name that may be absent.
pub open spec fn name_view(name: Option<String>) -> Option<Seq<char>> {
    match name {
        None => None,
        Some(text) => Some(text@),
    }
}

/// Whether `text` reads exactly as `literal`.
pub fn text_equals(text: &String, literal: &str) -> (same: bool)
    ensures
        same == (text@ == literal@),
{
    let other = literal.to_owned();
    *text == other
}

fn has_suffix_n(text: &String) -> (yes: bool)
    ensures
        yes == ends_with_n(text@),
{
    let bytes = text.as_str().as_bytes();
    bytes.len() > 0 && bytes[bytes.len() - 1] == 110u8
}

fn type_of_literal(row: &SyntaxRow) -> (name: Option<String>)
    ensures
        name_view(name) == literal_type(*row),
{
    if row.token == Some(NUMBER) {
        if has_suffix_n(&row.text) {
            Some("BigInt".to_owned())
        } else {
            Some("number".to_owned())
        }
    } else if row.token == Some(STRING) {
        Some("string".to_owned())
    } else if row.token == Some(NULL_KW) {
        Some("any".to_owned())
    } else if row.token == Some(TRUE_KW) || row.token == Some(FALSE_KW) {
        Some("boolean".to_owned())
    } else if row.token == Some(REGEX) {
        Some("RegExp".to_owned())
    } else {
        None
    }
}

fn agree_with(so_far: Agreement, element: Option<String>) -> (next: Agreement)
    ensures
        next@ == agree(so_far@, name_view(element)),
{
    match so_far {
        Agreement::Mixed => Agreement::Mixed,
        Agreement::Nothing => match element {
            None => Agreement::Mixed,
            Some(name) => Agreement::All(name),
        },
        Agreement::All(seen) => match element {
            None => Agreement::Mixed,
            Some(name) => if seen == name {
                Agreement::All(seen)
            } else {
                Agreement::Mixed
            },
        },
    }
}

/// Finds the right-hand side of the assignment at `node`.
pub fn find_right_hand_side(rows: &Vec<SyntaxRow>, node: usize) -> (right: Option<usize>)
    requires
        node < rows.len(),
    ensures
        right.is_some() == right_hand_side(rows@, node as int).is_some(),
        right matches Some(r) ==> right_hand_side(rows@, node as int) == Some(r as int) && node
            < r < rows.len(),
{
    match find_first_child(rows, node, Want::Any) {
        None => None,
        Some(left) => match find_next_child(rows, rows[node].depth, left + 1, Want::Any) {
            None => None,
            Some(right) => if rows[right].is_expr {
                Some(right)
            } else {
                None
            },
        },
    }
}

/// Resolves the type of the expression at `node`.
pub fn resolve_node(rows: &Vec<SyntaxRow>, node: usize) -> (name: Option<String>)
    ensures
        name_view(name) == type_of_node(rows@, node as int),
    decreases rows.len() - node, 0nat,
{
    if node >= rows.len() {
        return None;
    }
    let row = &rows[node];
    if row.kind == ARRAY_EXPR {
        let depth = row.depth;
        let mut so_far = Agreement::Nothing;
        let mut at: usize = node + 1;
        loop
            invariant
                node < at <= rows.len(),
                elements_agreement(rows@, depth, at as int, so_far@) == elements_agreement(
                    rows@,
                    depth,
                    node + 1,
                    Agreed::Nothing,
                ),
            ensures
                so_far@ == elements_agreement(rows@, depth, node + 1, Agreed::Nothing),
            decreases rows.len() - at,
        {
            match find_next_child(rows, depth, at, Want::Expr) {
                None => {
                    break ;
                },
                Some(element) => {
                    let element_type = resolve_node(rows, element);
                    so_far = agree_with(so_far, element_type);
                    at = element + 1;
                },
            }
        }
        match so_far {
            Agreement::All(name) => Some(name.concat("[]")),
            _ => Some("any[]".to_owned()),
        }
    } else if row.kind == LITERAL {
        type_of_literal(row)
    } else if row.kind == OBJECT_EXPR {
        Some("any".to_owned())
    } else if row.kind == NAME_REF && text_equals(&row.text, "undefined") {
        Some("any".to_owned())
    } else if row.kind == ASSIGN_EXPR {
        match find_right_hand_side(rows, node) {
            Some(right) => resolve_node(rows, right),
            None => Some("any".to_owned()),
        }
    } else if row.kind == CALL_EXPR {
        match find_first_child(rows, node, Want::Expr) {
            None => None,
            Some(callee) => if text_equals(&rows[callee].text, "BigInt") {
                Some("BigInt".to_owned())
            } else {
                Some("Function".to_owned())
            },
        }
    } else {
        None
    }
}

/// The type to write for an expression: the caller's own type where it gives
/// one, `any` without an expression, else what the expression's shape tells.
pub fn get_type_from_expression(
    rows: &Vec<SyntaxRow>,
    expr: Option<usize>,
    created_type: &Option<String>,
) -> (name: Option<String>)
    ensures
        name_view(name) == match *created_type {
            Some(given) => Some(given@),
            None => resolved_type(rows@, expr),
        },
{
    match created_type {
        Some(given) => Some(given.clone()),
        None => match expr {
            None => Some("any".to_owned()),
            Some(node) => resolve_node(rows, node),
        },
    }
}

} // verus!
