//! How a binding is used within a scope.
//!
//! The scan walks the rows of a scope and looks for property accesses that
//! start at a binding: `name.a.b`, `this.name.a.b`, and destructuring from
//! either. Every access becomes a chain of fields, one below the other, and
//! every chain is merged into the definition of the binding.

use crate::resolver::text_equals;
use crate::syntax::{
    find_first_child, find_next_child, find_next_sibling, find_parent, find_subtree_end,
    first_child, next_child, next_sibling, parent_of, subtree_end,
    SyntaxRow, Want, ASSIGN_EXPR, CALL_EXPR, DECLARATOR, DOT_EXPR, KEY_VALUE_PATTERN, NAME,
    NAME_REF, OBJECT_PATTERN, SINGLE_PATTERN, THIS_EXPR,
};
use crate::type_definition::{
    keeps_shape, lemma_keeps_shape_transitive, lemma_with_field_keeps_shape,
    lemma_with_field_well_formed, well_formed, with_field, Descriptor, TypeDef, TypeDefinition,
};
use vstd::prelude::*;

verus! {

/// A row number as an expression reference.
pub open spec fn reference(node: Option<int>) -> Option<usize> {
    match node {
        Some(at) => Some(at as usize),
        None => None,
    }
}

/// The definition with one more field, where there is one.
pub open spec fn with_optional(def: Descriptor, field: Option<Descriptor>) -> Descriptor {
    match field {
        Some(child) => with_field(def, child),
        None => def,
    }
}

/// The node directly above `node`, where that is a member access.
pub open spec fn parent_access(rows: Seq<SyntaxRow>, node: int) -> Option<int> {
    match parent_of(rows, node) {
        Some(parent) => if 0 <= parent < node && rows[parent].kind == DOT_EXPR {
            Some(parent)
        } else {
            None
        },
        None => None,
    }
}

/// The field that one element of an object pattern binds: a plain name is a
/// leaf, `key: { .. }` a branch of what the inner pattern binds. Defaults and
/// rest elements bind no field.
pub open spec fn property_of(rows: Seq<SyntaxRow>, element: int) -> Option<Descriptor>
    decreases rows.len() - element, 0nat,
{
    if element < 0 || element >= rows.len() {
        None
    } else if rows[element].kind == KEY_VALUE_PATTERN {
        match first_child(rows, element, Want::PropertyName) {
            None => None,
            Some(key) => {
                let leaf = Descriptor::Leaf { name: rows[key].text@, expr: None };
                match first_child(rows, element, Want::Kind(OBJECT_PATTERN)) {
                    Some(inner) => if element < inner < rows.len() {
                        Some(pattern_into(rows, rows[inner].depth, inner + 1, leaf))
                    } else {
                        Some(leaf)
                    },
                    None => Some(leaf),
                }
            },
        }
    } else if rows[element].kind == SINGLE_PATTERN {
        match first_child(rows, element, Want::Kind(NAME)) {
            None => None,
            Some(name) => Some(Descriptor::Leaf { name: rows[name].text@, expr: None }),
        }
    } else {
        None
    }
}

/// The definition after the elements of an object pattern of depth `depth`,
/// from row `at` on, were merged into it.
pub open spec fn pattern_into(rows: Seq<SyntaxRow>, depth: usize, at: int, def: Descriptor)
    -> Descriptor
    decreases rows.len() - at, 1nat,
{
    match next_child(rows, depth, at, Want::Any) {
        None => def,
        Some(element) => if element < at || element >= rows.len() {
            def
        } else {
            pattern_into(
                rows,
                depth,
                element + 1,
                with_optional(def, property_of(rows, element)),
            )
        },
    }
}

/// The definition after the names were merged in that a declaration
/// destructures out of the expression at `node`.
pub open spec fn destructured_into(rows: Seq<SyntaxRow>, node: int, def: Descriptor) -> Descriptor {
    match parent_of(rows, node) {
        Some(parent) => if rows[parent].kind == DECLARATOR {
            match first_child(rows, parent, Want::Kind(OBJECT_PATTERN)) {
                Some(pattern) => pattern_into(rows, rows[pattern].depth, pattern + 1, def),
                None => def,
            }
        } else {
            def
        },
        None => def,
    }
}

/// Whether `node` is what the call at `parent` calls, or what the assignment
/// at `parent` assigns to.
pub open spec fn is_callee_or_target(rows: Seq<SyntaxRow>, parent: int, node: int) -> bool {
    ||| rows[parent].kind == CALL_EXPR && first_child(rows, parent, Want::Expr) == Some(node)
    ||| rows[parent].kind == ASSIGN_EXPR && first_child(rows, parent, Want::Any) == Some(node)
}

/// The field that the member access at `access` stands for, with the accesses
/// around it nested below. An access that is called or assigned to is a leaf
/// that refers to the call or the assignment.
pub open spec fn chain(rows: Seq<SyntaxRow>, access: int) -> Option<Descriptor>
    decreases access,
{
    if access < 0 || access >= rows.len() {
        None
    } else {
        match first_child(rows, access, Want::Kind(NAME)) {
            None => None,
            Some(property) => {
                let name = rows[property].text@;
                let leaf = Descriptor::Leaf {
                    name,
                    expr: reference(first_child(rows, access, Want::Expr)),
                };
                let own = destructured_into(rows, access, leaf);
                let nested = match parent_access(rows, access) {
                    Some(outer) => if 0 <= outer < access {
                        with_optional(own, chain(rows, outer))
                    } else {
                        own
                    },
                    None => own,
                };
                match parent_of(rows, access) {
                    Some(parent) => if is_callee_or_target(rows, parent, access) {
                        Some(Descriptor::Leaf { name, expr: Some(parent as usize) })
                    } else {
                        Some(nested)
                    },
                    None => Some(nested),
                }
            },
        }
    }
}

/// The innermost member access below `access`, which holds the root of the
/// chain.
pub open spec fn innermost(rows: Seq<SyntaxRow>, access: int) -> int
    decreases rows.len() - access,
{
    match first_child(rows, access, Want::Kind(DOT_EXPR)) {
        Some(inner) => if access < inner < rows.len() {
            innermost(rows, inner)
        } else {
            access
        },
        None => access,
    }
}

/// What the row `node` adds to the definition of the binding `binding`.
pub open spec fn usage_step(rows: Seq<SyntaxRow>, binding: Seq<char>, node: int, def: Descriptor)
    -> Descriptor {
    if rows[node].kind == DOT_EXPR {
        let access = innermost(rows, node);
        match first_child(rows, access, Want::Expr) {
            None => def,
            Some(object) => if rows[object].kind == NAME_REF && rows[object].text@ == binding {
                with_optional(def, chain(rows, access))
            } else if rows[object].kind == THIS_EXPR {
                match next_sibling(rows, object) {
                    None => def,
                    Some(sibling) => if rows[sibling].text@ == binding {
                        match parent_access(rows, access) {
                            Some(outer) => with_optional(def, chain(rows, outer)),
                            None => destructured_into(rows, access, def),
                        }
                    } else {
                        def
                    },
                }
            } else {
                def
            },
        }
    } else if rows[node].kind == NAME_REF && rows[node].text@ == binding {
        destructured_into(rows, node, def)
    } else {
        def
    }
}

/// The definition after the rows from `at` up to `end` were looked at.
pub open spec fn usage_scan(
    rows: Seq<SyntaxRow>,
    binding: Seq<char>,
    at: int,
    end: int,
    def: Descriptor,
) -> Descriptor
    decreases end - at,
{
    if at < 0 || at >= end || at >= rows.len() {
        def
    } else {
        usage_scan(rows, binding, at + 1, end, usage_step(rows, binding, at, def))
    }
}

/// The fields of `binding` that the scope at `root` uses, or nothing where it
/// uses none.
pub open spec fn usage(rows: Seq<SyntaxRow>, root: int, binding: Seq<char>) -> Option<Descriptor> {
    if root < 0 || root >= rows.len() {
        None
    } else {
        let found = usage_scan(
            rows,
            binding,
            root,
            subtree_end(rows, root),
            Descriptor::Leaf { name: binding, expr: None },
        );
        match found {
            Descriptor::Leaf { .. } => None,
            Descriptor::Branch { .. } => Some(found),
        }
    }
}

proof fn lemma_with_optional_well_formed(def: Descriptor, field: Option<Descriptor>)
    requires
        well_formed(def),
        field matches Some(child) ==> well_formed(child),
    ensures
        well_formed(with_optional(def, field)),
{
    match field {
        Some(child) => {
            lemma_with_field_well_formed(def, child);
        },
        None => {},
    }
}

proof fn lemma_property_well_formed(rows: Seq<SyntaxRow>, element: int)
    ensures
        property_of(rows, element) matches Some(field) ==> well_formed(field),
    decreases rows.len() - element, 0nat,
{
    if 0 <= element < rows.len() && rows[element].kind == KEY_VALUE_PATTERN {
        match first_child(rows, element, Want::PropertyName) {
            None => {},
            Some(key) => {
                let leaf = Descriptor::Leaf { name: rows[key].text@, expr: None };
                match first_child(rows, element, Want::Kind(OBJECT_PATTERN)) {
                    Some(inner) => if element < inner < rows.len() {
                        lemma_pattern_well_formed(rows, rows[inner].depth, inner + 1, leaf);
                    },
                    None => {},
                }
            },
        }
    }
}

proof fn lemma_pattern_well_formed(rows: Seq<SyntaxRow>, depth: usize, at: int, def: Descriptor)
    requires
        well_formed(def),
    ensures
        well_formed(pattern_into(rows, depth, at, def)),
    decreases rows.len() - at, 1nat,
{
    match next_child(rows, depth, at, Want::Any) {
        None => {},
        Some(element) => if element < at || element >= rows.len() {
        } else {
            lemma_property_well_formed(rows, element);
            lemma_with_optional_well_formed(def, property_of(rows, element));
            lemma_pattern_well_formed(
                rows,
                depth,
                element + 1,
                with_optional(def, property_of(rows, element)),
            );
        },
    }
}

proof fn lemma_destructured_well_formed(rows: Seq<SyntaxRow>, node: int, def: Descriptor)
    requires
        well_formed(def),
    ensures
        well_formed(destructured_into(rows, node, def)),
{
    match parent_of(rows, node) {
        Some(parent) => if rows[parent].kind == DECLARATOR {
            match first_child(rows, parent, Want::Kind(OBJECT_PATTERN)) {
                Some(pattern) => {
                    lemma_pattern_well_formed(rows, rows[pattern].depth, pattern + 1, def);
                },
                None => {},
            }
        },
        None => {},
    }
}

proof fn lemma_chain_well_formed(rows: Seq<SyntaxRow>, access: int)
    ensures
        chain(rows, access) matches Some(field) ==> well_formed(field),
    decreases access,
{
    if 0 <= access < rows.len() {
        match first_child(rows, access, Want::Kind(NAME)) {
            None => {},
            Some(property) => {
                let leaf = Descriptor::Leaf {
                    name: rows[property].text@,
                    expr: reference(first_child(rows, access, Want::Expr)),
                };
                lemma_destructured_well_formed(rows, access, leaf);
                let own = destructured_into(rows, access, leaf);
                match parent_access(rows, access) {
                    Some(outer) => if 0 <= outer < access {
                        lemma_chain_well_formed(rows, outer);
                        lemma_with_optional_well_formed(own, chain(rows, outer));
                    },
                    None => {},
                }
            },
        }
    }
}

proof fn lemma_step_well_formed(rows: Seq<SyntaxRow>, binding: Seq<char>, node: int, def: Descriptor)
    requires
        well_formed(def),
    ensures
        well_formed(usage_step(rows, binding, node, def)),
{
    let access = innermost(rows, node);
    lemma_chain_well_formed(rows, access);
    lemma_with_optional_well_formed(def, chain(rows, access));
    lemma_destructured_well_formed(rows, access, def);
    lemma_destructured_well_formed(rows, node, def);
    match parent_access(rows, access) {
        Some(outer) => {
            lemma_chain_well_formed(rows, outer);
            lemma_with_optional_well_formed(def, chain(rows, outer));
        },
        None => {},
    }
}

proof fn lemma_scan_well_formed(
    rows: Seq<SyntaxRow>,
    binding: Seq<char>,
    at: int,
    end: int,
    def: Descriptor,
)
    requires
        well_formed(def),
    ensures
        well_formed(usage_scan(rows, binding, at, end, def)),
    decreases end - at,
{
    if at < 0 || at >= end || at >= rows.len() {
    } else {
        lemma_step_well_formed(rows, binding, at, def);
        lemma_scan_well_formed(rows, binding, at + 1, end, usage_step(rows, binding, at, def));
    }
}

/// What a scan gathers is well formed: no two fields of one branch share a
/// name, however often a field was seen.
pub proof fn lemma_usage_well_formed(rows: Seq<SyntaxRow>, root: int, binding: Seq<char>)
    ensures
        usage(rows, root, binding) matches Some(found) ==> well_formed(found),
{
    if 0 <= root < rows.len() {
        lemma_scan_well_formed(
            rows,
            binding,
            root,
            subtree_end(rows, root),
            Descriptor::Leaf { name: binding, expr: None },
        );
    }
}

proof fn lemma_with_optional_keeps_shape(def: Descriptor, field: Option<Descriptor>)
    ensures
        keeps_shape(def, with_optional(def, field)),
{
    match field {
        Some(child) => {
            lemma_with_field_keeps_shape(def, child);
        },
        None => {},
    }
}

proof fn lemma_pattern_keeps_shape(rows: Seq<SyntaxRow>, depth: usize, at: int, def: Descriptor)
    ensures
        keeps_shape(def, pattern_into(rows, depth, at, def)),
    decreases rows.len() - at,
{
    match next_child(rows, depth, at, Want::Any) {
        None => {},
        Some(element) => if element < at || element >= rows.len() {
        } else {
            let next = with_optional(def, property_of(rows, element));
            lemma_with_optional_keeps_shape(def, property_of(rows, element));
            lemma_pattern_keeps_shape(rows, depth, element + 1, next);
            lemma_keeps_shape_transitive(def, next, pattern_into(rows, depth, element + 1, next));
        },
    }
}

proof fn lemma_destructured_keeps_shape(rows: Seq<SyntaxRow>, node: int, def: Descriptor)
    ensures
        keeps_shape(def, destructured_into(rows, node, def)),
{
    match parent_of(rows, node) {
        Some(parent) => if rows[parent].kind == DECLARATOR {
            match first_child(rows, parent, Want::Kind(OBJECT_PATTERN)) {
                Some(pattern) => {
                    lemma_pattern_keeps_shape(rows, rows[pattern].depth, pattern + 1, def);
                },
                None => {},
            }
        },
        None => {},
    }
}

proof fn lemma_step_keeps_shape(rows: Seq<SyntaxRow>, binding: Seq<char>, node: int, def: Descriptor)
    ensures
        keeps_shape(def, usage_step(rows, binding, node, def)),
{
    let access = innermost(rows, node);
    lemma_with_optional_keeps_shape(def, chain(rows, access));
    lemma_destructured_keeps_shape(rows, access, def);
    lemma_destructured_keeps_shape(rows, node, def);
    match parent_access(rows, access) {
        Some(outer) => {
            lemma_with_optional_keeps_shape(def, chain(rows, outer));
        },
        None => {},
    }
}

/// A scan never flattens. Whatever it looks at later, the definition keeps
/// the fields that it has, under their names, and a field that holds fields
/// of its own stays a branch: after `x.a.b` no `x.a` makes `a` a leaf.
pub proof fn lemma_scan_never_flattens(
    rows: Seq<SyntaxRow>,
    binding: Seq<char>,
    at: int,
    end: int,
    def: Descriptor,
)
    ensures
        keeps_shape(def, usage_scan(rows, binding, at, end, def)),
    decreases end - at,
{
    if at < 0 || at >= end || at >= rows.len() {
    } else {
        let next = usage_step(rows, binding, at, def);
        lemma_step_keeps_shape(rows, binding, at, def);
        lemma_scan_never_flattens(rows, binding, at + 1, end, next);
        lemma_keeps_shape_transitive(def, next, usage_scan(rows, binding, at + 1, end, next));
    }
}

/// A chain nests. Where the member access at `access` is the object of the
/// access `outer` around it, as `x.a` is of `x.a.b`, its field is a branch
/// that holds the field of `outer` below it: `a: { b }`, never `a` and `b`
/// side by side.
pub proof fn lemma_chain_nests(rows: Seq<SyntaxRow>, access: int, outer: int)
    requires
        0 <= access < rows.len(),
        first_child(rows, access, Want::Kind(NAME)).is_some(),
        parent_access(rows, access) == Some(outer),
        chain(rows, outer).is_some(),
    ensures
        chain(rows, access) matches Some(field) && field is Branch && field.name()
            == rows[first_child(rows, access, Want::Kind(NAME)).unwrap()].text@ && exists|i: int|
            {
                &&& 0 <= i < field.fields().len()
                &&& (#[trigger] field.fields()[i]).name() == chain(rows, outer).unwrap().name()
                &&& chain(rows, outer).unwrap() is Branch ==> field.fields()[i] is Branch
            },
{
    let property = first_child(rows, access, Want::Kind(NAME)).unwrap();
    let leaf = Descriptor::Leaf {
        name: rows[property].text@,
        expr: reference(first_child(rows, access, Want::Expr)),
    };
    let own = destructured_into(rows, access, leaf);
    lemma_destructured_keeps_shape(rows, access, leaf);
    lemma_with_field_keeps_shape(own, chain(rows, outer).unwrap());
}

/// The value of a definition that may be absent.
pub open spec fn optional_view(def: Option<TypeDefinition>) -> Option<Descriptor> {
    match def {
        Some(found) => Some(found@),
        None => None,
    }
}

fn add_optional(def: &mut TypeDefinition, field: Option<TypeDefinition>)
    ensures
        final(def)@ == with_optional(old(def)@, optional_view(field)),
{
    match field {
        Some(child) => {
            def.add_field(child);
        },
        None => {},
    }
}

fn find_parent_access(rows: &Vec<SyntaxRow>, node: usize) -> (outer: Option<usize>)
    requires
        node < rows.len(),
    ensures
        outer.is_some() == parent_access(rows@, node as int).is_some(),
        outer matches Some(o) ==> parent_access(rows@, node as int) == Some(o as int) && o < node,
{
    match find_parent(rows, node) {
        Some(parent) => if rows[parent].kind == DOT_EXPR {
            Some(parent)
        } else {
            None
        },
        None => None,
    }
}

fn property_definition(rows: &Vec<SyntaxRow>, element: usize) -> (field: Option<TypeDefinition>)
    ensures
        optional_view(field) == property_of(rows@, element as int),
    decreases rows.len() - element, 0nat,
{
    if element >= rows.len() {
        None
    } else if rows[element].kind == KEY_VALUE_PATTERN {
        match find_first_child(rows, element, Want::PropertyName) {
            None => None,
            Some(key) => {
                let mut leaf = TypeDefinition::new(rows[key].text.clone(), None);
                match find_first_child(rows, element, Want::Kind(OBJECT_PATTERN)) {
                    Some(inner) => {
                        add_pattern_fields(rows, inner, &mut leaf);
                    },
                    None => {},
                }
                Some(leaf)
            },
        }
    } else if rows[element].kind == SINGLE_PATTERN {
        match find_first_child(rows, element, Want::Kind(NAME)) {
            None => None,
            Some(name) => Some(TypeDefinition::new(rows[name].text.clone(), None)),
        }
    } else {
        None
    }
}

fn add_pattern_fields(rows: &Vec<SyntaxRow>, pattern: usize, def: &mut TypeDefinition)
    requires
        pattern < rows.len(),
    ensures
        final(def)@ == pattern_into(
            rows@,
            rows[pattern as int].depth,
            pattern + 1,
            old(def)@,
        ),
    decreases rows.len() - pattern, 1nat,
{
    let depth = rows[pattern].depth;
    let mut at: usize = pattern + 1;
    loop
        invariant
            pattern < at <= rows.len(),
            pattern_into(rows@, depth, at as int, def@) == pattern_into(
                rows@,
                depth,
                pattern + 1,
                old(def)@,
            ),
        ensures
            def@ == pattern_into(rows@, depth, pattern + 1, old(def)@),
        decreases rows.len() - at,
    {
        match find_next_child(rows, depth, at, Want::Any) {
            None => {
                break ;
            },
            Some(element) => {
                let field = property_definition(rows, element);
                add_optional(def, field);
                at = element + 1;
            },
        }
    }
}

fn include_destructured_properties(rows: &Vec<SyntaxRow>, node: usize, def: &mut TypeDefinition)
    requires
        node < rows.len(),
    ensures
        final(def)@ == destructured_into(rows@, node as int, old(def)@),
{
    match find_parent(rows, node) {
        Some(parent) => if rows[parent].kind == DECLARATOR {
            match find_first_child(rows, parent, Want::Kind(OBJECT_PATTERN)) {
                Some(pattern) => {
                    add_pattern_fields(rows, pattern, def);
                },
                None => {},
            }
        },
        None => {},
    }
}

fn check_callee_or_target(rows: &Vec<SyntaxRow>, parent: usize, node: usize) -> (yes: bool)
    requires
        parent < rows.len(),
    ensures
        yes == is_callee_or_target(rows@, parent as int, node as int),
{
    let first = if rows[parent].kind == CALL_EXPR {
        find_first_child(rows, parent, Want::Expr)
    } else if rows[parent].kind == ASSIGN_EXPR {
        find_first_child(rows, parent, Want::Any)
    } else {
        None
    };
    match first {
        Some(found) => found == node,
        None => false,
    }
}

fn chain_definition(rows: &Vec<SyntaxRow>, access: usize) -> (field: Option<TypeDefinition>)
    ensures
        optional_view(field) == chain(rows@, access as int),
    decreases access,
{
    if access >= rows.len() {
        return None;
    }
    match find_first_child(rows, access, Want::Kind(NAME)) {
        None => None,
        Some(property) => {
            let object = find_first_child(rows, access, Want::Expr);
            assert(object == reference(first_child(rows@, access as int, Want::Expr)));
            let mut def = TypeDefinition::new(rows[property].text.clone(), object);
            include_destructured_properties(rows, access, &mut def);
            match find_parent_access(rows, access) {
                Some(outer) => {
                    let nested = chain_definition(rows, outer);
                    add_optional(&mut def, nested);
                },
                None => {},
            }
            match find_parent(rows, access) {
                Some(parent) => if check_callee_or_target(rows, parent, access) {
                    Some(TypeDefinition::new(rows[property].text.clone(), Some(parent)))
                } else {
                    Some(def)
                },
                None => Some(def),
            }
        },
    }
}

fn find_innermost(rows: &Vec<SyntaxRow>, access: usize) -> (inner: usize)
    requires
        access < rows.len(),
    ensures
        inner == innermost(rows@, access as int),
        access <= inner < rows.len(),
{
    let mut at: usize = access;
    loop
        invariant
            access <= at < rows.len(),
            innermost(rows@, at as int) == innermost(rows@, access as int),
        ensures
            access <= at < rows.len(),
            at == innermost(rows@, access as int),
        decreases rows.len() - at,
    {
        match find_first_child(rows, at, Want::Kind(DOT_EXPR)) {
            Some(inner) => {
                at = inner;
            },
            None => {
                break ;
            },
        }
    }
    at
}

fn add_usage(rows: &Vec<SyntaxRow>, binding: &str, node: usize, def: &mut TypeDefinition)
    requires
        node < rows.len(),
    ensures
        final(def)@ == usage_step(rows@, binding@, node as int, old(def)@),
{
    if rows[node].kind == DOT_EXPR {
        let access = find_innermost(rows, node);
        match find_first_child(rows, access, Want::Expr) {
            None => {},
            Some(object) => if rows[object].kind == NAME_REF && text_equals(
                &rows[object].text,
                binding,
            ) {
                let field = chain_definition(rows, access);
                add_optional(def, field);
            } else if rows[object].kind == THIS_EXPR {
                match find_next_sibling(rows, object) {
                    None => {},
                    Some(sibling) => if text_equals(&rows[sibling].text, binding) {
                        match find_parent_access(rows, access) {
                            Some(outer) => {
                                let field = chain_definition(rows, outer);
                                add_optional(def, field);
                            },
                            None => {
                                include_destructured_properties(rows, access, def);
                            },
                        }
                    },
                }
            },
        }
    } else if rows[node].kind == NAME_REF && text_equals(&rows[node].text, binding) {
        include_destructured_properties(rows, node, def);
    }
}

/// Gathers the fields of the binding `component_aspect` that the scope at
/// row `root` uses. Returns nothing where the scope uses none.
pub fn define_type_based_on_usage(rows: &Vec<SyntaxRow>, root: usize, component_aspect: &str) -> (found:
    Option<TypeDefinition>)
    ensures
        optional_view(found) == usage(rows@, root as int, component_aspect@),
        found matches Some(def) ==> well_formed(def@),
{
    proof {
        lemma_usage_well_formed(rows@, root as int, component_aspect@);
    }
    if root >= rows.len() {
        return None;
    }
    let mut root_type = TypeDefinition::new(component_aspect.to_owned(), None);
    let end = find_subtree_end(rows, root);
    let ghost start = root_type@;
    let mut at: usize = root;
    while at < end
        invariant
            root <= at <= end <= rows.len(),
            usage_scan(rows@, component_aspect@, at as int, end as int, root_type@) == usage_scan(
                rows@,
                component_aspect@,
                root as int,
                end as int,
                start,
            ),
        decreases end - at,
    {
        add_usage(rows, component_aspect, at, &mut root_type);
        at += 1;
    }
    match root_type.ts_type {
        TypeDef::SimpleType(_) => None,
        TypeDef::NestedType(_) => Some(root_type),
    }
}

} // verus!
