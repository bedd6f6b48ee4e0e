//! The shape of a binding, gathered from the way it is used.
//!
//! A [`TypeDefinition`] is a named leaf or a named branch of further
//! definitions. Fields are merged in by name, so that a field that is seen
//! again never appears twice, and a field that is seen with fields of its own
//! stays a branch. Rendering writes the fields in the order of their names.

use crate::resolver::{resolve_node, type_of_node};
use crate::syntax::{
    find_first_child, find_parent, first_child, parent_of, SyntaxRow, Want, ARG_LIST, ASSIGN_EXPR,
    EXPR_STMT, PARAMETER_LIST,
};
pub use crate::resolver::get_type_from_expression;
pub use crate::usage::define_type_based_on_usage;
use vstd::prelude::*;
use vstd::string::*;
use vstd::utf8::*;

verus! {

/// What a definition holds: nothing but a type, or fields.
pub enum TypeDef {
    /// A field without fields of its own, with the row of the expression that
    /// tells its type, where there is one.
    SimpleType(Option<usize>),
    /// A field with fields of its own.
    NestedType(Vec<TypeDefinition>),
}

/// A named field, or the binding that the fields belong to.
pub struct TypeDefinition {
    pub name: String,
    pub ts_type: TypeDef,
}

/// A definition as a value: names as texts, fields as a sequence.
pub ghost enum Descriptor {
    Leaf { name: Seq<char>, expr: Option<usize> },
    Branch { name: Seq<char>, fields: Seq<Descriptor> },
}

impl Descriptor {
    pub open spec fn name(self) -> Seq<char> {
        match self {
            Descriptor::Leaf { name, .. } => name,
            Descriptor::Branch { name, .. } => name,
        }
    }

    pub open spec fn fields(self) -> Seq<Descriptor> {
        match self {
            Descriptor::Leaf { .. } => Seq::empty(),
            Descriptor::Branch { fields, .. } => fields,
        }
    }
}

/// The value of a definition.
pub open spec fn descriptor_of(def: TypeDefinition) -> Descriptor
    decreases def,
{
    match def.ts_type {
        TypeDef::SimpleType(expr) => Descriptor::Leaf { name: def.name@, expr },
        TypeDef::NestedType(children) => Descriptor::Branch {
            name: def.name@,
            fields: Seq::new(
                children@.len(),
                |i: int|
                    if 0 <= i < children@.len() {
                        descriptor_of(children@[i])
                    } else {
                        Descriptor::Leaf { name: Seq::empty(), expr: None }
                    },
            ),
        },
    }
}

impl View for TypeDefinition {
    type V = Descriptor;

    open spec fn view(&self) -> Descriptor {
        descriptor_of(*self)
    }
}

/// The values of a list of definitions.
pub open spec fn views(defs: Seq<TypeDefinition>) -> Seq<Descriptor> {
    Seq::new(defs.len(), |i: int| defs[i]@)
}

/// The first place at or behind `from` where `fields` holds a field called
/// `name`, or the number of fields.
pub open spec fn position(fields: Seq<Descriptor>, name: Seq<char>, from: int) -> int
    decreases fields.len() - from,
{
    if from < 0 || from >= fields.len() {
        fields.len() as int
    } else if fields[from].name() == name {
        from
    } else {
        position(fields, name, from + 1)
    }
}

/// The fields after `child` was merged in. A new name is added at the end. A
/// name that is there already keeps its place: a child without fields changes
/// nothing, a child with fields makes the field a branch and merges its own
/// fields into it, one by one.
pub open spec fn merged(fields: Seq<Descriptor>, child: Descriptor) -> Seq<Descriptor>
    decreases child, 0nat,
{
    let at = position(fields, child.name(), 0);
    if !(0 <= at < fields.len()) {
        fields.push(child)
    } else {
        match child {
            Descriptor::Leaf { .. } => fields,
            Descriptor::Branch { fields: added, .. } => fields.update(
                at,
                Descriptor::Branch {
                    name: fields[at].name(),
                    fields: merged_all(fields[at].fields(), added, 0),
                },
            ),
        }
    }
}

/// The fields after those of `added` from `from` on were merged in, in order.
pub open spec fn merged_all(fields: Seq<Descriptor>, added: Seq<Descriptor>, from: int) -> Seq<
    Descriptor,
>
    decreases added, added.len() - from,
{
    if from < 0 || from >= added.len() {
        fields
    } else {
        merged_all(merged(fields, added[from]), added, from + 1)
    }
}

/// The definition after `child` became one of its fields.
pub open spec fn with_field(parent: Descriptor, child: Descriptor) -> Descriptor {
    match parent {
        Descriptor::Leaf { name, .. } => Descriptor::Branch { name, fields: seq![child] },
        Descriptor::Branch { name, fields } => Descriptor::Branch {
            name,
            fields: merged(fields, child),
        },
    }
}

/// Whether no two fields of one branch share a name, at any depth.
pub open spec fn well_formed(def: Descriptor) -> bool
    decreases def,
{
    match def {
        Descriptor::Leaf { .. } => true,
        Descriptor::Branch { fields, .. } => {
            &&& distinct_names(fields)
            &&& forall|i: int| 0 <= i < fields.len() ==> well_formed(#[trigger] fields[i])
        },
    }
}

/// Whether no two of the fields share a name.
pub open spec fn distinct_names(fields: Seq<Descriptor>) -> bool {
    forall|i: int, j: int|
        0 <= i < j < fields.len() ==> (#[trigger] fields[i]).name() != (#[trigger] fields[j]).name()
}

/// Where [`position`] points: at the first field of that name, or behind the
/// last field where there is none.
pub proof fn lemma_position(fields: Seq<Descriptor>, name: Seq<char>, from: int)
    requires
        0 <= from <= fields.len(),
    ensures
        from <= position(fields, name, from) <= fields.len(),
        position(fields, name, from) < fields.len() ==> fields[position(fields, name, from)].name()
            == name,
        forall|k: int| from <= k < position(fields, name, from) ==> (#[trigger] fields[k]).name() != name,
    decreases fields.len() - from,
{
    if from < fields.len() && fields[from].name() != name {
        lemma_position(fields, name, from + 1);
    }
}

/// Merging keeps the definition well formed: a field that is seen again does
/// not appear a second time, at any depth. The fields that were there keep
/// their places and their names.
pub proof fn lemma_merged_well_formed(fields: Seq<Descriptor>, child: Descriptor)
    requires
        distinct_names(fields),
        forall|i: int| 0 <= i < fields.len() ==> well_formed(#[trigger] fields[i]),
        well_formed(child),
    ensures
        distinct_names(merged(fields, child)),
        forall|i: int|
            0 <= i < merged(fields, child).len() ==> well_formed(#[trigger] merged(fields, child)[i]),
        merged(fields, child).len() >= fields.len(),
        forall|i: int|
            0 <= i < fields.len() ==> (#[trigger] merged(fields, child)[i]).name()
                == fields[i].name(),
    decreases child, 0nat,
{
    let at = position(fields, child.name(), 0);
    lemma_position(fields, child.name(), 0);
    let after = merged(fields, child);
    if at == fields.len() {
        assert forall|i: int, j: int| 0 <= i < j < after.len() implies (#[trigger] after[i]).name()
            != (#[trigger] after[j]).name() by {
            if j < fields.len() {
                assert(after[i] == fields[i]);
                assert(after[j] == fields[j]);
            } else {
                assert(after[i] == fields[i]);
            }
        }
    } else {
        match child {
            Descriptor::Leaf { .. } => {},
            Descriptor::Branch { fields: added, .. } => {
                let held = fields[at];
                assert(well_formed(held));
                assert forall|i: int| 0 <= i < added.len() implies well_formed(
                    #[trigger] added[i],
                ) by {}
                lemma_merged_all_well_formed(held.fields(), added, 0);
                assert forall|i: int, j: int| 0 <= i < j < after.len() implies (
                #[trigger] after[i]).name() != (#[trigger] after[j]).name() by {
                    assert(after[i].name() == fields[i].name());
                    assert(after[j].name() == fields[j].name());
                }
                assert forall|i: int| 0 <= i < after.len() implies well_formed(
                    #[trigger] after[i],
                ) by {
                    if i != at {
                        assert(after[i] == fields[i]);
                    }
                }
            },
        }
    }
}

/// Merging a list of fields keeps the definition well formed.
pub proof fn lemma_merged_all_well_formed(
    fields: Seq<Descriptor>,
    added: Seq<Descriptor>,
    from: int,
)
    requires
        0 <= from,
        distinct_names(fields),
        forall|i: int| 0 <= i < fields.len() ==> well_formed(#[trigger] fields[i]),
        forall|i: int| 0 <= i < added.len() ==> well_formed(#[trigger] added[i]),
    ensures
        distinct_names(merged_all(fields, added, from)),
        forall|i: int|
            0 <= i < merged_all(fields, added, from).len() ==> well_formed(
                #[trigger] merged_all(fields, added, from)[i],
            ),
    decreases added, added.len() - from,
{
    if from < added.len() {
        lemma_merged_well_formed(fields, added[from]);
        lemma_merged_all_well_formed(merged(fields, added[from]), added, from + 1);
    }
}

/// A well-formed definition stays well formed when a well-formed field is
/// added to it.
pub proof fn lemma_with_field_well_formed(parent: Descriptor, child: Descriptor)
    requires
        well_formed(parent),
        well_formed(child),
    ensures
        well_formed(with_field(parent, child)),
{
    match parent {
        Descriptor::Leaf { .. } => {
            assert(with_field(parent, child).fields() =~= seq![child]);
        },
        Descriptor::Branch { fields, .. } => {
            lemma_merged_well_formed(fields, child);
        },
    }
}

/// The nested shape wins. A child with fields of its own leaves a branch at
/// the place of its name, whatever was there; and a field that is a branch
/// stays one, whatever is merged in.
pub proof fn lemma_nested_shape_wins(fields: Seq<Descriptor>, child: Descriptor)
    ensures
        child is Branch ==> {
            let at = position(fields, child.name(), 0);
            &&& 0 <= at < merged(fields, child).len()
            &&& merged(fields, child)[at] is Branch
            &&& merged(fields, child)[at].name() == child.name()
        },
        forall|i: int|
            0 <= i < fields.len() && (#[trigger] fields[i]) is Branch ==> merged(
                fields,
                child,
            )[i] is Branch,
        merged(fields, child).len() >= fields.len(),
{
    lemma_position(fields, child.name(), 0);
}

/// Whether `after` still has what `before` had: the same name, and where
/// `before` is a branch, its fields at their places under their names, every
/// branch among them still a branch.
pub open spec fn keeps_shape(before: Descriptor, after: Descriptor) -> bool {
    &&& after.name() == before.name()
    &&& before is Branch ==> {
        &&& after is Branch
        &&& after.fields().len() >= before.fields().len()
        &&& forall|i: int|
            0 <= i < before.fields().len() ==> {
                &&& (#[trigger] after.fields()[i]).name() == before.fields()[i].name()
                &&& before.fields()[i] is Branch ==> after.fields()[i] is Branch
            }
    }
}

/// Adding a field never flattens: the definition keeps its shape, and it is
/// a branch afterwards that holds a field of the child's name, a branch if
/// the child is one.
pub proof fn lemma_with_field_keeps_shape(parent: Descriptor, child: Descriptor)
    ensures
        keeps_shape(parent, with_field(parent, child)),
        with_field(parent, child) is Branch,
        exists|i: int|
            {
                &&& 0 <= i < with_field(parent, child).fields().len()
                &&& (#[trigger] with_field(parent, child).fields()[i]).name() == child.name()
                &&& child is Branch ==> with_field(parent, child).fields()[i] is Branch
            },
{
    let after = with_field(parent, child);
    match parent {
        Descriptor::Leaf { .. } => {
            assert(after.fields()[0] == child);
        },
        Descriptor::Branch { fields, .. } => {
            lemma_position(fields, child.name(), 0);
            lemma_nested_shape_wins(fields, child);
            let at = position(fields, child.name(), 0);
            assert(after.fields() == merged(fields, child));
            assert(after.fields()[at].name() == child.name());
            assert forall|i: int| 0 <= i < fields.len() implies (#[trigger] after.fields()[i]).name()
                == fields[i].name() by {}
        },
    }
}

/// Keeping the shape carries over a chain of changes.
pub proof fn lemma_keeps_shape_transitive(first: Descriptor, second: Descriptor, third: Descriptor)
    requires
        keeps_shape(first, second),
        keeps_shape(second, third),
    ensures
        keeps_shape(first, third),
{
    if first is Branch {
        assert forall|i: int| 0 <= i < first.fields().len() implies {
            &&& (#[trigger] third.fields()[i]).name() == first.fields()[i].name()
            &&& first.fields()[i] is Branch ==> third.fields()[i] is Branch
        } by {
            assert(second.fields()[i].name() == first.fields()[i].name());
        }
    }
}

/// A field without fields of its own that is merged in a second time changes
/// nothing.
pub proof fn lemma_leaf_again_changes_nothing(fields: Seq<Descriptor>, child: Descriptor)
    requires
        child is Leaf,
    ensures
        merged(merged(fields, child), child) == merged(fields, child),
{
    lemma_position(fields, child.name(), 0);
    let once = merged(fields, child);
    let at = position(fields, child.name(), 0);
    lemma_position(once, child.name(), 0);
    if at == fields.len() {
        assert(once[at] == child);
        assert(position(once, child.name(), 0) <= at) by {
            if position(once, child.name(), 0) > at {
                assert(once[at].name() != child.name());
            }
        }
    } else {
        assert(once == fields);
    }
}

proof fn lemma_fields_are_views(def: TypeDefinition)
    ensures
        def@.fields() == views(def.fields()),
        def@.name() == def.name@,
{
    match def.ts_type {
        TypeDef::SimpleType(_) => {
            assert(def@.fields() =~= views(def.fields()));
        },
        TypeDef::NestedType(children) => {
            assert(def@.fields().len() == children@.len());
            assert forall|i: int| 0 <= i < children@.len() implies def@.fields()[i] == views(
                children@,
            )[i] by {}
            assert(def@.fields() =~= views(def.fields()));
        },
    }
}

proof fn lemma_child_smaller(def: TypeDefinition, i: int)
    requires
        0 <= i < def.fields().len(),
    ensures
        decreases_to!(def => def.fields()[i]),
{
    match def.ts_type {
        TypeDef::SimpleType(_) => {},
        TypeDef::NestedType(children) => {
            assert(decreases_to!(def => def.ts_type));
            assert(decreases_to!(def.ts_type => children));
            assert(decreases_to!(children => children@));
            assert(decreases_to!(children@ => children@[i]));
        },
    }
}

fn merge_into(fields: Vec<TypeDefinition>, child: TypeDefinition) -> (out: Vec<TypeDefinition>)
    ensures
        views(out@) == merged(views(fields@), child@),
    decreases child,
{
    let mut fields = fields;
    let ghost before = views(fields@);
    let mut at: usize = 0;
    proof {
        lemma_fields_are_views(child);
    }
    while at < fields.len() && !(fields[at].name == child.name)
        invariant
            at <= fields.len(),
            before == views(fields@),
            child@.name() == child.name@,
            position(before, child@.name(), at as int) == position(before, child@.name(), 0),
        decreases fields.len() - at,
    {
        proof {
            lemma_fields_are_views(fields@[at as int]);
        }
        at += 1;
    }
    if at == fields.len() {
        fields.push(child);
        assert(views(fields@) =~= before.push(child@));
        fields
    } else {
        proof {
            lemma_fields_are_views(fields@[at as int]);
        }
        let ghost whole = child;
        let TypeDefinition { name: _, ts_type } = child;
        match ts_type {
            TypeDef::SimpleType(_) => fields,
            TypeDef::NestedType(added) => {
                let existing = fields.remove(at);
                let ghost held = existing;
                let TypeDefinition { name, ts_type: held_type } = existing;
                let base = match held_type {
                    TypeDef::SimpleType(_) => Vec::new(),
                    TypeDef::NestedType(children) => children,
                };
                proof {
                    lemma_fields_are_views(held);
                    lemma_fields_are_views(whole);
                    assert(views(base@) =~= held@.fields());
                    assert(decreases_to!(whole => whole.ts_type));
                    assert(decreases_to!(whole.ts_type => added));
                    assert(decreases_to!(added => added@));
                }
                let all = merge_all(base, added);
                let replaced = TypeDefinition { name, ts_type: TypeDef::NestedType(all) };
                proof {
                    lemma_fields_are_views(replaced);
                }
                fields.insert(at, replaced);
                assert(views(fields@) =~= before.update(at as int, replaced@));
                fields
            },
        }
    }
}

fn merge_all(fields: Vec<TypeDefinition>, added: Vec<TypeDefinition>) -> (out: Vec<TypeDefinition>)
    ensures
        views(out@) == merged_all(views(fields@), views(added@), 0),
    decreases added@,
{
    let ghost all = added@;
    let ghost start = views(fields@);
    let mut out = fields;
    let mut rest = added;
    let ghost mut from: int = 0;
    assert(rest@ =~= all.subrange(0, all.len() as int));
    while rest.len() > 0
        invariant
            0 <= from <= all.len(),
            all == added@,
            rest@ == all.subrange(from, all.len() as int),
            merged_all(views(out@), views(all), from) == merged_all(start, views(all), 0),
        decreases rest.len(),
    {
        let ghost held = rest@;
        let next = rest.remove(0);
        assert(next == all[from]);
        proof {
            vstd::seq::axiom_seq_index_decreases(all, from);
        }
        assert(rest@ =~= all.subrange(from + 1, all.len() as int));
        out = merge_into(out, next);
        proof {
            from = from + 1;
        }
    }
    out
}

/// Whether the bytes of `a` from `at` on come before those of `b`, or are the
/// same: the order of a dictionary, byte by byte.
pub open spec fn bytes_in_order(a: Seq<u8>, b: Seq<u8>, at: int) -> bool
    decreases a.len() - at,
{
    if at < 0 || at >= a.len() {
        true
    } else if at >= b.len() {
        false
    } else if a[at] != b[at] {
        a[at] < b[at]
    } else {
        bytes_in_order(a, b, at + 1)
    }
}

/// Whether the name `a` sorts before `b` or is the same.
pub open spec fn name_le(a: Seq<char>, b: Seq<char>) -> bool {
    bytes_in_order(encode_utf8(a), encode_utf8(b), 0)
}

/// Where a field called `name` goes into the ordered `order`: behind every
/// field whose name does not sort behind it.
pub open spec fn order_position(names: Seq<Seq<char>>, order: Seq<int>, name: Seq<char>) -> int
    decreases order.len(),
{
    if order.len() == 0 || !name_le(names[order[0]], name) {
        0
    } else {
        1 + order_position(names, order.drop_first(), name)
    }
}

/// The places of the first `count` names, in the order of the names; equal
/// names keep their order.
pub open spec fn sorted_order(names: Seq<Seq<char>>, count: nat) -> Seq<int>
    decreases count,
{
    if count == 0 {
        Seq::empty()
    } else {
        let front = sorted_order(names, (count - 1) as nat);
        front.insert(order_position(names, front, names[count - 1]), count - 1)
    }
}

/// The names of a list of fields.
pub open spec fn names_of(fields: Seq<Descriptor>) -> Seq<Seq<char>> {
    Seq::new(fields.len(), |i: int| fields[i].name())
}

/// Four blanks for every level.
pub open spec fn spacing(depth: nat) -> Seq<char>
    decreases depth,
{
    if depth == 0 {
        Seq::empty()
    } else {
        spacing((depth - 1) as nat) + "    "@
    }
}

/// The nearest expression statement at or above `node` that is reached before
/// a list of arguments or of parameters.
pub open spec fn enclosing_statement(rows: Seq<SyntaxRow>, node: int) -> Option<int>
    decreases node,
{
    if node < 0 || node >= rows.len() {
        None
    } else if rows[node].kind == ARG_LIST || rows[node].kind == PARAMETER_LIST {
        None
    } else if rows[node].kind == EXPR_STMT {
        Some(node)
    } else {
        match parent_of(rows, node) {
            Some(parent) => if 0 <= parent < node {
                enclosing_statement(rows, parent)
            } else {
                None
            },
            None => None,
        }
    }
}

/// The type that a leaf is written with: for an assignment the type of the
/// statement that holds it, for every other expression its own, and `any`
/// where that tells nothing.
pub open spec fn leaf_type(rows: Seq<SyntaxRow>, expr: Option<usize>) -> Seq<char> {
    let found = match expr {
        None => Some("any"@),
        Some(node) => if node < rows.len() && rows[node as int].kind == ASSIGN_EXPR {
            match enclosing_statement(rows, node as int) {
                None => None,
                Some(statement) => match first_child(rows, statement, Want::Expr) {
                    None => Some("any"@),
                    Some(inner) => type_of_node(rows, inner),
                },
            }
        } else {
            type_of_node(rows, node as int)
        },
    };
    match found {
        Some(name) => name,
        None => "any"@,
    }
}

/// The text of a definition at a depth. A leaf is one line, `name: type,`. A
/// branch at depth 0 is the text of its fields; deeper it wraps them in
/// `name: {` and `},`. The fields come in the order of their names.
pub open spec fn rendered(rows: Seq<SyntaxRow>, def: Descriptor, depth: nat) -> Seq<char>
    decreases def, 0nat,
{
    match def {
        Descriptor::Leaf { name, expr } => spacing(depth) + name + ": "@ + leaf_type(rows, expr)
            + ",\n"@,
        Descriptor::Branch { name, fields } => {
            let order = sorted_order(names_of(fields), fields.len());
            let body = rendered_fields(rows, fields, order, order.len(), depth + 1);
            if depth == 0 {
                body
            } else {
                spacing(depth) + name + ": {\n"@ + body + spacing(depth) + "},\n"@
            }
        },
    }
}

/// The texts of the fields at the first `count` places of `order`, one after
/// the other.
pub open spec fn rendered_fields(
    rows: Seq<SyntaxRow>,
    fields: Seq<Descriptor>,
    order: Seq<int>,
    count: nat,
    depth: nat,
) -> Seq<char>
    decreases fields, count,
{
    if count == 0 {
        Seq::empty()
    } else {
        let front = rendered_fields(rows, fields, order, (count - 1) as nat, depth);
        if count <= order.len() && 0 <= order[count - 1] < fields.len() {
            front + rendered(rows, fields[order[count - 1]], depth)
        } else {
            front
        }
    }
}

/// The declaration of an interface called `name` with the fields of `def`.
pub open spec fn interface_text(rows: Seq<SyntaxRow>, def: Descriptor, name: Seq<char>) -> Seq<
    char,
> {
    "\ninterface "@ + name + " {\n"@ + rendered(rows, def, 0) + "}\n"@
}

/// Of two names one sorts before the other, or they are the same.
pub proof fn lemma_bytes_order_total(a: Seq<u8>, b: Seq<u8>, at: int)
    requires
        0 <= at,
    ensures
        bytes_in_order(a, b, at) || bytes_in_order(b, a, at),
    decreases a.len() - at,
{
    if at < a.len() && at < b.len() && a[at] == b[at] {
        lemma_bytes_order_total(a, b, at + 1);
    }
}

/// What sorts before a name sorts before everything behind that name.
pub proof fn lemma_bytes_order_transitive(a: Seq<u8>, b: Seq<u8>, c: Seq<u8>, at: int)
    requires
        0 <= at,
        bytes_in_order(a, b, at),
        bytes_in_order(b, c, at),
    ensures
        bytes_in_order(a, c, at),
    decreases a.len() - at,
{
    if at < a.len() && at < b.len() && at < c.len() && a[at] == b[at] && b[at] == c[at] {
        lemma_bytes_order_transitive(a, b, c, at + 1);
    }
}

proof fn lemma_order_position_in_range(names: Seq<Seq<char>>, order: Seq<int>, name: Seq<char>)
    ensures
        0 <= order_position(names, order, name) <= order.len(),
        forall|k: int|
            0 <= k < order_position(names, order, name) ==> name_le(
                names[#[trigger] order[k]],
                name,
            ),
        order_position(names, order, name) < order.len() ==> !name_le(
            names[order[order_position(names, order, name)]],
            name,
        ),
    decreases order.len(),
{
    if order.len() == 0 || !name_le(names[order[0]], name) {
    } else {
        let rest = order.drop_first();
        lemma_order_position_in_range(names, rest, name);
        let at = order_position(names, order, name);
        assert forall|k: int| 0 <= k < at implies name_le(names[#[trigger] order[k]], name) by {
            if k > 0 {
                assert(order[k] == rest[k - 1]);
            }
        }
        if at < order.len() {
            assert(order[at] == rest[at - 1]);
        }
    }
}

/// The order of rendering names every field once, and the names never
/// decrease along it: the fields are written in the order of a dictionary
/// whatever the order in which they were found.
pub proof fn lemma_sorted_order(names: Seq<Seq<char>>, count: nat)
    requires
        count <= names.len(),
    ensures
        sorted_order(names, count).len() == count,
        forall|k: int|
            0 <= k < count ==> 0 <= #[trigger] sorted_order(names, count)[k] < count,
        forall|i: int, j: int|
            0 <= i < j < count ==> #[trigger] sorted_order(names, count)[i]
                != #[trigger] sorted_order(names, count)[j],
        forall|i: int, j: int|
            0 <= i <= j < count ==> name_le(
                names[#[trigger] sorted_order(names, count)[i]],
                names[#[trigger] sorted_order(names, count)[j]],
            ),
    decreases count,
{
    if count > 0 {
        let front = sorted_order(names, (count - 1) as nat);
        lemma_sorted_order(names, (count - 1) as nat);
        let name = names[count - 1];
        let at = order_position(names, front, name);
        lemma_order_position_in_range(names, front, name);
        let order = front.insert(at, count - 1);
        assert(order == sorted_order(names, count));
        assert forall|k: int| 0 <= k < count implies 0 <= #[trigger] order[k] < count by {
            if k < at {
                assert(order[k] == front[k]);
            } else if k > at {
                assert(order[k] == front[k - 1]);
            }
        }
        assert forall|i: int, j: int| 0 <= i < j < count implies #[trigger] order[i]
            != #[trigger] order[j] by {
            let fi = if i < at { i } else { i - 1 };
            let fj = if j < at { j } else { j - 1 };
            if i != at {
                assert(order[i] == front[fi]);
            }
            if j != at {
                assert(order[j] == front[fj]);
            }
        }
        assert forall|i: int, j: int| 0 <= i <= j < count implies name_le(
            names[#[trigger] order[i]],
            names[#[trigger] order[j]],
        ) by {
            let fi = if i < at { i } else { i - 1 };
            let fj = if j < at { j } else { j - 1 };
            if i != at {
                assert(order[i] == front[fi]);
            }
            if j != at {
                assert(order[j] == front[fj]);
            }
            if i == at && j == at {
                lemma_bytes_order_total(encode_utf8(name), encode_utf8(name), 0);
            } else if i == at {
                let first_behind = names[front[at]];
                lemma_bytes_order_total(encode_utf8(first_behind), encode_utf8(name), 0);
                assert(name_le(first_behind, names[front[fj]]));
                lemma_bytes_order_transitive(
                    encode_utf8(name),
                    encode_utf8(first_behind),
                    encode_utf8(names[front[fj]]),
                    0,
                );
            } else if j == at {
            } else {
                assert(name_le(names[front[fi]], names[front[fj]]));
            }
        }
    }
}

fn in_name_order(a: &String, b: &String) -> (yes: bool)
    ensures
        yes == name_le(a@, b@),
{
    let left = a.as_str().as_bytes();
    let right = b.as_str().as_bytes();
    let mut at: usize = 0;
    while at < left.len()
        invariant
            left@ == encode_utf8(a@),
            right@ == encode_utf8(b@),
            bytes_in_order(left@, right@, at as int) == bytes_in_order(left@, right@, 0),
        decreases left.len() - at,
    {
        if at >= right.len() {
            return false;
        }
        if left[at] != right[at] {
            return left[at] < right[at];
        }
        at += 1;
    }
    true
}

proof fn lemma_order_position(names: Seq<Seq<char>>, order: Seq<int>, name: Seq<char>, at: int)
    requires
        0 <= at <= order.len(),
        forall|k: int| 0 <= k < at ==> name_le(names[#[trigger] order[k]], name),
        at == order.len() || !name_le(names[order[at]], name),
    ensures
        order_position(names, order, name) == at,
    decreases order.len(),
{
    if at > 0 {
        let rest = order.drop_first();
        assert forall|k: int| 0 <= k < at - 1 implies name_le(names[#[trigger] rest[k]], name) by {
            assert(rest[k] == order[k + 1]);
        }
        lemma_order_position(names, rest, name, at - 1);
    }
}

fn name_order(children: &Vec<TypeDefinition>) -> (order: Vec<usize>)
    ensures
        order@.map_values(|i: usize| i as int) == sorted_order(
            names_of(views(children@)),
            children.len() as nat,
        ),
        forall|k: int| 0 <= k < order.len() ==> order[k] < children.len(),
{
    let ghost names = names_of(views(children@));
    let mut order: Vec<usize> = Vec::new();
    let mut i: usize = 0;
    assert(order@.map_values(|i: usize| i as int) =~= Seq::<int>::empty());
    while i < children.len()
        invariant
            i <= children.len(),
            names == names_of(views(children@)),
            order@.map_values(|i: usize| i as int) == sorted_order(names, i as nat),
            forall|k: int| 0 <= k < order.len() ==> order[k] < children.len(),
        decreases children.len() - i,
    {
        let ghost front = order@.map_values(|i: usize| i as int);
        let mut at: usize = 0;
        proof {
            lemma_fields_are_views(children@[i as int]);
        }
        while at < order.len() && in_name_order(&children[order[at]].name, &children[i].name)
            invariant
                at <= order.len(),
                i < children.len(),
                names == names_of(views(children@)),
                front == order@.map_values(|i: usize| i as int),
                forall|k: int| 0 <= k < order.len() ==> order[k] < children.len(),
                forall|k: int| 0 <= k < at ==> name_le(names[#[trigger] front[k]], names[i as int]),
            decreases order.len() - at,
        {
            proof {
                lemma_fields_are_views(children@[order@[at as int] as int]);
            }
            at += 1;
        }
        proof {
            if at < order.len() {
                lemma_fields_are_views(children@[order@[at as int] as int]);
            }
            lemma_order_position(names, front, names[i as int], at as int);
        }
        order.insert(at, i);
        assert(order@.map_values(|i: usize| i as int) =~= front.insert(at as int, i as int));
        i += 1;
    }
    order
}

fn find_enclosing_statement(rows: &Vec<SyntaxRow>, node: usize) -> (found: Option<usize>)
    ensures
        found.is_some() == enclosing_statement(rows@, node as int).is_some(),
        found matches Some(s) ==> enclosing_statement(rows@, node as int) == Some(s as int) && s
            < rows.len(),
{
    let mut at: usize = node;
    loop
        invariant
            enclosing_statement(rows@, at as int) == enclosing_statement(rows@, node as int),
        decreases at,
    {
        if at >= rows.len() {
            return None;
        }
        if rows[at].kind == ARG_LIST || rows[at].kind == PARAMETER_LIST {
            return None;
        }
        if rows[at].kind == EXPR_STMT {
            return Some(at);
        }
        match find_parent(rows, at) {
            Some(parent) => {
                at = parent;
            },
            None => {
                return None;
            },
        }
    }
}

fn leaf_type_name(rows: &Vec<SyntaxRow>, expr: Option<usize>) -> (name: String)
    ensures
        name@ == leaf_type(rows@, expr),
{
    let found = match expr {
        None => Some("any".to_owned()),
        Some(node) => if node < rows.len() && rows[node].kind == ASSIGN_EXPR {
            match find_enclosing_statement(rows, node) {
                None => None,
                Some(statement) => match find_first_child(rows, statement, Want::Expr) {
                    None => Some("any".to_owned()),
                    Some(inner) => resolve_node(rows, inner),
                },
            }
        } else {
            resolve_node(rows, node)
        },
    };
    match found {
        Some(name) => name,
        None => "any".to_owned(),
    }
}

impl TypeDefinition {
    /// The fields of a branch; a leaf has none.
    pub open spec fn fields(&self) -> Seq<TypeDefinition> {
        match self.ts_type {
            TypeDef::SimpleType(_) => Seq::empty(),
            TypeDef::NestedType(children) => children@,
        }
    }

    /// A leaf called `name`, with the row of the expression that tells its
    /// type.
    pub fn new(name: String, expr: Option<usize>) -> (def: TypeDefinition)
        ensures
            def@ == (Descriptor::Leaf { name: name@, expr }),
    {
        TypeDefinition { name, ts_type: TypeDef::SimpleType(expr) }
    }

    /// Makes `new_type_def` a field of this definition, merging it with a
    /// field of the same name.
    pub fn add_field(&mut self, new_type_def: TypeDefinition)
        ensures
            final(self)@ == with_field(old(self)@, new_type_def@),
            well_formed(old(self)@) && well_formed(new_type_def@) ==> well_formed(final(self)@),
    {
        proof {
            if well_formed(self@) && well_formed(new_type_def@) {
                lemma_with_field_well_formed(self@, new_type_def@);
            }
        }
        let mut taken = TypeDefinition { name: String::new(), ts_type: TypeDef::SimpleType(None) };
        std::mem::swap(self, &mut taken);
        let ghost before = taken;
        let TypeDefinition { name, ts_type } = taken;
        let fields = match ts_type {
            TypeDef::SimpleType(_) => {
                let mut only: Vec<TypeDefinition> = Vec::new();
                only.push(new_type_def);
                assert(views(only@) =~= seq![new_type_def@]);
                only
            },
            TypeDef::NestedType(children) => {
                proof {
                    lemma_fields_are_views(before);
                }
                merge_into(children, new_type_def)
            },
        };
        let after = TypeDefinition { name, ts_type: TypeDef::NestedType(fields) };
        proof {
            lemma_fields_are_views(after);
        }
        *self = after;
    }

    fn render(&self, rows: &Vec<SyntaxRow>, indent: &str, Ghost(depth): Ghost<nat>) -> (out: String)
        requires
            indent@ == spacing(depth),
        ensures
            out@ == rendered(rows@, self@, depth),
        decreases self,
    {
        let mut buf = String::new();
        match &self.ts_type {
            TypeDef::SimpleType(expr) => {
                buf.append(indent);
                buf.append(self.name.as_str());
                buf.append(": ");
                let resolved = leaf_type_name(rows, *expr);
                buf.append(resolved.as_str());
                buf.append(",\n");
                assert(buf@ =~= spacing(depth) + self.name@ + ": "@ + leaf_type(rows@, *expr)
                    + ",\n"@);
                buf
            },
            TypeDef::NestedType(children) => {
                proof {
                    lemma_fields_are_views(*self);
                }
                let order = name_order(children);
                let ghost places = order@.map_values(|i: usize| i as int);
                let ghost fields = self@.fields();
                let deeper = String::from_str(indent).concat("    ");
                let mut body = String::new();
                let mut k: usize = 0;
                assert(body@ =~= rendered_fields(rows@, fields, places, 0, depth + 1));
                while k < order.len()
                    invariant
                        k <= order.len(),
                        children@ == self.fields(),
                        fields == views(children@),
                        places == order@.map_values(|i: usize| i as int),
                        forall|j: int| 0 <= j < order.len() ==> order[j] < children.len(),
                        deeper@ == spacing(depth + 1),
                        body@ == rendered_fields(rows@, fields, places, k as nat, depth + 1),
                    decreases order.len() - k,
                {
                    proof {
                        lemma_child_smaller(*self, order@[k as int] as int);
                    }
                    let piece = children[order[k]].render(
                        rows,
                        deeper.as_str(),
                        Ghost(depth + 1),
                    );
                    body.append(piece.as_str());
                    k += 1;
                }
                if indent.is_empty() {
                    assert(depth == 0) by {
                        reveal_strlit("    ");
                        if depth > 0 {
                            assert(spacing(depth).len() >= 4);
                        }
                    }
                    body
                } else {
                    assert(depth != 0) by {
                        if depth == 0 {
                            assert(indent@.len() == 0);
                        }
                    }
                    buf.append(indent);
                    buf.append(self.name.as_str());
                    buf.append(": {\n");
                    buf.append(body.as_str());
                    buf.append(indent);
                    buf.append("},\n");
                    assert(buf@ =~= spacing(depth) + self.name@ + ": {\n"@ + body@ + spacing(depth)
                        + "},\n"@);
                    buf
                }
            },
        }
    }
}

/// Writes the declaration of an interface called `name` with the fields of
/// `def`, the types of the leaves taken from `rows`.
pub fn create_type_definition(def: &TypeDefinition, name: &str, rows: &Vec<SyntaxRow>) -> (out:
    String)
    ensures
        out@ == interface_text(rows@, def@, name@),
{
    proof {
        reveal_strlit("");
        assert(""@ =~= spacing(0));
    }
    let definition = def.render(rows, "", Ghost(0));
    let mut buf = String::from_str("\ninterface ");
    buf.append(name);
    buf.append(" {\n");
    buf.append(definition.as_str());
    buf.append("}\n");
    assert(buf@ =~= interface_text(rows@, def@, name@));
    buf
}

} // verus!
