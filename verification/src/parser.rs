//! The walk over the declarations of one file.
//!
//! Every parameter list, variable declarator, catch clause and class
//! declaration is looked at once, in document order. What is found becomes an
//! insertion into the source: a type behind a binding, type arguments behind
//! a superclass, or the declaration of an interface at the start of the file.

pub use crate::naming::get_collision_free_typename;
use crate::naming::{free_name, names_of, pascal_case, to_pascal_case};
use crate::resolver::{get_type_from_expression, name_view, resolved_type, text_equals};
use crate::syntax::{
    find_first_child, find_next_child, find_parent, first_child, lemma_next_child, next_child,
    parent_of,
    SyntaxRow, Want, ARRAY_EXPR, ARROW_EXPR, ASSIGN_PATTERN, CATCH_CLAUSE, CLASS_DECL,
    CONSTRUCTOR, DECLARATOR, DOT_EXPR, FN_DECL, FN_EXPR, FOR_STMT_INIT, LITERAL, METHOD, NAME,
    NAME_REF, NULL_KW, OBJECT_PATTERN, PARAMETER_LIST, SINGLE_PATTERN, SPREAD_ELEMENT,
    TS_TYPE_ARGS,
};
use crate::text_editor::{
    is_insertion_point, lemma_patched_without_edits, lemma_start_is_insertion_point, patched,
    stable_sorted, Edit, Range, TextEdit, TextEditor,
};
use crate::type_definition::{
    create_type_definition, interface_text, Descriptor, TypeDef, TypeDefinition,
};
use crate::usage::{define_type_based_on_usage, usage};
use vstd::prelude::*;
use vstd::string::*;

verus! {

/// Why a source was not annotated.
#[derive(Debug)]
pub enum AnnotationError {
    /// The row with this number ends at an offset that lies outside the
    /// source or cuts a character in two: the rows do not belong to the
    /// source.
    OffsetOutOfRange(usize),
}

/// What the walk has gathered so far.
pub ghost struct Progress {
    /// The insertions, in the order in which they were recorded.
    pub edits: Seq<Edit>,
    /// The names of the interfaces declared for parameters.
    pub created: Seq<Seq<char>>,
}

/// What kind of node is looked for above a node.
#[derive(Clone, Copy)]
pub enum Enclosing {
    /// A function declaration, constructor, method, arrow function or
    /// function expression.
    Function,
    /// The head of a `for` statement.
    LoopHead,
}

/// Whether the rows can belong to the source: every row ends at a place of
/// the source at which text can be inserted.
pub open spec fn rows_fit(source: Seq<char>, rows: Seq<SyntaxRow>) -> bool {
    forall|i: int|
        0 <= i < rows.len() ==> is_insertion_point(source, (#[trigger] rows[i]).end as int)
}

/// Whether a node of kind `kind` is what `which` looks for.
pub open spec fn encloses(kind: u16, which: Enclosing) -> bool {
    match which {
        Enclosing::Function => kind == FN_DECL || kind == CONSTRUCTOR || kind == METHOD || kind
            == ARROW_EXPR || kind == FN_EXPR,
        Enclosing::LoopHead => kind == FOR_STMT_INIT,
    }
}

/// The nearest node at or above `node` that `which` looks for.
pub open spec fn enclosing(rows: Seq<SyntaxRow>, node: int, which: Enclosing) -> Option<int>
    decreases node,
{
    if node < 0 || node >= rows.len() {
        None
    } else if encloses(rows[node].kind, which) {
        Some(node)
    } else {
        match parent_of(rows, node) {
            Some(parent) => if 0 <= parent < node {
                enclosing(rows, parent, which)
            } else {
                None
            },
            None => None,
        }
    }
}

/// The edits with one more insertion.
pub open spec fn recorded(edits: Seq<Edit>, offset: int, text: Seq<char>) -> Seq<Edit> {
    edits.push(Edit { offset, text })
}

/// The annotation of a binding pattern: the offset behind the bound name, or
/// behind the closing brace of an object pattern, and the text `: type`. A
/// pattern that has a type already, a rest pattern and a pattern whose type is
/// unresolved get none. The type is `given` where the caller has one; else it
/// is read off `expr`, or for a pattern with a default off that default.
pub open spec fn pattern_annotation(
    rows: Seq<SyntaxRow>,
    pattern: int,
    expr: Option<usize>,
    given: Option<Seq<char>>,
) -> Option<(usize, Seq<char>)> {
    let kind = rows[pattern].kind;
    if first_child(rows, pattern, Want::Type).is_some() {
        None
    } else if kind == SINGLE_PATTERN || kind == ASSIGN_PATTERN || kind == OBJECT_PATTERN {
        let source = if kind == ASSIGN_PATTERN && expr.is_none() {
            match first_child(rows, pattern, Want::Expr) {
                Some(value) => Some(value as usize),
                None => None,
            }
        } else {
            expr
        };
        let found = match given {
            Some(name) => Some(name),
            None => resolved_type(rows, source),
        };
        match found {
            None => None,
            Some(name) => if kind == OBJECT_PATTERN {
                Some((rows[pattern].end, ": "@ + name))
            } else {
                match first_child(rows, pattern, Want::Kind(NAME)) {
                    Some(bound) => Some((rows[bound].end, ": "@ + name)),
                    None => None,
                }
            },
        }
    } else {
        None
    }
}

/// The edits after the pattern at `pattern` was annotated.
pub open spec fn annotated_pattern(
    rows: Seq<SyntaxRow>,
    pattern: int,
    expr: Option<usize>,
    given: Option<Seq<char>>,
    edits: Seq<Edit>,
) -> Seq<Edit> {
    match pattern_annotation(rows, pattern, expr, given) {
        Some((offset, text)) => recorded(edits, offset as int, text),
        None => edits,
    }
}

/// The name that a parameter binds: the name directly below a plain pattern
/// or a pattern with a default. A pattern that has a type already, and one
/// that binds several names or the rest, has none.
pub open spec fn bound_name(rows: Seq<SyntaxRow>, pattern: int) -> Option<int> {
    let kind = rows[pattern].kind;
    if first_child(rows, pattern, Want::Type).is_some() {
        None
    } else if kind == SINGLE_PATTERN || kind == ASSIGN_PATTERN {
        first_child(rows, pattern, Want::Kind(NAME))
    } else {
        None
    }
}

/// The edits after the pattern at `parameter` got the type that its own
/// shape tells.
pub open spec fn plainly_annotated(rows: Seq<SyntaxRow>, parameter: int, progress: Progress)
    -> Progress {
    Progress {
        edits: annotated_pattern(rows, parameter, None, None, progress.edits),
        created: progress.created,
    }
}

/// What one parameter adds: where the function uses fields of the name that
/// it binds, an interface under a free name at the start of the file and
/// that name behind the parameter, whatever its default; else the type of
/// its default, or `any`.
pub open spec fn parameter_step(
    rows: Seq<SyntaxRow>,
    scope: int,
    parameter: int,
    progress: Progress,
) -> Progress {
    match bound_name(rows, parameter) {
        None => plainly_annotated(rows, parameter, progress),
        Some(bound) => {
            let name = rows[bound].text@;
            match usage(rows, scope, name) {
                None => plainly_annotated(rows, parameter, progress),
                Some(fields) => {
                    let unique = free_name(progress.created, pascal_case(name));
                    let declared = recorded(
                        progress.edits,
                        0,
                        interface_text(rows, fields, unique),
                    );
                    Progress {
                        edits: annotated_pattern(rows, parameter, None, Some(unique), declared),
                        created: progress.created.push(unique),
                    }
                },
            }
        },
    }
}

/// What the parameters of a list of depth `depth`, from row `at` on, add.
pub open spec fn parameters_from(
    rows: Seq<SyntaxRow>,
    scope: int,
    depth: usize,
    at: int,
    progress: Progress,
) -> Progress
    decreases rows.len() - at,
{
    match next_child(rows, depth, at, Want::Pattern) {
        None => progress,
        Some(parameter) => if parameter < at || parameter >= rows.len() {
            progress
        } else {
            parameters_from(
                rows,
                scope,
                depth,
                parameter + 1,
                parameter_step(rows, scope, parameter, progress),
            )
        },
    }
}

/// Whether an initializer leaves the type of a variable open: `null`,
/// `undefined` or an array literal without elements.
pub open spec fn is_open_initializer(rows: Seq<SyntaxRow>, value: int) -> bool {
    ||| rows[value].kind == LITERAL && rows[value].token == Some(NULL_KW)
    ||| rows[value].kind == NAME_REF && rows[value].text@ == "undefined"@
    ||| is_empty_array(rows, value)
}

/// Whether the node is an array literal without elements.
pub open spec fn is_empty_array(rows: Seq<SyntaxRow>, value: int) -> bool {
    &&& rows[value].kind == ARRAY_EXPR
    &&& first_child(rows, value, Want::Expr).is_none()
    &&& first_child(rows, value, Want::Kind(SPREAD_ELEMENT)).is_none()
}

/// What a variable declarator adds: a type behind its pattern where it has no
/// initializer or an open one, and nothing in the head of a `for` statement.
pub open spec fn declarator_step(rows: Seq<SyntaxRow>, node: int, edits: Seq<Edit>) -> Seq<Edit> {
    if enclosing(rows, node, Enclosing::LoopHead).is_some() {
        edits
    } else {
        match first_child(rows, node, Want::Pattern) {
            None => edits,
            Some(pattern) => match first_child(rows, node, Want::Expr) {
                None => annotated_pattern(rows, pattern, None, None, edits),
                Some(value) => if is_empty_array(rows, value) {
                    annotated_pattern(rows, pattern, Some(value as usize), None, edits)
                } else if is_open_initializer(rows, value) {
                    annotated_pattern(rows, pattern, None, None, edits)
                } else {
                    edits
                },
            },
        }
    }
}

/// Whether the expression names `Component` or `PureComponent`, bare or as
/// the property of a member access.
pub open spec fn is_component(rows: Seq<SyntaxRow>, expr: int) -> bool {
    if rows[expr].kind == NAME_REF {
        rows[expr].text@ == "Component"@ || rows[expr].text@ == "PureComponent"@
    } else if rows[expr].kind == DOT_EXPR {
        match first_child(rows, expr, Want::Kind(NAME)) {
            Some(property) => rows[property].text@ == "Component"@ || rows[property].text@
                == "PureComponent"@,
            None => false,
        }
    } else {
        false
    }
}

/// A branch without fields.
pub open spec fn empty_branch(name: Seq<char>) -> Descriptor {
    Descriptor::Branch { name, fields: Seq::empty() }
}

/// What a class declaration adds. Only a class that extends a component
/// without type arguments adds anything: with a use of `this.state`, the
/// interfaces `Props` and `State` and the arguments `<Props, State>`; with a
/// use of `this.props` alone, the interface `Props` and `<Props>`; with
/// neither, `<any, any>`.
pub open spec fn class_step(rows: Seq<SyntaxRow>, node: int, edits: Seq<Edit>) -> Seq<Edit> {
    match first_child(rows, node, Want::Expr) {
        None => edits,
        Some(parent) => if !is_component(rows, parent) || first_child(
            rows,
            node,
            Want::Kind(TS_TYPE_ARGS),
        ).is_some() {
            edits
        } else {
            let props = usage(rows, node, "props"@);
            let state = usage(rows, node, "state"@);
            let behind = rows[parent].end as int;
            match state {
                Some(state_fields) => {
                    let props_fields = match props {
                        Some(fields) => fields,
                        None => empty_branch("Props"@),
                    };
                    let first = recorded(edits, 0, interface_text(rows, props_fields, "Props"@));
                    let second = recorded(first, 0, interface_text(rows, state_fields, "State"@));
                    recorded(second, behind, "<Props, State>"@)
                },
                None => match props {
                    Some(fields) => recorded(
                        recorded(edits, 0, interface_text(rows, fields, "Props"@)),
                        behind,
                        "<Props>"@,
                    ),
                    None => recorded(edits, behind, "<any, any>"@),
                },
            }
        },
    }
}

/// What the row `node` adds to the progress.
pub open spec fn step(rows: Seq<SyntaxRow>, node: int, progress: Progress) -> Progress {
    let kind = rows[node].kind;
    if kind == PARAMETER_LIST {
        match enclosing(rows, node, Enclosing::Function) {
            Some(scope) => parameters_from(rows, scope, rows[node].depth, node + 1, progress),
            None => progress,
        }
    } else if kind == DECLARATOR {
        Progress {
            edits: declarator_step(rows, node, progress.edits),
            created: progress.created,
        }
    } else if kind == CATCH_CLAUSE {
        match first_child(rows, node, Want::Pattern) {
            Some(pattern) => plainly_annotated(rows, pattern, progress),
            None => progress,
        }
    } else if kind == CLASS_DECL {
        Progress { edits: class_step(rows, node, progress.edits), created: progress.created }
    } else {
        progress
    }
}

/// The progress after the rows from `at` on were looked at.
pub open spec fn walk(rows: Seq<SyntaxRow>, at: int, progress: Progress) -> Progress
    decreases rows.len() - at,
{
    if at < 0 || at >= rows.len() {
        progress
    } else {
        walk(rows, at + 1, step(rows, at, progress))
    }
}

/// The insertions that the annotation records, in the order of the walk.
pub open spec fn annotation_edits(rows: Seq<SyntaxRow>) -> Seq<Edit> {
    walk(rows, 0, Progress { edits: Seq::empty(), created: Seq::empty() }).edits
}

/// The source with its annotations: the recorded insertions in the order of
/// their offsets, those at one offset in the order of the walk.
pub open spec fn annotated(source: Seq<char>, rows: Seq<SyntaxRow>) -> Seq<char> {
    patched(source, stable_sorted(annotation_edits(rows)), 0)
}

/// A source for which the walk records nothing comes back as it is.
pub proof fn lemma_nothing_recorded_nothing_changed(source: Seq<char>, rows: Seq<SyntaxRow>)
    requires
        annotation_edits(rows) == Seq::<Edit>::empty(),
    ensures
        annotated(source, rows) == source,
{
    lemma_patched_without_edits(source);
}

/// Whether nothing is left to annotate: every binding pattern has a type,
/// and every class that extends a component has type arguments.
pub open spec fn settled(rows: Seq<SyntaxRow>) -> bool {
    &&& forall|pattern: int|
        0 <= pattern < rows.len() && (#[trigger] rows[pattern]).is_pattern ==> first_child(
            rows,
            pattern,
            Want::Type,
        ).is_some()
    &&& forall|class: int|
        0 <= class < rows.len() && (#[trigger] rows[class]).kind == CLASS_DECL ==> first_child(
            rows,
            class,
            Want::Kind(TS_TYPE_ARGS),
        ).is_some() || (first_child(rows, class, Want::Expr) matches Some(parent)
            ==> !is_component(rows, parent))
}

proof fn lemma_settled_parameters(
    rows: Seq<SyntaxRow>,
    scope: int,
    depth: usize,
    at: int,
    progress: Progress,
)
    requires
        settled(rows),
    ensures
        parameters_from(rows, scope, depth, at, progress) == progress,
    decreases rows.len() - at,
{
    lemma_next_child(rows, depth, at, Want::Pattern);
    match next_child(rows, depth, at, Want::Pattern) {
        None => {},
        Some(parameter) => {
            assert(rows[parameter].is_pattern);
            lemma_settled_parameters(rows, scope, depth, parameter + 1, progress);
        },
    }
}

proof fn lemma_settled_step(rows: Seq<SyntaxRow>, node: int, progress: Progress)
    requires
        settled(rows),
        0 <= node < rows.len(),
    ensures
        step(rows, node, progress) == progress,
{
    let kind = rows[node].kind;
    lemma_next_child(rows, rows[node].depth, node + 1, Want::Pattern);
    if kind == PARAMETER_LIST {
        match enclosing(rows, node, Enclosing::Function) {
            Some(scope) => {
                lemma_settled_parameters(rows, scope, rows[node].depth, node + 1, progress);
            },
            None => {},
        }
    } else if kind == DECLARATOR || kind == CATCH_CLAUSE {
        match first_child(rows, node, Want::Pattern) {
            Some(pattern) => {
                assert(rows[pattern].is_pattern);
            },
            None => {},
        }
    } else if kind == CLASS_DECL {
        assert(rows[node].kind == CLASS_DECL);
    }
}

proof fn lemma_settled_walk(rows: Seq<SyntaxRow>, at: int, progress: Progress)
    requires
        settled(rows),
    ensures
        walk(rows, at, progress) == progress,
    decreases rows.len() - at,
{
    if 0 <= at < rows.len() {
        lemma_settled_step(rows, at, progress);
        lemma_settled_walk(rows, at + 1, progress);
    }
}

/// Annotating what is annotated changes nothing: where every binding pattern
/// has a type and every component class its type arguments, no insertion is
/// recorded and the source comes back as it is.
pub proof fn lemma_settled_source_unchanged(source: Seq<char>, rows: Seq<SyntaxRow>)
    requires
        settled(rows),
    ensures
        annotation_edits(rows) == Seq::<Edit>::empty(),
        annotated(source, rows) == source,
{
    lemma_settled_walk(rows, 0, Progress { edits: Seq::empty(), created: Seq::empty() });
    lemma_patched_without_edits(source);
}

/// A pattern that has a type is left as it is, whatever type is on offer,
/// and as a parameter it gets no interface either.
pub proof fn lemma_typed_pattern_untouched(
    rows: Seq<SyntaxRow>,
    pattern: int,
    expr: Option<usize>,
    given: Option<Seq<char>>,
    edits: Seq<Edit>,
    scope: int,
    progress: Progress,
)
    requires
        first_child(rows, pattern, Want::Type).is_some(),
    ensures
        annotated_pattern(rows, pattern, expr, given, edits) == edits,
        parameter_step(rows, scope, pattern, progress) == progress,
{
}

/// A class that has type arguments behind its superclass, or whose superclass
/// is no component, is left as it is.
pub proof fn lemma_other_class_untouched(rows: Seq<SyntaxRow>, node: int, edits: Seq<Edit>)
    requires
        first_child(rows, node, Want::Kind(TS_TYPE_ARGS)).is_some() || (first_child(
            rows,
            node,
            Want::Expr,
        ) matches Some(parent) ==> !is_component(rows, parent)),
    ensures
        class_step(rows, node, edits) == edits,
{
}

/// The type arguments of a component class. The last insertion that the
/// class records stands behind the superclass: `<Props, State>` where the
/// class uses `this.state`, `<Props>` where it uses `this.props` alone and
/// `<any, any>` where it uses neither.
pub proof fn lemma_class_arguments(rows: Seq<SyntaxRow>, node: int, parent: int, edits: Seq<Edit>)
    requires
        first_child(rows, node, Want::Expr) == Some(parent),
        is_component(rows, parent),
        first_child(rows, node, Want::Kind(TS_TYPE_ARGS)).is_none(),
    ensures
        class_step(rows, node, edits).len() > 0,
        class_step(rows, node, edits).last() == (Edit {
            offset: rows[parent].end as int,
            text: if usage(rows, node, "state"@).is_some() {
                "<Props, State>"@
            } else if usage(rows, node, "props"@).is_some() {
                "<Props>"@
            } else {
                "<any, any>"@
            },
        }),
{
}

/// A parameter with a default whose name the function uses gets the
/// interface, not the type of the default.
pub proof fn lemma_usage_overrides_default(
    rows: Seq<SyntaxRow>,
    scope: int,
    parameter: int,
    bound: int,
    progress: Progress,
)
    requires
        bound_name(rows, parameter) == Some(bound),
        usage(rows, scope, rows[bound].text@).is_some(),
    ensures
        ({
            let unique = free_name(progress.created, pascal_case(rows[bound].text@));
            let after = parameter_step(rows, scope, parameter, progress);
            &&& after.created == progress.created.push(unique)
            &&& after.edits.len() == progress.edits.len() + 2
            &&& after.edits[progress.edits.len() as int] == (Edit {
                offset: 0,
                text: interface_text(
                    rows,
                    usage(rows, scope, rows[bound].text@).unwrap(),
                    unique,
                ),
            })
            &&& after.edits.last() == (Edit {
                offset: rows[bound].end as int,
                text: ": "@ + unique,
            })
        }),
{
}

fn find_enclosing(rows: &Vec<SyntaxRow>, node: usize, which: Enclosing) -> (found: Option<usize>)
    ensures
        found.is_some() == enclosing(rows@, node as int, which).is_some(),
        found matches Some(n) ==> enclosing(rows@, node as int, which) == Some(n as int) && n
            < rows.len(),
{
    let mut at: usize = node;
    loop
        invariant
            enclosing(rows@, at as int, which) == enclosing(rows@, node as int, which),
        decreases at,
    {
        if at >= rows.len() {
            return None;
        }
        let kind = rows[at].kind;
        let hit = match which {
            Enclosing::Function => kind == FN_DECL || kind == CONSTRUCTOR || kind == METHOD
                || kind == ARROW_EXPR || kind == FN_EXPR,
            Enclosing::LoopHead => kind == FOR_STMT_INIT,
        };
        if hit {
            return Some(at);
        }
        match find_parent(rows, at) {
            Some(parent) => {
                at = parent;
            },
            None => {
                return None;
            },
        }
    }
}

fn record(fixer: &mut TextEditor, offset: usize, text: &str)
    requires
        old(fixer).edits_in_bounds(),
        is_insertion_point(old(fixer).source(), offset as int),
    ensures
        final(fixer).source() == old(fixer).source(),
        final(fixer).edits_in_bounds(),
        final(fixer).edits() == recorded(old(fixer).edits(), offset as int, text@),
{
    fixer.insert_after(Range { start: offset, end: offset }, text);
}

fn record_at_start(fixer: &mut TextEditor, text: &str)
    requires
        old(fixer).edits_in_bounds(),
    ensures
        final(fixer).source() == old(fixer).source(),
        final(fixer).edits_in_bounds(),
        final(fixer).edits() == recorded(old(fixer).edits(), 0, text@),
{
    proof {
        lemma_start_is_insertion_point(fixer.source());
    }
    fixer.insert_before(Range { start: 0, end: 0 }, text);
}

fn update_pattern(
    rows: &Vec<SyntaxRow>,
    pattern: usize,
    fixer: &mut TextEditor,
    expr: Option<usize>,
    created_type: Option<String>,
)
    requires
        pattern < rows.len(),
        rows_fit(old(fixer).source(), rows@),
        old(fixer).edits_in_bounds(),
    ensures
        final(fixer).source() == old(fixer).source(),
        final(fixer).edits_in_bounds(),
        final(fixer).edits() == annotated_pattern(
            rows@,
            pattern as int,
            expr,
            name_view(created_type),
            old(fixer).edits(),
        ),
{
    let kind = rows[pattern].kind;
    if find_first_child(rows, pattern, Want::Type).is_some() {
        return ;
    }
    if kind == SINGLE_PATTERN || kind == ASSIGN_PATTERN || kind == OBJECT_PATTERN {
        let source = if kind == ASSIGN_PATTERN && expr.is_none() {
            find_first_child(rows, pattern, Want::Expr)
        } else {
            expr
        };
        match get_type_from_expression(rows, source, &created_type) {
            None => {},
            Some(type_annotation) => {
                let text = String::from_str(": ").concat(type_annotation.as_str());
                if kind == OBJECT_PATTERN {
                    record(fixer, rows[pattern].end, text.as_str());
                } else {
                    match find_first_child(rows, pattern, Want::Kind(NAME)) {
                        Some(bound) => {
                            record(fixer, rows[bound].end, text.as_str());
                        },
                        None => {},
                    }
                }
            },
        }
    }
}

fn check_empty_array(rows: &Vec<SyntaxRow>, value: usize) -> (yes: bool)
    requires
        value < rows.len(),
    ensures
        yes == is_empty_array(rows@, value as int),
{
    rows[value].kind == ARRAY_EXPR && find_first_child(rows, value, Want::Expr).is_none()
        && find_first_child(rows, value, Want::Kind(SPREAD_ELEMENT)).is_none()
}

fn check_open_initializer(rows: &Vec<SyntaxRow>, value: usize) -> (yes: bool)
    requires
        value < rows.len(),
    ensures
        yes == is_open_initializer(rows@, value as int),
{
    let null = match rows[value].token {
        Some(token) => rows[value].kind == LITERAL && token == NULL_KW,
        None => false,
    };
    null || (rows[value].kind == NAME_REF && text_equals(&rows[value].text, "undefined"))
        || check_empty_array(rows, value)
}

fn is_react_component_class(rows: &Vec<SyntaxRow>, expr: usize) -> (yes: bool)
    requires
        expr < rows.len(),
    ensures
        yes == is_component(rows@, expr as int),
{
    if rows[expr].kind == NAME_REF {
        text_equals(&rows[expr].text, "Component") || text_equals(
            &rows[expr].text,
            "PureComponent",
        )
    } else if rows[expr].kind == DOT_EXPR {
        match find_first_child(rows, expr, Want::Kind(NAME)) {
            Some(property) => text_equals(&rows[property].text, "Component") || text_equals(
                &rows[property].text,
                "PureComponent",
            ),
            None => false,
        }
    } else {
        false
    }
}

fn annotate_declarator(rows: &Vec<SyntaxRow>, node: usize, fixer: &mut TextEditor)
    requires
        node < rows.len(),
        rows_fit(old(fixer).source(), rows@),
        old(fixer).edits_in_bounds(),
    ensures
        final(fixer).source() == old(fixer).source(),
        final(fixer).edits_in_bounds(),
        final(fixer).edits() == declarator_step(rows@, node as int, old(fixer).edits()),
{
    if find_enclosing(rows, node, Enclosing::LoopHead).is_some() {
        return ;
    }
    match find_first_child(rows, node, Want::Pattern) {
        None => {},
        Some(pattern) => match find_first_child(rows, node, Want::Expr) {
            None => {
                update_pattern(rows, pattern, fixer, None, None);
            },
            Some(value) => if check_empty_array(rows, value) {
                update_pattern(rows, pattern, fixer, Some(value), None);
            } else if check_open_initializer(rows, value) {
                update_pattern(rows, pattern, fixer, None, None);
            },
        },
    }
}

fn annotate_class(rows: &Vec<SyntaxRow>, node: usize, fixer: &mut TextEditor)
    requires
        node < rows.len(),
        rows_fit(old(fixer).source(), rows@),
        old(fixer).edits_in_bounds(),
    ensures
        final(fixer).source() == old(fixer).source(),
        final(fixer).edits_in_bounds(),
        final(fixer).edits() == class_step(rows@, node as int, old(fixer).edits()),
{
    match find_first_child(rows, node, Want::Expr) {
        None => {},
        Some(parent) => {
            if !is_react_component_class(rows, parent) || find_first_child(
                rows,
                node,
                Want::Kind(TS_TYPE_ARGS),
            ).is_some() {
                return ;
            }
            let props_fields = define_type_based_on_usage(rows, node, "props");
            let state_fields = define_type_based_on_usage(rows, node, "state");
            let behind = rows[parent].end;
            match state_fields {
                Some(state_usages) => {
                    let props_definition = match props_fields {
                        Some(fields) => fields,
                        None => {
                            let empty = TypeDefinition {
                                name: String::from_str("Props"),
                                ts_type: TypeDef::NestedType(Vec::new()),
                            };
                            assert(empty@.fields() =~= Seq::<Descriptor>::empty());
                            assert(empty@ == empty_branch("Props"@));
                            empty
                        },
                    };
                    let props_text = create_type_definition(&props_definition, "Props", rows);
                    record_at_start(fixer, props_text.as_str());
                    let state_text = create_type_definition(&state_usages, "State", rows);
                    record_at_start(fixer, state_text.as_str());
                    record(fixer, behind, "<Props, State>");
                },
                None => match props_fields {
                    Some(props_usages) => {
                        let props_text = create_type_definition(&props_usages, "Props", rows);
                        record_at_start(fixer, props_text.as_str());
                        record(fixer, behind, "<Props>");
                    },
                    None => {
                        record(fixer, behind, "<any, any>");
                    },
                },
            }
        },
    }
}

fn find_bound_name(rows: &Vec<SyntaxRow>, pattern: usize) -> (bound: Option<usize>)
    requires
        pattern < rows.len(),
    ensures
        bound.is_some() == bound_name(rows@, pattern as int).is_some(),
        bound matches Some(b) ==> bound_name(rows@, pattern as int) == Some(b as int) && b
            < rows.len(),
{
    let kind = rows[pattern].kind;
    if find_first_child(rows, pattern, Want::Type).is_some() {
        None
    } else if kind == SINGLE_PATTERN || kind == ASSIGN_PATTERN {
        find_first_child(rows, pattern, Want::Kind(NAME))
    } else {
        None
    }
}

fn annotate_parameter(
    rows: &Vec<SyntaxRow>,
    scope: usize,
    parameter: usize,
    fixer: &mut TextEditor,
    created_types: &mut Vec<String>,
)
    requires
        parameter < rows.len(),
        rows_fit(old(fixer).source(), rows@),
        old(fixer).edits_in_bounds(),
    ensures
        final(fixer).source() == old(fixer).source(),
        final(fixer).edits_in_bounds(),
        (Progress { edits: final(fixer).edits(), created: names_of(final(created_types)@) })
            == parameter_step(
            rows@,
            scope as int,
            parameter as int,
            Progress { edits: old(fixer).edits(), created: names_of(old(created_types)@) },
        ),
{
    let param_usages = match find_bound_name(rows, parameter) {
        Some(bound) => {
            let parameter_name = rows[bound].text.as_str();
            match define_type_based_on_usage(rows, scope, parameter_name) {
                Some(usages) => Some((to_pascal_case(parameter_name), usages)),
                None => None,
            }
        },
        None => None,
    };
    match param_usages {
        None => {
            update_pattern(rows, parameter, fixer, None, None);
        },
        Some((new_parameter_type, usages)) => {
            let name = get_collision_free_typename(new_parameter_type, created_types);
            let declaration = create_type_definition(&usages, name.as_str(), rows);
            record_at_start(fixer, declaration.as_str());
            update_pattern(rows, parameter, fixer, None, Some(name));
        },
    }
}

/// Finds the first row that ends at an offset at which nothing can be
/// inserted into `contents`.
pub fn find_misfit(contents: &str, rows: &Vec<SyntaxRow>) -> (bad: Option<usize>)
    ensures
        bad.is_none() == rows_fit(contents@, rows@),
        bad matches Some(row) ==> {
            &&& row < rows.len()
            &&& !is_insertion_point(contents@, rows[row as int].end as int)
            &&& forall|k: int|
                0 <= k < row ==> is_insertion_point(contents@, (#[trigger] rows[k]).end as int)
        },
{
    let mut at: usize = 0;
    while at < rows.len()
        invariant
            at <= rows.len(),
            forall|k: int|
                0 <= k < at ==> is_insertion_point(contents@, (#[trigger] rows[k]).end as int),
        decreases rows.len() - at,
    {
        if !contents.is_char_boundary(rows[at].end) {
            return Some(at);
        }
        at += 1;
    }
    None
}

/// Annotates the source `contents`, whose syntax tree is `rows`: records
/// what every declaration adds, in document order, and applies it.
pub fn annotate(contents: &str, rows: &Vec<SyntaxRow>) -> (out: String)
    requires
        rows_fit(contents@, rows@),
    ensures
        out@ == annotated(contents@, rows@),
{
    let mut fixer = TextEditor::load(contents);
    let mut created_types: Vec<String> = Vec::new();
    let ghost start = Progress { edits: Seq::empty(), created: Seq::empty() };
    assert(names_of(created_types@) =~= Seq::<Seq<char>>::empty());
    let mut at: usize = 0;
    while at < rows.len()
        invariant
            at <= rows.len(),
            fixer.source() == contents@,
            rows_fit(contents@, rows@),
            fixer.edits_in_bounds(),
            walk(
                rows@,
                at as int,
                Progress { edits: fixer.edits(), created: names_of(created_types@) },
            ) == walk(rows@, 0, start),
        decreases rows.len() - at,
    {
        let kind = rows[at].kind;
        if kind == PARAMETER_LIST {
            match find_enclosing(rows, at, Enclosing::Function) {
                Some(scope) => {
                    let depth = rows[at].depth;
                    let ghost before = Progress {
                        edits: fixer.edits(),
                        created: names_of(created_types@),
                    };
                    let mut from: usize = at + 1;
                    loop
                        invariant
                            at < from <= rows.len(),
                            fixer.source() == contents@,
                            rows_fit(contents@, rows@),
                            fixer.edits_in_bounds(),
                            parameters_from(
                                rows@,
                                scope as int,
                                depth,
                                from as int,
                                Progress {
                                    edits: fixer.edits(),
                                    created: names_of(created_types@),
                                },
                            ) == parameters_from(rows@, scope as int, depth, at + 1, before),
                        ensures
                            fixer.source() == contents@,
                            fixer.edits_in_bounds(),
                            (Progress { edits: fixer.edits(), created: names_of(created_types@) })
                                == parameters_from(rows@, scope as int, depth, at + 1, before),
                        decreases rows.len() - from,
                    {
                        match find_next_child(rows, depth, from, Want::Pattern) {
                            None => {
                                break ;
                            },
                            Some(parameter) => {
                                annotate_parameter(
                                    rows,
                                    scope,
                                    parameter,
                                    &mut fixer,
                                    &mut created_types,
                                );
                                from = parameter + 1;
                            },
                        }
                    }
                },
                None => {},
            }
        } else if kind == DECLARATOR {
            annotate_declarator(rows, at, &mut fixer);
        } else if kind == CATCH_CLAUSE {
            match find_first_child(rows, at, Want::Pattern) {
                Some(pattern) => {
                    update_pattern(rows, pattern, &mut fixer, None, None);
                },
                None => {},
            }
        } else if kind == CLASS_DECL {
            annotate_class(rows, at, &mut fixer);
        }
        at += 1;
    }
    fixer.apply()
}

/// Annotates the source `contents`, whose syntax tree the caller has parsed
/// into `rows`. Rows that cannot belong to the source are refused: an offset
/// outside the source is an error, never dropped or moved.
pub fn add_types(contents: String, rows: &Vec<SyntaxRow>) -> (out: Result<String, AnnotationError>)
    ensures
        out.is_ok() == rows_fit(contents@, rows@),
        out matches Ok(text) ==> text@ == annotated(contents@, rows@),
        out matches Err(AnnotationError::OffsetOutOfRange(row)) ==> {
            &&& row < rows.len()
            &&& !is_insertion_point(contents@, rows[row as int].end as int)
            &&& forall|k: int|
                0 <= k < row ==> is_insertion_point(contents@, (#[trigger] rows[k]).end as int)
        },
{
    match find_misfit(contents.as_str(), rows) {
        Some(row) => Err(AnnotationError::OffsetOutOfRange(row)),
        None => Ok(annotate(contents.as_str(), rows)),
    }
}

} // verus!
