//! The resolver.
//!
//! The union of dimension, unit and constant names forms one flat dependency
//! graph; an entry's defining expression references other entries by name.
//! Resolution walks that graph depth first, evaluating each definition's
//! exponent vector and magnitude in lock-step and memoizing finished nodes.
//! A "currently resolving" marker per node detects cycles, which are reported
//! as the ordered chain of names from the cycle's entry point back to itself.
//!
//! The specification model below is the memo-free mathematical evaluation:
//! `spec_resolve_node` resolves one node given the stack of definitions
//! currently in progress, and `spec_resolve_defs` resolves a whole definition
//! set.  The executable resolver is proved to return exactly that value; the
//! memo cache is an optimization the model never sees.

use vstd::prelude::*;
use vstd::seq_lib::*;
use vstd::set_lib::*;
use crate::dimension_math::{ExponentVector, fits_exponents, unit_vector, vector_difference,
    vector_scaled, vector_sum, zero_vector};
use crate::errors::{ResolveError, ResolveErrorValue};
use crate::expression::{Expr, ExprFactor, ExprFactorView, ExprView, Factor, FactorView, Operator};
use crate::magnitude::{MAG_ONE, div_bits, mag_div, mag_mul, mag_powi, mul_bits, powi_bits};
use crate::types::{Definition, DimensionEntryView, UnresolvedDefs,
    UnresolvedView, UnitEntryView, Constant, ConstantValue, Dimension, DimensionValue,
    ResolvedDefs, ResolvedDefsValue, Unit, UnitValue, DefinitionView};

verus! {

/// The view of a concrete, template-expanded definition set.
pub type DefsView = UnresolvedView<UnitEntryView>;

/// One resolved (exponent vector, magnitude) pair.
pub type EvalResult = Result<(Seq<int>, u64), ResolveErrorValue>;

/// How many nodes the dependency graph has: dimensions, then units, then
/// constants, in declaration order.
pub open spec fn node_count(d: DefsView) -> int {
    d.dimensions.len() + d.units.len() + d.constants.len() as int
}

/// The name of the node with index `i`.
pub open spec fn node_name(d: DefsView, i: int) -> Seq<char> {
    if i < d.dimensions.len() {
        d.dimensions[i].name
    } else if i < d.dimensions.len() + d.units.len() {
        d.units[i - d.dimensions.len()].name
    } else {
        d.constants[i - d.dimensions.len() - d.units.len()].name
    }
}

/// The first node from `i` on whose name is `name`.
pub open spec fn lookup_from(d: DefsView, name: Seq<char>, i: int) -> Option<int>
    decreases node_count(d) - i,
    when 0 <= i
{
    if i >= node_count(d) {
        None
    } else if node_name(d, i) == name {
        Some(i)
    } else {
        lookup_from(d, name, i + 1)
    }
}

/// The node a name refers to: the first declared dimension, unit or constant
/// with that name.
pub open spec fn lookup(d: DefsView, name: Seq<char>) -> Option<int> {
    lookup_from(d, name, 0)
}

/// The first dimension entry from `i` on whose name is `name`.
pub open spec fn lookup_dimension_from(d: DefsView, name: Seq<char>, i: int) -> Option<int>
    decreases d.dimensions.len() - i,
    when 0 <= i
{
    if i >= d.dimensions.len() {
        None
    } else if d.dimensions[i].name == name {
        Some(i)
    } else {
        lookup_dimension_from(d, name, i + 1)
    }
}

/// The dimension a dimension-position name (a base unit's dimension, an
/// annotation) refers to.
pub open spec fn lookup_dimension(d: DefsView, name: Seq<char>) -> Option<int> {
    lookup_dimension_from(d, name, 0)
}

/// How many entries of `s` declare a fresh base dimension.
pub open spec fn count_base(s: Seq<DimensionEntryView>) -> int
    decreases s.len(),
{
    if s.len() == 0 {
        0
    } else {
        count_base(s.drop_last()) + if s.last().rhs is Base {
            1int
        } else {
            0int
        }
    }
}

/// The width of every exponent vector: the number of base dimensions.
pub open spec fn n_base(d: DefsView) -> int {
    count_base(d.dimensions)
}

/// The axis of the base dimension declared by dimension entry `i`: how many
/// base dimensions were declared before it.
pub open spec fn axis_of(d: DefsView, i: int) -> int {
    count_base(d.dimensions.take(i))
}

/// The names of the base dimension entries, in declaration order.
pub open spec fn spec_base_names(s: Seq<DimensionEntryView>) -> Seq<Seq<char>>
    decreases s.len(),
{
    if s.len() == 0 {
        Seq::empty()
    } else {
        spec_base_names(s.drop_last()) + if s.last().rhs is Base {
            seq![s.last().name]
        } else {
            Seq::empty()
        }
    }
}

/// A well-formed resolution stack: distinct node indices, in range, and
/// therefore no longer than the node count.
pub open spec fn wf_stack(d: DefsView, stack: Seq<int>) -> bool {
    &&& stack.no_duplicates()
    &&& forall|k: int| 0 <= k < stack.len() ==> 0 <= #[trigger] stack[k] < node_count(d)
    &&& stack.len() <= node_count(d)
}

/// Pushing a fresh, in-range node keeps a stack well formed.
pub proof fn lemma_stack_push(d: DefsView, stack: Seq<int>, i: int)
    requires
        wf_stack(d, stack),
        0 <= i < node_count(d),
        !stack.contains(i),
    ensures
        wf_stack(d, stack.push(i)),
{
    let p = stack.push(i);
    assert forall|a: int, b: int| 0 <= a < p.len() && 0 <= b < p.len() && a != b implies p[a]
        != p[b] by {
        if a < stack.len() && b < stack.len() {
            assert(stack[a] == p[a] && stack[b] == p[b]);
        } else if a < stack.len() {
            assert(p[b] == i && p[a] == stack[a]);
            assert(stack.contains(stack[a]));
        } else {
            assert(p[a] == i && p[b] == stack[b]);
            assert(stack.contains(stack[b]));
        }
    }
    assert(p.no_duplicates());
    p.unique_seq_to_set();
    lemma_int_range(0, node_count(d));
    assert(p.to_set().subset_of(set_int_range(0, node_count(d)))) by {
        assert forall|x: int| p.to_set().contains(x) implies set_int_range(
            0,
            node_count(d),
        ).contains(x) by {
            assert(p.contains(x));
            let w = choose|w: int| 0 <= w < p.len() && p[w] == x;
            if w < stack.len() {
                assert(stack[w] == x);
            }
        }
    }
    lemma_len_subset(p.to_set(), set_int_range(0, node_count(d)));
}

/// The first position of `i` in the stack, scanning from `j`.
pub open spec fn first_occurrence(stack: Seq<int>, i: int, j: int) -> int
    decreases stack.len() - j,
    when 0 <= j
{
    if j >= stack.len() {
        stack.len() as int
    } else if stack[j] == i {
        j
    } else {
        first_occurrence(stack, i, j + 1)
    }
}

/// The reported cycle: the names of the stack from the cycle's entry point to
/// the end, and the entry point once more to close the loop.
pub open spec fn spec_chain(d: DefsView, stack: Seq<int>, i: int) -> Seq<Seq<char>> {
    let f = first_occurrence(stack, i, 0);
    Seq::new((stack.len() - f) as nat, |k: int| node_name(d, stack[f + k])).push(node_name(d, i))
}

/// The number of binary nodes in an expression, for termination measures.
pub open spec fn view_size(e: ExprView) -> nat
    decreases e,
{
    match e {
        ExprView::Value(_) => 1,
        ExprView::Binary(lhs, _, _) => view_size(*lhs) + 1,
    }
}

/// The number of binary nodes of an executable expression.
pub open spec fn expr_size(e: Expr) -> nat
    decreases e,
{
    match e {
        Expr::Value(_) => 1,
        Expr::Binary(b) => expr_size(*b.lhs) + 1,
    }
}

#[via_fn]
proof fn spec_resolve_node_decreases(d: DefsView, stack: Seq<int>, i: int) {
    if wf_stack(d, stack) && 0 <= i < node_count(d) && !stack.contains(i) {
        lemma_stack_push(d, stack, i);
    }
}

/// Resolve one node of the dependency graph, the stack holding every node
/// whose resolution is in progress: a node already on the stack is a cycle;
/// a base dimension is the unit vector on its own axis with magnitude 1.0;
/// everything else evaluates its definition with the node itself marked in
/// progress.
pub open spec fn spec_resolve_node(d: DefsView, stack: Seq<int>, i: int) -> EvalResult
    decreases node_count(d) - stack.len(), 0int, 0nat,
    when wf_stack(d, stack) && 0 <= i < node_count(d)
    via spec_resolve_node_decreases
{
    if stack.contains(i) {
        Err(ResolveErrorValue::CyclicDefinition { chain: spec_chain(d, stack, i) })
    } else {
        spec_resolve_def(d, stack.push(i), i)
    }
}

/// Evaluate the definition of node `i` (already marked in progress): its
/// defining expression or base declaration, then the cross-check of an
/// explicit dimension annotation against the inferred dimension.
pub open spec fn spec_resolve_def(d: DefsView, stack: Seq<int>, i: int) -> EvalResult
    decreases node_count(d) - stack.len(), 4int, 0nat,
    when wf_stack(d, stack) && 0 <= i < node_count(d)
{
    let nd = d.dimensions.len() as int;
    let nu = d.units.len() as int;
    if i < nd {
        match d.dimensions[i].rhs {
            DefinitionView::Base(_) => Ok((unit_vector(n_base(d) as nat, axis_of(d, i)), MAG_ONE)),
            DefinitionView::Expression(e) => spec_resolve_expr(d, stack, node_name(d, i), e),
        }
    } else if i < nd + nu {
        let u = d.units[i - nd];
        let base = match u.definition {
            DefinitionView::Base(dim_name) => match lookup_dimension(d, dim_name) {
                None => Err(
                    ResolveErrorValue::UnknownReference { entry: u.name, reference: dim_name },
                ),
                Some(j) => match spec_resolve_node(d, stack, j) {
                    Ok(vm) => Ok((vm.0, MAG_ONE)),
                    Err(e) => Err(e),
                },
            },
            DefinitionView::Expression(e) => spec_resolve_expr(d, stack, u.name, e),
        };
        spec_check_annotation(d, stack, u.name, u.dimension_annotation, base)
    } else {
        let c = d.constants[i - nd - nu];
        let base = spec_resolve_expr(d, stack, c.name, c.rhs);
        spec_check_annotation(d, stack, c.name, c.dimension_annotation, base)
    }
}

/// Cross-check an optional dimension annotation: resolve the annotated
/// dimension and compare it with the inferred vector; a mismatch reports
/// both.
pub open spec fn spec_check_annotation(
    d: DefsView,
    stack: Seq<int>,
    owner: Seq<char>,
    ann: Option<Seq<char>>,
    base: EvalResult,
) -> EvalResult
    decreases node_count(d) - stack.len(), 3int, 0nat,
    when wf_stack(d, stack)
{
    match base {
        Err(e) => Err(e),
        Ok(vm) => match ann {
            None => Ok(vm),
            Some(a) => match lookup_dimension(d, a) {
                None => Err(ResolveErrorValue::UnknownReference { entry: owner, reference: a }),
                Some(j) => match spec_resolve_node(d, stack, j) {
                    Err(e) => Err(e),
                    Ok(av) => if av.0 == vm.0 {
                        Ok(vm)
                    } else {
                        Err(
                            ResolveErrorValue::DimensionMismatch {
                                entry: owner,
                                declared: av.0,
                                inferred: vm.0,
                            },
                        )
                    },
                },
            },
        },
    }
}

/// Evaluate one expression tree under the in-progress stack, combining the
/// dimension vectors with exact integer algebra and the magnitudes with the
/// matching IEEE-754 operation.
pub open spec fn spec_resolve_expr(d: DefsView, stack: Seq<int>, owner: Seq<char>, e: ExprView) -> EvalResult
    decreases node_count(d) - stack.len(), 2int, view_size(e),
    when wf_stack(d, stack)
{
    match e {
        ExprView::Value(pf) => spec_resolve_pf(d, stack, owner, pf),
        ExprView::Binary(lhs, rhs, op) => match spec_resolve_expr(d, stack, owner, *lhs) {
            Err(e1) => Err(e1),
            Ok(l) => match spec_resolve_pf(d, stack, owner, rhs) {
                Err(e2) => Err(e2),
                Ok(r) => match op {
                    Operator::Mul => {
                        let s = vector_sum(l.0, r.0);
                        if fits_exponents(s) {
                            Ok((s, mul_bits(l.1, r.1)))
                        } else {
                            Err(ResolveErrorValue::ExponentOverflow { entry: owner })
                        }
                    },
                    Operator::Div => {
                        let s = vector_difference(l.0, r.0);
                        if fits_exponents(s) {
                            Ok((s, div_bits(l.1, r.1)))
                        } else {
                            Err(ResolveErrorValue::ExponentOverflow { entry: owner })
                        }
                    },
                },
            },
        },
    }
}

/// Evaluate one powered factor: the leaf, then the component-wise multiple
/// and the magnitude power.
pub open spec fn spec_resolve_pf(
    d: DefsView,
    stack: Seq<int>,
    owner: Seq<char>,
    pf: ExprFactorView,
) -> EvalResult
    decreases node_count(d) - stack.len(), 1int, 0nat,
    when wf_stack(d, stack)
{
    match pf {
        ExprFactorView::Value(f) => spec_resolve_factor(d, stack, owner, f),
        ExprFactorView::Power(f, n) => match spec_resolve_factor(d, stack, owner, f) {
            Err(e) => Err(e),
            Ok(vm) => {
                let scaled = vector_scaled(vm.0, n);
                if fits_exponents(scaled) {
                    Ok((scaled, powi_bits(vm.1, n)))
                } else {
                    Err(ResolveErrorValue::ExponentOverflow { entry: owner })
                }
            },
        },
    }
}

/// Evaluate one leaf: a literal is dimensionless with its own magnitude; a
/// reference resolves the named node, both components at once.
pub open spec fn spec_resolve_factor(
    d: DefsView,
    stack: Seq<int>,
    owner: Seq<char>,
    f: FactorView,
) -> EvalResult
    decreases node_count(d) - stack.len(), 0int, 1nat,
    when wf_stack(d, stack)
{
    match f {
        FactorView::Concrete(c) => Ok((zero_vector(n_base(d) as nat), c)),
        FactorView::Other(name) => match lookup(d, name) {
            None => Err(ResolveErrorValue::UnknownReference { entry: owner, reference: name }),
            Some(j) => spec_resolve_node(d, stack, j),
        },
    }
}

/// The first duplicated symbol after position `i` among the units, paired
/// with `i`.
pub open spec fn dup_with(units: Seq<UnitEntryView>, i: int, j: int) -> Option<int>
    decreases units.len() - j,
    when 0 <= j
{
    if j >= units.len() {
        None
    } else if units[i].symbol is Some && units[j].symbol is Some && units[i].symbol->Some_0
        == units[j].symbol->Some_0 {
        Some(j)
    } else {
        dup_with(units, i, j + 1)
    }
}

/// The first pair of units that format to the same symbol, in scan order.
pub open spec fn dup_from(units: Seq<UnitEntryView>, i: int) -> Option<(int, int)>
    decreases units.len() - i,
    when 0 <= i
{
    if i >= units.len() {
        None
    } else {
        match dup_with(units, i, i + 1) {
            Some(j) => Some((i, j)),
            None => dup_from(units, i + 1),
        }
    }
}

/// The first duplicated unit symbol of the definition set, if any.
pub open spec fn spec_dup_symbol(d: DefsView) -> Option<(int, int)> {
    dup_from(d.units, 0)
}

/// The resolution of node `i` from a standing start: nothing in progress.
pub open spec fn spec_node_result(d: DefsView, i: int) -> EvalResult {
    spec_resolve_node(d, Seq::empty(), i)
}

/// The first node, in declaration order, whose resolution fails.
pub open spec fn first_failure_from(d: DefsView, i: int) -> Option<ResolveErrorValue>
    decreases node_count(d) - i,
    when 0 <= i
{
    if i >= node_count(d) {
        None
    } else {
        match spec_node_result(d, i) {
            Err(e) => Some(e),
            Ok(_) => first_failure_from(d, i + 1),
        }
    }
}

/// The resolved table of a definition set all of whose nodes resolve:
/// declaration order throughout, one output entry per input entry.
pub open spec fn spec_collect(d: DefsView) -> ResolvedDefsValue {
    ResolvedDefsValue {
        base_dimensions: spec_base_names(d.dimensions),
        dimensions: Seq::new(
            d.dimensions.len(),
            |i: int|
                DimensionValue {
                    name: d.dimensions[i].name,
                    dimensions: spec_node_result(d, i)->Ok_0.0,
                },
        ),
        units: Seq::new(
            d.units.len(),
            |k: int|
                UnitValue {
                    name: d.units[k].name,
                    dimensions: spec_node_result(d, d.dimensions.len() + k)->Ok_0.0,
                    magnitude: spec_node_result(d, d.dimensions.len() + k)->Ok_0.1,
                    symbol: d.units[k].symbol,
                    is_base_unit: d.units[k].definition is Base,
                },
        ),
        constants: Seq::new(
            d.constants.len(),
            |k: int|
                ConstantValue {
                    name: d.constants[k].name,
                    dimensions: spec_node_result(
                        d,
                        d.dimensions.len() + d.units.len() + k,
                    )->Ok_0.0,
                    magnitude: spec_node_result(d, d.dimensions.len() + d.units.len() + k)->Ok_0.1,
                },
        ),
    }
}

/// What resolving a definition set returns: the duplicate-symbol check, then
/// every node in declaration order, then the collected table.
pub open spec fn spec_resolve_defs(d: DefsView) -> Result<ResolvedDefsValue, ResolveErrorValue> {
    match spec_dup_symbol(d) {
        Some(p) => Err(
            ResolveErrorValue::DuplicateSymbol {
                symbol: d.units[p.0].symbol->Some_0,
                first: d.units[p.0].name,
                second: d.units[p.1].name,
            },
        ),
        None => match first_failure_from(d, 0) {
            Some(e) => Err(e),
            None => Ok(spec_collect(d)),
        },
    }
}

/// The resolution status of one node: untouched, on the active resolution
/// stack, or finished with its resolved vector and magnitude.
enum NodeState {
    Unvisited,
    InProgress,
    Done(ExponentVector, u64),
}

/// The mathematical value of the executable stack of node indices.
pub open spec fn stack_view(s: Seq<usize>) -> Seq<int> {
    s.map_values(|x: usize| x as int)
}

/// No node of `t` is finished in `st`: resolving along `t` cannot revisit a
/// memoized node.
spec fn avoids_done(st: Seq<NodeState>, t: Seq<int>) -> bool {
    forall|q: int| 0 <= q < t.len() ==> !(st[#[trigger] t[q]] is Done)
}

/// What a memoized node means: for every well-formed stack that avoids the
/// finished nodes, resolving the node yields exactly the stored pair.
spec fn done_fact(d: DefsView, st: Seq<NodeState>, k: int) -> bool {
    st[k] matches NodeState::Done(v, m) ==> {
        &&& v@.len() == n_base(d)
        &&& forall|t: Seq<int>|
            wf_stack(d, t) && avoids_done(st, t) ==> #[trigger] spec_resolve_node(d, t, k)
                == Ok::<(Seq<int>, u64), ResolveErrorValue>((v@, m))
    }
}

spec fn all_done_facts(d: DefsView, st: Seq<NodeState>) -> bool {
    forall|k: int| 0 <= k < st.len() ==> #[trigger] done_fact(d, st, k)
}

/// The resolver's invariant: one status per node, a well-formed stack, the
/// in-progress statuses exactly the stacked nodes, and every finished node
/// carrying its meaning.
spec fn state_inv(d: DefsView, st: Seq<NodeState>, stack: Seq<int>) -> bool {
    &&& st.len() == node_count(d)
    &&& wf_stack(d, stack)
    &&& forall|k: int|
        0 <= k < st.len() ==> ((#[trigger] st[k] is InProgress) <==> stack.contains(k))
    &&& all_done_facts(d, st)
}

/// Finished nodes stay finished, with the same values.
spec fn dones_preserved(a: Seq<NodeState>, b: Seq<NodeState>) -> bool {
    &&& a.len() == b.len()
    &&& forall|k: int| 0 <= k < a.len() && a[k] is Done ==> b[k] == #[trigger] a[k]
}

/// Every reference of the leaf is either unknown or already finished.
spec fn factor_refs_done(d: DefsView, st: Seq<NodeState>, f: FactorView) -> bool {
    match f {
        FactorView::Concrete(_) => true,
        FactorView::Other(name) => {
            &&& lookup(d, name) matches Some(j)
            &&& 0 <= lookup(d, name)->Some_0 < st.len()
            &&& st[lookup(d, name)->Some_0] is Done
        },
    }
}

spec fn pf_refs_done(d: DefsView, st: Seq<NodeState>, pf: ExprFactorView) -> bool {
    match pf {
        ExprFactorView::Value(f) => factor_refs_done(d, st, f),
        ExprFactorView::Power(f, _) => factor_refs_done(d, st, f),
    }
}

spec fn expr_refs_done(d: DefsView, st: Seq<NodeState>, e: ExprView) -> bool
    decreases e,
{
    match e {
        ExprView::Value(pf) => pf_refs_done(d, st, pf),
        ExprView::Binary(lhs, rhs, _) => expr_refs_done(d, st, *lhs) && pf_refs_done(d, st, rhs),
    }
}

/// An optional annotation's dimension is either unknown or finished.
spec fn ann_refs_done(d: DefsView, st: Seq<NodeState>, ann: Option<Seq<char>>) -> bool {
    match ann {
        None => true,
        Some(a) => {
            &&& lookup_dimension(d, a) matches Some(j)
            &&& 0 <= lookup_dimension(d, a)->Some_0 < st.len()
            &&& st[lookup_dimension(d, a)->Some_0] is Done
        },
    }
}

/// Every reference the definition of node `i` evaluates is finished.
spec fn def_refs_done(d: DefsView, st: Seq<NodeState>, i: int) -> bool {
    let nd = d.dimensions.len() as int;
    let nu = d.units.len() as int;
    if i < nd {
        match d.dimensions[i].rhs {
            DefinitionView::Base(_) => true,
            DefinitionView::Expression(e) => expr_refs_done(d, st, e),
        }
    } else if i < nd + nu {
        let u = d.units[i - nd];
        &&& match u.definition {
            DefinitionView::Base(nm) => {
                &&& lookup_dimension(d, nm) matches Some(j)
                &&& 0 <= lookup_dimension(d, nm)->Some_0 < st.len()
                &&& st[lookup_dimension(d, nm)->Some_0] is Done
            },
            DefinitionView::Expression(e) => expr_refs_done(d, st, e),
        }
        &&& ann_refs_done(d, st, u.dimension_annotation)
    } else {
        let c = d.constants[i - nd - nu];
        &&& expr_refs_done(d, st, c.rhs)
        &&& ann_refs_done(d, st, c.dimension_annotation)
    }
}

/// References stay finished when the finished set grows.
proof fn lemma_expr_refs_done_mono(d: DefsView, a: Seq<NodeState>, b: Seq<NodeState>, e: ExprView)
    requires
        dones_preserved(a, b),
        expr_refs_done(d, a, e),
    ensures
        expr_refs_done(d, b, e),
    decreases e,
{
    match e {
        ExprView::Value(_) => {},
        ExprView::Binary(lhs, _, _) => {
            lemma_expr_refs_done_mono(d, a, b, *lhs);
        },
    }
}

/// A finished leaf evaluates the same under any two valid stacks.
proof fn lemma_factor_stable(
    d: DefsView,
    st: Seq<NodeState>,
    o: Seq<char>,
    f: FactorView,
    t1: Seq<int>,
    t2: Seq<int>,
)
    requires
        st.len() == node_count(d),
        all_done_facts(d, st),
        factor_refs_done(d, st, f),
        wf_stack(d, t1),
        wf_stack(d, t2),
        avoids_done(st, t1),
        avoids_done(st, t2),
    ensures
        spec_resolve_factor(d, t1, o, f) == spec_resolve_factor(d, t2, o, f),
{
    match f {
        FactorView::Concrete(_) => {},
        FactorView::Other(name) => {
            let j = lookup(d, name)->Some_0;
            assert(done_fact(d, st, j));
            assert(spec_resolve_node(d, t1, j) == spec_resolve_node(d, t2, j));
        },
    }
}

/// A powered factor over finished references evaluates the same under any two
/// valid stacks.
proof fn lemma_pf_stable(
    d: DefsView,
    st: Seq<NodeState>,
    o: Seq<char>,
    pf: ExprFactorView,
    t1: Seq<int>,
    t2: Seq<int>,
)
    requires
        st.len() == node_count(d),
        all_done_facts(d, st),
        pf_refs_done(d, st, pf),
        wf_stack(d, t1),
        wf_stack(d, t2),
        avoids_done(st, t1),
        avoids_done(st, t2),
    ensures
        spec_resolve_pf(d, t1, o, pf) == spec_resolve_pf(d, t2, o, pf),
{
    match pf {
        ExprFactorView::Value(f) => lemma_factor_stable(d, st, o, f, t1, t2),
        ExprFactorView::Power(f, _) => lemma_factor_stable(d, st, o, f, t1, t2),
    }
}

/// An expression over finished references evaluates the same under any two
/// valid stacks.
proof fn lemma_expr_stable(
    d: DefsView,
    st: Seq<NodeState>,
    o: Seq<char>,
    e: ExprView,
    t1: Seq<int>,
    t2: Seq<int>,
)
    requires
        st.len() == node_count(d),
        all_done_facts(d, st),
        expr_refs_done(d, st, e),
        wf_stack(d, t1),
        wf_stack(d, t2),
        avoids_done(st, t1),
        avoids_done(st, t2),
    ensures
        spec_resolve_expr(d, t1, o, e) == spec_resolve_expr(d, t2, o, e),
    decreases view_size(e),
{
    match e {
        ExprView::Value(pf) => lemma_pf_stable(d, st, o, pf, t1, t2),
        ExprView::Binary(lhs, rhs, _) => {
            lemma_expr_stable(d, st, o, *lhs, t1, t2);
            lemma_pf_stable(d, st, o, rhs, t1, t2);
        },
    }
}

/// A whole definition over finished references evaluates the same under any
/// two valid stacks.
proof fn lemma_def_stable(
    d: DefsView,
    st: Seq<NodeState>,
    i: int,
    t1: Seq<int>,
    t2: Seq<int>,
)
    requires
        st.len() == node_count(d),
        all_done_facts(d, st),
        def_refs_done(d, st, i),
        0 <= i < node_count(d),
        wf_stack(d, t1),
        wf_stack(d, t2),
        avoids_done(st, t1),
        avoids_done(st, t2),
    ensures
        spec_resolve_def(d, t1, i) == spec_resolve_def(d, t2, i),
{
    let nd = d.dimensions.len() as int;
    let nu = d.units.len() as int;
    if i < nd {
        match d.dimensions[i].rhs {
            DefinitionView::Base(_) => {},
            DefinitionView::Expression(e) => {
                lemma_expr_stable(d, st, node_name(d, i), e, t1, t2);
            },
        }
    } else if i < nd + nu {
        let u = d.units[i - nd];
        match u.definition {
            DefinitionView::Base(nm) => {
                let j = lookup_dimension(d, nm)->Some_0;
                assert(done_fact(d, st, j));
                assert(spec_resolve_node(d, t1, j) == spec_resolve_node(d, t2, j));
            },
            DefinitionView::Expression(e) => {
                lemma_expr_stable(d, st, u.name, e, t1, t2);
            },
        }
        lemma_ann_stable(d, st, u.dimension_annotation, t1, t2);
    } else {
        let c = d.constants[i - nd - nu];
        lemma_expr_stable(d, st, c.name, c.rhs, t1, t2);
        lemma_ann_stable(d, st, c.dimension_annotation, t1, t2);
    }
}

/// A finished annotation resolves the same under any two valid stacks.
proof fn lemma_ann_stable(
    d: DefsView,
    st: Seq<NodeState>,
    ann: Option<Seq<char>>,
    t1: Seq<int>,
    t2: Seq<int>,
)
    requires
        st.len() == node_count(d),
        all_done_facts(d, st),
        ann_refs_done(d, st, ann),
        wf_stack(d, t1),
        wf_stack(d, t2),
        avoids_done(st, t1),
        avoids_done(st, t2),
    ensures
        match ann {
            None => true,
            Some(a) => lookup_dimension(d, a) matches Some(j) ==> spec_resolve_node(d, t1, j)
                == spec_resolve_node(d, t2, j),
        },
{
    match ann {
        None => {},
        Some(a) => {
            let j = lookup_dimension(d, a)->Some_0;
            assert(done_fact(d, st, j));
            assert(spec_resolve_node(d, t1, j) == spec_resolve_node(d, t2, j));
        },
    }
}

/// Every count of base dimensions is non-negative and bounded by the length.
proof fn lemma_count_base_bounds(s: Seq<DimensionEntryView>)
    ensures
        0 <= count_base(s) <= s.len(),
    decreases s.len(),
{
    if s.len() > 0 {
        lemma_count_base_bounds(s.drop_last());
    }
}

/// A base dimension entry's axis lies below the total number of base
/// dimensions.
proof fn lemma_axis_lt(s: Seq<DimensionEntryView>, i: int)
    requires
        0 <= i < s.len(),
        s[i].rhs is Base,
    ensures
        0 <= count_base(s.take(i)) < count_base(s),
    decreases s.len(),
{
    lemma_count_base_bounds(s.take(i));
    if i == s.len() - 1 {
        assert(s.take(i) =~= s.drop_last());
    } else {
        lemma_axis_lt(s.drop_last(), i);
        assert(s.drop_last().take(i) =~= s.take(i));
        lemma_count_base_bounds(s.drop_last());
    }
}

/// The total number of graph nodes.
fn total_nodes(defs: &UnresolvedDefs) -> (n: usize)
    requires
        node_count(defs@) <= usize::MAX,
    ensures
        n as int == node_count(defs@),
{
    defs.dimensions.len() + defs.units.len() + defs.constants.len()
}

/// The name of the node with index `i`.
fn node_name_of<'a>(defs: &'a UnresolvedDefs, i: usize) -> (r: &'a String)
    requires
        (i as int) < node_count(defs@),
    ensures
        r@ == node_name(defs@, i as int),
{
    let nd = defs.dimensions.len();
    let nu = defs.units.len();
    if i < nd {
        &defs.dimensions[i].name
    } else if i - nd < nu {
        &defs.units[i - nd].name
    } else {
        &defs.constants[i - nd - nu].name
    }
}

/// Find the node a name refers to, scanning all entries in declaration order.
fn lookup_exec(defs: &UnresolvedDefs, name: &String) -> (r: Option<usize>)
    requires
        node_count(defs@) <= usize::MAX,
    ensures
        match r {
            Some(j) => lookup(defs@, name@) == Some(j as int) && (j as int) < node_count(defs@),
            None => lookup(defs@, name@) is None,
        },
{
    let n = total_nodes(defs);
    let mut k: usize = 0;
    while k < n
        invariant
            k <= n,
            n as int == node_count(defs@),
            node_count(defs@) <= usize::MAX,
            lookup(defs@, name@) == lookup_from(defs@, name@, k as int),
        decreases n - k,
    {
        if *node_name_of(defs, k) == *name {
            return Some(k);
        }
        k += 1;
    }
    None
}

/// Find the dimension entry a dimension-position name refers to.
fn lookup_dimension_exec(defs: &UnresolvedDefs, name: &String) -> (r: Option<usize>)
    requires
        node_count(defs@) <= usize::MAX,
    ensures
        match r {
            Some(j) => lookup_dimension(defs@, name@) == Some(j as int) && (j as int)
                < defs@.dimensions.len(),
            None => lookup_dimension(defs@, name@) is None,
        },
{
    let n = defs.dimensions.len();
    let mut k: usize = 0;
    while k < n
        invariant
            k <= n,
            n == defs@.dimensions.len(),
            lookup_dimension(defs@, name@) == lookup_dimension_from(defs@, name@, k as int),
        decreases n - k,
    {
        if defs.dimensions[k].name == *name {
            return Some(k);
        }
        k += 1;
    }
    None
}

/// How many of the first `upto` dimension entries declare a base dimension.
fn count_base_prefix(defs: &UnresolvedDefs, upto: usize) -> (r: usize)
    requires
        upto <= defs@.dimensions.len(),
    ensures
        r as int == count_base(defs@.dimensions.take(upto as int)),
        r <= upto,
{
    let mut r: usize = 0;
    let mut k: usize = 0;
    while k < upto
        invariant
            k <= upto,
            upto <= defs@.dimensions.len(),
            defs@.dimensions.len() == defs.dimensions@.len(),
            r <= k,
            r as int == count_base(defs@.dimensions.take(k as int)),
        decreases upto - k,
    {
        proof {
            assert(defs@.dimensions.take(k + 1).drop_last() =~= defs@.dimensions.take(k as int));
            assert(defs@.dimensions.take(k + 1).last() == defs@.dimensions[k as int]);
        }
        if defs.dimensions[k].is_base_dimension() {
            r += 1;
        }
        k += 1;
    }
    r
}

/// The width of every exponent vector: how many base dimensions the set
/// declares.
fn base_dimension_count(defs: &UnresolvedDefs) -> (r: usize)
    ensures
        r as int == n_base(defs@),
{
    let r = count_base_prefix(defs, defs.dimensions.len());
    proof {
        assert(defs@.dimensions.take(defs@.dimensions.len() as int) =~= defs@.dimensions);
    }
    r
}

/// Two exponent vectors hold the same exponents.
fn vectors_equal(a: &ExponentVector, b: &ExponentVector) -> (r: bool)
    ensures
        r == (a@ == b@),
{
    let na = a.len();
    let nb = b.len();
    if na != nb {
        return false;
    }
    let mut k: usize = 0;
    while k < na
        invariant
            k <= na,
            na == a@.len() && na == b@.len(),
            forall|j: int| 0 <= j < k ==> a@[j] == b@[j],
        decreases na - k,
    {
        if a.exponent(k) != b.exponent(k) {
            return false;
        }
        k += 1;
    }
    proof {
        assert(a@ =~= b@);
    }
    true
}

/// The names of the cycle: the stack from the first occurrence of `i` to the
/// top, and `i` once more.
fn build_chain(defs: &UnresolvedDefs, stack: &Vec<usize>, i: usize) -> (r: Vec<String>)
    requires
        (i as int) < node_count(defs@),
        forall|k: int|
            0 <= k < stack@.len() ==> 0 <= #[trigger] stack_view(stack@)[k] < node_count(defs@),
    ensures
        r@.map_values(|s: String| s@) == spec_chain(defs@, stack_view(stack@), i as int),
{
    let ghost sv = stack_view(stack@);
    let n = stack.len();
    let mut f: usize = 0;
    while f < n && stack[f] != i
        invariant
            f <= n,
            n == stack@.len(),
            sv == stack_view(stack@),
            first_occurrence(sv, i as int, 0) == first_occurrence(sv, i as int, f as int),
            forall|k: int| 0 <= k < stack@.len() ==> 0 <= #[trigger] sv[k] < node_count(defs@),
        decreases n - f,
    {
        proof {
            assert(sv[f as int] == stack@[f as int] as int);
        }
        f += 1;
    }
    proof {
        if f < n {
            assert(sv[f as int] == i as int);
        }
        assert(first_occurrence(sv, i as int, 0) == f as int);
    }
    let ghost first = f as int;
    let mut chain: Vec<String> = Vec::new();
    let mut k: usize = f;
    while k < n
        invariant
            first <= k <= n,
            n == stack@.len(),
            sv == stack_view(stack@),
            first == first_occurrence(sv, i as int, 0),
            (i as int) < node_count(defs@),
            forall|q: int| 0 <= q < stack@.len() ==> 0 <= #[trigger] sv[q] < node_count(defs@),
            chain@.len() == k - first,
            forall|q: int|
                0 <= q < chain@.len() ==> (#[trigger] chain@[q])@ == node_name(
                    defs@,
                    sv[first + q],
                ),
        decreases n - k,
    {
        proof {
            assert(sv[k as int] == stack@[k as int] as int);
        }
        let nm = node_name_of(defs, stack[k]).clone();
        chain.push(nm);
        k += 1;
    }
    let nm = node_name_of(defs, i).clone();
    chain.push(nm);
    proof {
        let expected = spec_chain(defs@, sv, i as int);
        let got = chain@.map_values(|s: String| s@);
        assert(got.len() == expected.len());
        assert forall|q: int| 0 <= q < got.len() implies got[q] == expected[q] by {
            if q < got.len() - 1 {
                assert(got[q] == chain@[q]@);
                assert(expected[q] == node_name(defs@, sv[first + q]));
            }
        }
        assert(got =~= expected);
    }
    chain
}

/// Membership in a pushed stack.
proof fn lemma_push_contains(s: Seq<int>, x: int, y: int)
    ensures
        s.push(x).contains(y) <==> (s.contains(y) || y == x),
{
    if s.contains(y) {
        let q = choose|q: int| 0 <= q < s.len() && s[q] == y;
        assert(s.push(x)[q] == y);
    }
    if y == x {
        assert(s.push(x)[s.len() as int] == y);
    }
    if s.push(x).contains(y) {
        let q = choose|q: int| 0 <= q < s.push(x).len() && s.push(x)[q] == y;
        if q < s.len() {
            assert(s[q] == y);
        }
    }
}

/// A finished node's meaning survives any state change that keeps every
/// finished node finished with the same value.
proof fn lemma_done_fact_carry(d: DefsView, a: Seq<NodeState>, b: Seq<NodeState>, k: int)
    requires
        a.len() == b.len(),
        a.len() == node_count(d),
        0 <= k < a.len(),
        done_fact(d, a, k),
        b[k] == a[k],
        dones_preserved(a, b),
    ensures
        done_fact(d, b, k),
{
    if b[k] is Done {
        assert forall|t: Seq<int>| wf_stack(d, t) && avoids_done(b, t) implies #[trigger] spec_resolve_node(
            d,
            t,
            k,
        ) == Ok::<(Seq<int>, u64), ResolveErrorValue>((b[k]->Done_0@, b[k]->Done_1)) by {
            assert(avoids_done(a, t)) by {
                assert forall|q: int| 0 <= q < t.len() implies !(a[#[trigger] t[q]] is Done) by {
                    assert(0 <= t[q] < a.len());
                    if a[t[q]] is Done {
                        assert(b[t[q]] == a[t[q]]);
                        assert(!(b[t[q]] is Done));
                    }
                }
            }
            assert(spec_resolve_node(d, t, k) == Ok::<(Seq<int>, u64), ResolveErrorValue>((
            a[k]->Done_0@, a[k]->Done_1)));
        }
    }
}

/// Cross-check an optional annotation after a definition resolved: resolve
/// the annotated dimension and compare it with the inferred vector.
fn check_annotation(
    defs: &UnresolvedDefs,
    nb: usize,
    st: &mut Vec<NodeState>,
    stack: &mut Vec<usize>,
    owner: &String,
    ann: &Option<String>,
    vm: (ExponentVector, u64),
) -> (r: Result<(ExponentVector, u64), ResolveError>)
    requires
        node_count(defs@) <= usize::MAX,
        nb as int == n_base(defs@),
        state_inv(defs@, old(st)@, stack_view(old(stack)@)),
        vm.0@.len() == n_base(defs@),
    ensures
        state_inv(defs@, final(st)@, stack_view(final(stack)@)),
        final(stack)@ == old(stack)@,
        dones_preserved(old(st)@, final(st)@),
        match r {
            Ok(out) => spec_check_annotation(
                defs@,
                stack_view(old(stack)@),
                owner@,
                crate::types::opt_name_view(*ann),
                Ok((vm.0@, vm.1)),
            ) == Ok::<(Seq<int>, u64), ResolveErrorValue>((out.0@, out.1)) && out.0@.len()
                == n_base(defs@) && ann_refs_done(
                defs@,
                final(st)@,
                crate::types::opt_name_view(*ann),
            ),
            Err(e) => spec_check_annotation(
                defs@,
                stack_view(old(stack)@),
                owner@,
                crate::types::opt_name_view(*ann),
                Ok((vm.0@, vm.1)),
            ) == Err::<(Seq<int>, u64), ResolveErrorValue>(e@),
        },
    decreases node_count(defs@) - old(stack)@.len(), 3int, 0nat,
{
    match ann {
        None => Ok(vm),
        Some(a) => match lookup_dimension_exec(defs, a) {
            None => Err(
                ResolveError::UnknownReference { entry: owner.clone(), reference: a.clone() },
            ),
            Some(j) => match resolve_node(defs, nb, st, stack, j) {
                Err(e) => Err(e),
                Ok(av) => {
                    if vectors_equal(&av.0, &vm.0) {
                        Ok(vm)
                    } else {
                        Err(
                            ResolveError::DimensionMismatch {
                                entry: owner.clone(),
                                declared: av.0,
                                inferred: vm.0,
                            },
                        )
                    }
                },
            },
        },
    }
}

/// Resolve one leaf: a literal is dimensionless with its own magnitude; a
/// reference resolves the named node.
fn resolve_factor(
    defs: &UnresolvedDefs,
    nb: usize,
    st: &mut Vec<NodeState>,
    stack: &mut Vec<usize>,
    owner: &String,
    f: &Factor,
) -> (r: Result<(ExponentVector, u64), ResolveError>)
    requires
        node_count(defs@) <= usize::MAX,
        nb as int == n_base(defs@),
        state_inv(defs@, old(st)@, stack_view(old(stack)@)),
    ensures
        state_inv(defs@, final(st)@, stack_view(final(stack)@)),
        final(stack)@ == old(stack)@,
        dones_preserved(old(st)@, final(st)@),
        match r {
            Ok(vm) => spec_resolve_factor(defs@, stack_view(old(stack)@), owner@, f@)
                == Ok::<(Seq<int>, u64), ResolveErrorValue>((vm.0@, vm.1)) && vm.0@.len()
                == n_base(defs@) && factor_refs_done(defs@, final(st)@, f@),
            Err(e) => spec_resolve_factor(defs@, stack_view(old(stack)@), owner@, f@)
                == Err::<(Seq<int>, u64), ResolveErrorValue>(e@),
        },
    decreases node_count(defs@) - old(stack)@.len(), 0int, 1nat,
{
    match f {
        Factor::Concrete(c) => {
            let v = ExponentVector::none(nb);
            Ok((v, *c))
        },
        Factor::Other(name) => match lookup_exec(defs, name) {
            None => Err(
                ResolveError::UnknownReference { entry: owner.clone(), reference: name.clone() },
            ),
            Some(j) => resolve_node(defs, nb, st, stack, j),
        },
    }
}

/// Resolve one powered factor: the leaf, then the component-wise multiple and
/// the magnitude power.
fn resolve_pf(
    defs: &UnresolvedDefs,
    nb: usize,
    st: &mut Vec<NodeState>,
    stack: &mut Vec<usize>,
    owner: &String,
    pf: &ExprFactor,
) -> (r: Result<(ExponentVector, u64), ResolveError>)
    requires
        node_count(defs@) <= usize::MAX,
        nb as int == n_base(defs@),
        state_inv(defs@, old(st)@, stack_view(old(stack)@)),
    ensures
        state_inv(defs@, final(st)@, stack_view(final(stack)@)),
        final(stack)@ == old(stack)@,
        dones_preserved(old(st)@, final(st)@),
        match r {
            Ok(vm) => spec_resolve_pf(defs@, stack_view(old(stack)@), owner@, pf@)
                == Ok::<(Seq<int>, u64), ResolveErrorValue>((vm.0@, vm.1)) && vm.0@.len()
                == n_base(defs@) && pf_refs_done(defs@, final(st)@, pf@),
            Err(e) => spec_resolve_pf(defs@, stack_view(old(stack)@), owner@, pf@)
                == Err::<(Seq<int>, u64), ResolveErrorValue>(e@),
        },
    decreases node_count(defs@) - old(stack)@.len(), 1int, 0nat,
{
    match pf {
        ExprFactor::Value(fa) => resolve_factor(defs, nb, st, stack, owner, fa),
        ExprFactor::Power(fa, n) => {
            let vm = match resolve_factor(defs, nb, st, stack, owner, fa) {
                Ok(vm) => vm,
                Err(e) => {
                    return Err(e);
                },
            };
            match vm.0.checked_power(*n) {
                Some(v) => {
                    let m = mag_powi(vm.1, *n);
                    Ok((v, m))
                },
                None => Err(ResolveError::ExponentOverflow { entry: owner.clone() }),
            }
        },
    }
}

/// Resolve one expression tree, combining exponent vectors with exact
/// integer algebra and magnitudes with the matching IEEE-754 operation.
fn resolve_expr(
    defs: &UnresolvedDefs,
    nb: usize,
    st: &mut Vec<NodeState>,
    stack: &mut Vec<usize>,
    owner: &String,
    e: &Expr,
) -> (r: Result<(ExponentVector, u64), ResolveError>)
    requires
        node_count(defs@) <= usize::MAX,
        nb as int == n_base(defs@),
        state_inv(defs@, old(st)@, stack_view(old(stack)@)),
    ensures
        state_inv(defs@, final(st)@, stack_view(final(stack)@)),
        final(stack)@ == old(stack)@,
        dones_preserved(old(st)@, final(st)@),
        match r {
            Ok(vm) => spec_resolve_expr(defs@, stack_view(old(stack)@), owner@, e@)
                == Ok::<(Seq<int>, u64), ResolveErrorValue>((vm.0@, vm.1)) && vm.0@.len()
                == n_base(defs@) && expr_refs_done(defs@, final(st)@, e@),
            Err(er) => spec_resolve_expr(defs@, stack_view(old(stack)@), owner@, e@)
                == Err::<(Seq<int>, u64), ResolveErrorValue>(er@),
        },
    decreases node_count(defs@) - old(stack)@.len(), 2int, expr_size(*e),
{
    match e {
        Expr::Value(pf) => resolve_pf(defs, nb, st, stack, owner, pf),
        Expr::Binary(b) => {
            let l = match resolve_expr(defs, nb, st, stack, owner, &*b.lhs) {
                Ok(vm) => vm,
                Err(er) => {
                    return Err(er);
                },
            };
            let ghost st_mid = st@;
            let rr = match resolve_pf(defs, nb, st, stack, owner, &b.rhs) {
                Ok(vm) => vm,
                Err(er) => {
                    return Err(er);
                },
            };
            proof {
                lemma_expr_refs_done_mono(defs@, st_mid, st@, (&*b.lhs)@);
            }
            match b.operator {
                Operator::Mul => match l.0.checked_multiply(&rr.0) {
                    Some(v) => {
                        let m = mag_mul(l.1, rr.1);
                        Ok((v, m))
                    },
                    None => Err(ResolveError::ExponentOverflow { entry: owner.clone() }),
                },
                Operator::Div => match l.0.checked_divide(&rr.0) {
                    Some(v) => {
                        let m = mag_div(l.1, rr.1);
                        Ok((v, m))
                    },
                    None => Err(ResolveError::ExponentOverflow { entry: owner.clone() }),
                },
            }
        },
    }
}

/// Evaluate the definition of node `i`, already marked in progress: the base
/// declaration or defining expression, then the annotation cross-check.
fn resolve_def(
    defs: &UnresolvedDefs,
    nb: usize,
    st: &mut Vec<NodeState>,
    stack: &mut Vec<usize>,
    i: usize,
) -> (r: Result<(ExponentVector, u64), ResolveError>)
    requires
        node_count(defs@) <= usize::MAX,
        nb as int == n_base(defs@),
        state_inv(defs@, old(st)@, stack_view(old(stack)@)),
        (i as int) < node_count(defs@),
    ensures
        state_inv(defs@, final(st)@, stack_view(final(stack)@)),
        final(stack)@ == old(stack)@,
        dones_preserved(old(st)@, final(st)@),
        match r {
            Ok(vm) => spec_resolve_def(defs@, stack_view(old(stack)@), i as int)
                == Ok::<(Seq<int>, u64), ResolveErrorValue>((vm.0@, vm.1)) && vm.0@.len()
                == n_base(defs@) && def_refs_done(defs@, final(st)@, i as int),
            Err(e) => spec_resolve_def(defs@, stack_view(old(stack)@), i as int)
                == Err::<(Seq<int>, u64), ResolveErrorValue>(e@),
        },
    decreases node_count(defs@) - old(stack)@.len(), 4int, 0nat,
{
    let nd = defs.dimensions.len();
    let nu = defs.units.len();
    if i < nd {
        match &defs.dimensions[i].rhs {
            Definition::Base(_) => {
                let axis = count_base_prefix(defs, i);
                proof {
                    lemma_axis_lt(defs@.dimensions, i as int);
                }
                let v = ExponentVector::base(nb, axis);
                Ok((v, MAG_ONE))
            },
            Definition::Expression(e) => resolve_expr(
                defs,
                nb,
                st,
                stack,
                &defs.dimensions[i].name,
                e,
            ),
        }
    } else if i - nd < nu {
        let base = match &defs.units[i - nd].definition {
            Definition::Base(dim_name) => match lookup_dimension_exec(defs, dim_name) {
                None => Err(
                    ResolveError::UnknownReference {
                        entry: defs.units[i - nd].name.clone(),
                        reference: dim_name.clone(),
                    },
                ),
                Some(j) => match resolve_node(defs, nb, st, stack, j) {
                    Ok(vmj) => Ok((vmj.0, MAG_ONE)),
                    Err(e) => Err(e),
                },
            },
            Definition::Expression(e) => resolve_expr(defs, nb, st, stack, &defs.units[i - nd].name, e),
        };
        let ghost st_mid = st@;
        match base {
            Err(e) => Err(e),
            Ok(vm) => {
                let out = check_annotation(
                    defs,
                    nb,
                    st,
                    stack,
                    &defs.units[i - nd].name,
                    &defs.units[i - nd].dimension_annotation,
                    vm,
                );
                proof {
                    if out is Ok {
                        match defs@.units[i - nd].definition {
                            DefinitionView::Base(_) => {},
                            DefinitionView::Expression(ev) => {
                                lemma_expr_refs_done_mono(defs@, st_mid, st@, ev);
                            },
                        }
                    }
                }
                out
            },
        }
    } else {
        let base = resolve_expr(
            defs,
            nb,
            st,
            stack,
            &defs.constants[i - nd - nu].name,
            &defs.constants[i - nd - nu].rhs,
        );
        let ghost st_mid = st@;
        match base {
            Err(e) => Err(e),
            Ok(vm) => {
                let out = check_annotation(
                    defs,
                    nb,
                    st,
                    stack,
                    &defs.constants[i - nd - nu].name,
                    &defs.constants[i - nd - nu].dimension_annotation,
                    vm,
                );
                proof {
                    if out is Ok {
                        lemma_expr_refs_done_mono(
                            defs@,
                            st_mid,
                            st@,
                            defs@.constants[i - nd - nu].rhs,
                        );
                    }
                }
                out
            },
        }
    }
}

/// Resolve one node: a memoized node returns its stored pair; a node already
/// in progress is a cycle; a fresh node is marked, its definition evaluated,
/// and the result memoized.
fn resolve_node(
    defs: &UnresolvedDefs,
    nb: usize,
    st: &mut Vec<NodeState>,
    stack: &mut Vec<usize>,
    i: usize,
) -> (r: Result<(ExponentVector, u64), ResolveError>)
    requires
        node_count(defs@) <= usize::MAX,
        nb as int == n_base(defs@),
        state_inv(defs@, old(st)@, stack_view(old(stack)@)),
        (i as int) < node_count(defs@),
    ensures
        state_inv(defs@, final(st)@, stack_view(final(stack)@)),
        final(stack)@ == old(stack)@,
        dones_preserved(old(st)@, final(st)@),
        match r {
            Ok(vm) => spec_resolve_node(defs@, stack_view(old(stack)@), i as int)
                == Ok::<(Seq<int>, u64), ResolveErrorValue>((vm.0@, vm.1)) && vm.0@.len()
                == n_base(defs@) && final(st)@[i as int] is Done,
            Err(e) => spec_resolve_node(defs@, stack_view(old(stack)@), i as int)
                == Err::<(Seq<int>, u64), ResolveErrorValue>(e@),
        },
    decreases node_count(defs@) - old(stack)@.len(), 0int, 0nat,
{
    let ghost d = defs@;
    let ghost s0 = stack_view(stack@);
    let memo: Option<(ExponentVector, u64)> = match &st[i] {
        NodeState::Done(v, m) => Some((v.clone(), *m)),
        _ => None,
    };
    match memo {
        Some(vm) => {
            proof {
                assert(done_fact(d, st@, i as int));
                assert(avoids_done(st@, s0)) by {
                    assert forall|q: int| 0 <= q < s0.len() implies !(st@[#[trigger] s0[q]]
                        is Done) by {
                        assert(s0.contains(s0[q]));
                    }
                }
                assert(spec_resolve_node(d, s0, i as int) == Ok::<
                    (Seq<int>, u64),
                    ResolveErrorValue,
                >((vm.0@, vm.1)));
            }
            Ok(vm)
        },
        None => {
            let in_prog = matches!(&st[i], NodeState::InProgress);
            if in_prog {
                let chain = build_chain(defs, stack, i);
                proof {
                    assert(s0.contains(i as int));
                }
                Err(ResolveError::CyclicDefinition { chain })
            } else {
                proof {
                    assert(!s0.contains(i as int));
                    lemma_stack_push(d, s0, i as int);
                }
                let ghost st0 = st@;
                st[i] = NodeState::InProgress;
                stack.push(i);
                let ghost st1 = st@;
                let ghost s1 = stack_view(stack@);
                proof {
                    assert(s1 =~= s0.push(i as int));
                    assert forall|k: int|
                        0 <= k < st1.len() implies ((#[trigger] st1[k] is InProgress)
                        <==> s1.contains(k)) by {
                        lemma_push_contains(s0, i as int, k);
                        if k != i as int {
                            assert(st1[k] == st0[k]);
                        }
                    }
                    assert(dones_preserved(st0, st1));
                    assert forall|k: int| 0 <= k < st1.len() implies #[trigger] done_fact(
                        d,
                        st1,
                        k,
                    ) by {
                        if st1[k] is Done {
                            assert(k != i as int);
                            assert(st1[k] == st0[k]);
                            assert(done_fact(d, st0, k));
                            lemma_done_fact_carry(d, st0, st1, k);
                        }
                    }
                    assert(state_inv(d, st1, s1));
                }
                let res = resolve_def(defs, nb, st, stack, i);
                let ghost st_mid = st@;
                match res {
                    Err(e) => {
                        let _popped = stack.pop();
                        st[i] = NodeState::Unvisited;
                        let ghost st3 = st@;
                        proof {
                            assert(stack_view(stack@) =~= s0);
                            assert forall|k: int|
                                0 <= k < st3.len() implies ((#[trigger] st3[k] is InProgress)
                                <==> s0.contains(k)) by {
                                lemma_push_contains(s0, i as int, k);
                                if k != i as int {
                                    assert(st3[k] == st_mid[k]);
                                }
                            }
                            assert(dones_preserved(st_mid, st3)) by {
                                assert forall|k: int|
                                    0 <= k < st_mid.len() && st_mid[k] is Done implies st3[k]
                                    == #[trigger] st_mid[k] by {
                                    assert(k != i as int);
                                }
                            }
                            assert forall|k: int| 0 <= k < st3.len() implies #[trigger] done_fact(
                                d,
                                st3,
                                k,
                            ) by {
                                if st3[k] is Done {
                                    assert(k != i as int);
                                    assert(st3[k] == st_mid[k]);
                                    assert(done_fact(d, st_mid, k));
                                    lemma_done_fact_carry(d, st_mid, st3, k);
                                }
                            }
                            assert(state_inv(d, st3, s0));
                            assert(dones_preserved(st0, st3));
                            assert(spec_resolve_node(d, s0, i as int) == Err::<
                                (Seq<int>, u64),
                                ResolveErrorValue,
                            >(e@));
                        }
                        Err(e)
                    },
                    Ok(vm) => {
                        let _popped = stack.pop();
                        let vclone = vm.0.clone();
                        let ghost mag = vm.1;
                        st[i] = NodeState::Done(vclone, vm.1);
                        let ghost st2 = st@;
                        proof {
                            assert(stack_view(stack@) =~= s0);
                            // every valid fresh stack resolves this node to the
                            // same pair
                            assert forall|t: Seq<int>|
                                wf_stack(d, t) && avoids_done(st2, t) implies #[trigger] spec_resolve_node(
                                d,
                                t,
                                i as int,
                            ) == Ok::<(Seq<int>, u64), ResolveErrorValue>((vm.0@, vm.1)) by {
                                assert(!t.contains(i as int)) by {
                                    if t.contains(i as int) {
                                        let q = choose|q: int|
                                            0 <= q < t.len() && t[q] == i as int;
                                        assert(!(st2[t[q]] is Done));
                                    }
                                }
                                assert(avoids_done(st_mid, t)) by {
                                    assert forall|q: int|
                                        0 <= q < t.len() implies !(st_mid[#[trigger] t[q]]
                                        is Done) by {
                                        assert(!(st2[t[q]] is Done));
                                        assert(t[q] != i as int);
                                        assert(st2[t[q]] == st_mid[t[q]]);
                                    }
                                }
                                lemma_stack_push(d, t, i as int);
                                let tp = t.push(i as int);
                                assert(avoids_done(st_mid, tp)) by {
                                    assert forall|q: int|
                                        0 <= q < tp.len() implies !(st_mid[#[trigger] tp[q]]
                                        is Done) by {
                                        if q < t.len() {
                                            assert(tp[q] == t[q]);
                                            assert(!(st2[t[q]] is Done));
                                            assert(t[q] != i as int);
                                            assert(st2[t[q]] == st_mid[t[q]]);
                                        } else {
                                            assert(tp[q] == i as int);
                                            assert(st_mid[i as int] is InProgress);
                                        }
                                    }
                                }
                                assert(avoids_done(st_mid, s1)) by {
                                    assert forall|q: int|
                                        0 <= q < s1.len() implies !(st_mid[#[trigger] s1[q]]
                                        is Done) by {
                                        assert(s1.contains(s1[q]));
                                    }
                                }
                                lemma_def_stable(d, st_mid, i as int, tp, s1);
                            }
                            assert forall|k: int|
                                0 <= k < st2.len() implies ((#[trigger] st2[k] is InProgress)
                                <==> s0.contains(k)) by {
                                lemma_push_contains(s0, i as int, k);
                                if k != i as int {
                                    assert(st2[k] == st_mid[k]);
                                }
                            }
                            assert(dones_preserved(st_mid, st2)) by {
                                assert forall|k: int|
                                    0 <= k < st_mid.len() && st_mid[k] is Done implies st2[k]
                                    == #[trigger] st_mid[k] by {
                                    assert(k != i as int);
                                }
                            }
                            assert forall|k: int| 0 <= k < st2.len() implies #[trigger] done_fact(
                                d,
                                st2,
                                k,
                            ) by {
                                if st2[k] is Done {
                                    if k == i as int {
                                        assert(st2[k] == NodeState::Done(vclone, mag));
                                        assert(vclone@ == vm.0@);
                                        assert(done_fact(d, st2, k));
                                    } else {
                                        assert(st2[k] == st_mid[k]);
                                        assert(done_fact(d, st_mid, k));
                                        lemma_done_fact_carry(d, st_mid, st2, k);
                                    }
                                }
                            }
                            assert(state_inv(d, st2, s0));
                            assert(dones_preserved(st0, st2));
                            assert(avoids_done(st2, s0)) by {
                                assert forall|q: int|
                                    0 <= q < s0.len() implies !(st2[#[trigger] s0[q]] is Done) by {
                                    assert(s0.contains(s0[q]));
                                }
                            }
                            assert(spec_resolve_node(d, s0, i as int) == Ok::<
                                (Seq<int>, u64),
                                ResolveErrorValue,
                            >((vm.0@, vm.1)));
                        }
                        Ok(vm)
                    },
                }
            }
        },
    }
}

/// What a found duplicate pair means, carried down the scan.
proof fn lemma_dup_with_props(us: Seq<UnitEntryView>, i: int, a: int, j: int)
    requires
        0 <= i < us.len(),
        0 <= a,
        dup_with(us, i, a) == Some(j),
    ensures
        a <= j < us.len(),
        us[i].symbol is Some,
        us[j].symbol is Some,
        us[i].symbol->Some_0 == us[j].symbol->Some_0,
    decreases us.len() - a,
{
    if a < us.len() {
        if us[i].symbol is Some && us[a].symbol is Some && us[i].symbol->Some_0
            == us[a].symbol->Some_0 {
        } else {
            lemma_dup_with_props(us, i, a + 1, j);
        }
    }
}

/// What a found duplicate pair means, from any scan start.
proof fn lemma_dup_from_props(us: Seq<UnitEntryView>, a: int, i: int, j: int)
    requires
        0 <= a,
        dup_from(us, a) == Some((i, j)),
    ensures
        a <= i < us.len(),
        i < j < us.len(),
        us[i].symbol is Some,
        us[j].symbol is Some,
        us[i].symbol->Some_0 == us[j].symbol->Some_0,
    decreases us.len() - a,
{
    if a < us.len() {
        match dup_with(us, a, a + 1) {
            Some(w) => {
                lemma_dup_with_props(us, a, a + 1, w);
            },
            None => {
                lemma_dup_from_props(us, a + 1, i, j);
            },
        }
    }
}

/// Two optional symbols that are both present and equal.
fn symbols_match(a: &Option<String>, b: &Option<String>) -> (r: bool)
    ensures
        r == (crate::types::opt_name_view(*a) is Some && crate::types::opt_name_view(*b) is Some
            && crate::types::opt_name_view(*a)->Some_0 == crate::types::opt_name_view(
            *b,
        )->Some_0),
{
    match (a, b) {
        (Some(x), Some(y)) => *x == *y,
        _ => false,
    }
}

/// The first pair of unit entries that format to the same symbol, scanning
/// in declaration order.
fn find_duplicate_symbol(defs: &UnresolvedDefs) -> (r: Option<(usize, usize)>)
    ensures
        match r {
            Some(p) => spec_dup_symbol(defs@) == Some((p.0 as int, p.1 as int)),
            None => spec_dup_symbol(defs@) is None,
        },
{
    let ghost us = defs@.units;
    let n = defs.units.len();
    let mut i: usize = 0;
    while i < n
        invariant
            i <= n,
            n == us.len(),
            us == defs@.units,
            defs@.units.len() == defs.units@.len(),
            dup_from(us, 0) == dup_from(us, i as int),
        decreases n - i,
    {
        let mut j: usize = i + 1;
        while j < n
            invariant
                i < j <= n || (i + 1 == j && j > n),
                i < n,
                n == us.len(),
                us == defs@.units,
                defs@.units.len() == defs.units@.len(),
                dup_from(us, 0) == dup_from(us, i as int),
                dup_with(us, i as int, i as int + 1) == dup_with(us, i as int, j as int),
            decreases n - j,
        {
            if symbols_match(&defs.units[i].symbol, &defs.units[j].symbol) {
                proof {
                    assert(us[i as int].symbol == crate::types::opt_name_view(
                        defs.units@[i as int].symbol,
                    ));
                    assert(dup_with(us, i as int, j as int) == Some(j as int));
                    assert(dup_with(us, i as int, i as int + 1) == Some(j as int));
                    assert(dup_from(us, i as int) == Some((i as int, j as int)));
                    assert(dup_from(us, 0) == Some((i as int, j as int)));
                }
                return Some((i, j));
            }
            j += 1;
        }
        proof {
            assert(dup_with(us, i as int, i as int + 1) is None);
        }
        i += 1;
    }
    None
}

impl UnresolvedDefs {
    /// Resolve the whole definition set: reject duplicate unit symbols, then
    /// resolve every dimension, unit and constant in declaration order, and
    /// collect the table.  The result is exactly `spec_resolve_defs` of the
    /// input: one resolved entry per input entry on success, and the first
    /// structured diagnostic otherwise.
    pub fn resolve(&self) -> (r: Result<ResolvedDefs, ResolveError>)
        requires
            node_count(self@) <= usize::MAX,
        ensures
            match r {
                Ok(res) => {
                    &&& spec_resolve_defs(self@) == Ok::<ResolvedDefsValue, ResolveErrorValue>(
                        res@,
                    )
                    &&& res@.dimensions.len() == self@.dimensions.len()
                    &&& res@.units.len() == self@.units.len()
                    &&& res@.constants.len() == self@.constants.len()
                },
                Err(e) => spec_resolve_defs(self@) == Err::<ResolvedDefsValue, ResolveErrorValue>(
                    e@,
                ),
            },
    {
        let ghost d = self@;
        match find_duplicate_symbol(self) {
            Some((i, j)) => {
                proof {
                    lemma_dup_from_props(d.units, 0, i as int, j as int);
                }
                let symbol = match &self.units[i].symbol {
                    Some(sy) => sy.clone(),
                    None => {
                        proof {
                            assert(false);
                        }
                        String::new()
                    },
                };
                return Err(
                    ResolveError::DuplicateSymbol {
                        symbol,
                        first: self.units[i].name.clone(),
                        second: self.units[j].name.clone(),
                    },
                );
            },
            None => {},
        }
        let n = total_nodes(self);
        let nb = base_dimension_count(self);
        let mut st: Vec<NodeState> = Vec::new();
        let mut k: usize = 0;
        while k < n
            invariant
                k <= n,
                st@.len() == k,
                forall|q: int| 0 <= q < k ==> !((#[trigger] st@[q]) is InProgress) && !(st@[q]
                    is Done),
            decreases n - k,
        {
            st.push(NodeState::Unvisited);
            k += 1;
        }
        let mut stack: Vec<usize> = Vec::new();
        proof {
            assert(stack_view(stack@) =~= Seq::<int>::empty());
            assert(state_inv(d, st@, stack_view(stack@)));
        }
        let mut k: usize = 0;
        while k < n
            invariant
                k <= n,
                n as int == node_count(d),
                d == self@,
                node_count(d) <= usize::MAX,
                nb as int == n_base(d),
                state_inv(d, st@, stack_view(stack@)),
                stack@.len() == 0,
                spec_dup_symbol(d) is None,
                first_failure_from(d, 0) == first_failure_from(d, k as int),
                forall|q: int| 0 <= q < k ==> (#[trigger] st@[q]) is Done,
            decreases n - k,
        {
            let ghost st_before = st@;
            let res = resolve_node(self, nb, &mut st, &mut stack, k);
            proof {
                assert(stack_view(stack@) =~= Seq::<int>::empty());
            }
            match res {
                Ok(_) => {
                    proof {
                        assert(spec_node_result(d, k as int) is Ok);
                        assert forall|q: int| 0 <= q < k + 1 implies (#[trigger] st@[q])
                            is Done by {
                            if q < k {
                                assert(st_before[q] is Done);
                                assert(st@[q] == st_before[q]);
                            }
                        }
                    }
                    k += 1;
                },
                Err(e) => {
                    proof {
                        assert(spec_node_result(d, k as int) == Err::<
                            (Seq<int>, u64),
                            ResolveErrorValue,
                        >(e@));
                        assert(first_failure_from(d, k as int) == Some(e@));
                    }
                    return Err(e);
                },
            }
        }
        proof {
            assert(first_failure_from(d, n as int) is None);
        }
        // every node is finished; read the memo into the resolved table
        let nd = self.dimensions.len();
        let nu = self.units.len();
        let nc = self.constants.len();
        let mut base_dimensions: Vec<String> = Vec::new();
        let mut k: usize = 0;
        while k < nd
            invariant
                k <= nd,
                nd == self@.dimensions.len(),
                d == self@,
                spec_dup_symbol(d) is None,
                first_failure_from(d, 0) is None,
                base_dimensions@.map_values(|x: String| x@) == spec_base_names(
                    d.dimensions.take(k as int),
                ),
            decreases nd - k,
        {
            proof {
                assert(d.dimensions.take(k + 1).drop_last() =~= d.dimensions.take(k as int));
                assert(d.dimensions.take(k + 1).last() == d.dimensions[k as int]);
            }
            let ghost before = base_dimensions@.map_values(|x: String| x@);
            if self.dimensions[k].is_base_dimension() {
                base_dimensions.push(self.dimensions[k].name.clone());
                proof {
                    assert(base_dimensions@.map_values(|x: String| x@) =~= before + seq![
                        d.dimensions[k as int].name,
                    ]);
                }
            }
            k += 1;
        }
        proof {
            assert(d.dimensions.take(nd as int) =~= d.dimensions);
        }
        let mut dimensions: Vec<Dimension> = Vec::new();
        let mut k: usize = 0;
        while k < nd
            invariant
                k <= nd,
                nd == self@.dimensions.len(),
                d == self@,
                n as int == node_count(d),
                node_count(d) <= usize::MAX,
                state_inv(d, st@, stack_view(stack@)),
                stack@.len() == 0,
                forall|q: int| 0 <= q < n ==> (#[trigger] st@[q]) is Done,
                spec_dup_symbol(d) is None,
                first_failure_from(d, 0) is None,
                dimensions@.len() == k,
                forall|q: int|
                    0 <= q < k ==> (#[trigger] dimensions@[q])@ == spec_collect(d).dimensions[q],
            decreases nd - k,
        {
            match &st[k] {
                NodeState::Done(v, _m) => {
                    proof {
                        assert(done_fact(d, st@, k as int));
                        assert(avoids_done(st@, Seq::<int>::empty()));
                        assert(wf_stack(d, Seq::<int>::empty()));
                        assert(spec_node_result(d, k as int) == Ok::<
                            (Seq<int>, u64),
                            ResolveErrorValue,
                        >((v@, *_m)));
                    }
                    let entry = Dimension { name: self.dimensions[k].name.clone(), dimensions: v.clone() };
                    dimensions.push(entry);
                },
                _ => {
                    proof {
                        assert(false);
                    }
                },
            }
            k += 1;
        }
        let mut units: Vec<Unit> = Vec::new();
        let mut k: usize = 0;
        while k < nu
            invariant
                k <= nu,
                nd == self@.dimensions.len(),
                nu == self@.units.len(),
                d == self@,
                n as int == node_count(d),
                node_count(d) <= usize::MAX,
                state_inv(d, st@, stack_view(stack@)),
                stack@.len() == 0,
                forall|q: int| 0 <= q < n ==> (#[trigger] st@[q]) is Done,
                spec_dup_symbol(d) is None,
                first_failure_from(d, 0) is None,
                units@.len() == k,
                forall|q: int| 0 <= q < k ==> (#[trigger] units@[q])@ == spec_collect(d).units[q],
            decreases nu - k,
        {
            match &st[nd + k] {
                NodeState::Done(v, m) => {
                    proof {
                        assert(done_fact(d, st@, nd + k as int));
                        assert(avoids_done(st@, Seq::<int>::empty()));
                        assert(wf_stack(d, Seq::<int>::empty()));
                        assert(spec_node_result(d, nd + k as int) == Ok::<
                            (Seq<int>, u64),
                            ResolveErrorValue,
                        >((v@, *m)));
                    }
                    let u = &self.units[k];
                    let symbol = match &u.symbol {
                        None => None,
                        Some(sy) => Some(sy.clone()),
                    };
                    let is_base_unit = matches!(&u.definition, Definition::Base(_));
                    let entry = Unit {
                        name: u.name.clone(),
                        dimensions: v.clone(),
                        magnitude: *m,
                        symbol,
                        is_base_unit,
                    };
                    units.push(entry);
                },
                _ => {
                    proof {
                        assert(false);
                    }
                },
            }
            k += 1;
        }
        let mut constants: Vec<Constant> = Vec::new();
        let mut k: usize = 0;
        while k < nc
            invariant
                k <= nc,
                nd == self@.dimensions.len(),
                nu == self@.units.len(),
                nc == self@.constants.len(),
                d == self@,
                n as int == node_count(d),
                node_count(d) <= usize::MAX,
                state_inv(d, st@, stack_view(stack@)),
                stack@.len() == 0,
                forall|q: int| 0 <= q < n ==> (#[trigger] st@[q]) is Done,
                spec_dup_symbol(d) is None,
                first_failure_from(d, 0) is None,
                constants@.len() == k,
                forall|q: int|
                    0 <= q < k ==> (#[trigger] constants@[q])@ == spec_collect(d).constants[q],
            decreases nc - k,
        {
            match &st[nd + nu + k] {
                NodeState::Done(v, m) => {
                    proof {
                        assert(done_fact(d, st@, nd + nu + k as int));
                        assert(avoids_done(st@, Seq::<int>::empty()));
                        assert(wf_stack(d, Seq::<int>::empty()));
                        assert(spec_node_result(d, nd + nu + k as int) == Ok::<
                            (Seq<int>, u64),
                            ResolveErrorValue,
                        >((v@, *m)));
                    }
                    let entry = Constant {
                        name: self.constants[k].name.clone(),
                        dimensions: v.clone(),
                        magnitude: *m,
                    };
                    constants.push(entry);
                },
                _ => {
                    proof {
                        assert(false);
                    }
                },
            }
            k += 1;
        }
        let res = ResolvedDefs { base_dimensions, dimensions, units, constants };
        proof {
            assert(res@.base_dimensions == spec_collect(d).base_dimensions);
            assert(res@.dimensions =~= spec_collect(d).dimensions);
            assert(res@.units =~= spec_collect(d).units);
            assert(res@.constants =~= spec_collect(d).constants);
            assert(res@ == spec_collect(d));
        }
        Ok(res)
    }
}

/// Resolution is deterministic: it is a pure function of the definition set,
/// so resolving the same definitions twice yields value-identical results.
pub proof fn lemma_resolution_deterministic(
    d: DefsView,
    r1: Result<ResolvedDefsValue, ResolveErrorValue>,
    r2: Result<ResolvedDefsValue, ResolveErrorValue>,
)
    requires
        r1 == spec_resolve_defs(d),
        r2 == spec_resolve_defs(d),
    ensures
        r1 == r2,
{
}

/// A successful resolution is cardinality-preserving: exactly one resolved
/// entry per input dimension, unit and constant, and the base-dimension list
/// carries one name per base dimension entry.
pub proof fn lemma_resolution_cardinality(d: DefsView, res: ResolvedDefsValue)
    requires
        spec_resolve_defs(d) == Ok::<ResolvedDefsValue, ResolveErrorValue>(res),
    ensures
        res.dimensions.len() == d.dimensions.len(),
        res.units.len() == d.units.len(),
        res.constants.len() == d.constants.len(),
        res.base_dimensions.len() == n_base(d),
{
    lemma_base_names_len(d.dimensions);
}

/// The base-name list is exactly as long as the base-dimension count.
proof fn lemma_base_names_len(s: Seq<DimensionEntryView>)
    ensures
        spec_base_names(s).len() == count_base(s),
    decreases s.len(),
{
    if s.len() > 0 {
        lemma_base_names_len(s.drop_last());
        lemma_count_base_bounds(s.drop_last());
    }
}

/// Every reference of the leaf exists and ranks strictly below `r`.
pub open spec fn ranks_ok_factor(d: DefsView, rank: spec_fn(int) -> nat, f: FactorView, r: nat) -> bool {
    match f {
        FactorView::Concrete(_) => true,
        FactorView::Other(name) => {
            &&& lookup(d, name) matches Some(j)
            &&& rank(lookup(d, name)->Some_0) < r
        },
    }
}

pub open spec fn ranks_ok_pf(d: DefsView, rank: spec_fn(int) -> nat, pf: ExprFactorView, r: nat) -> bool {
    match pf {
        ExprFactorView::Value(f) => ranks_ok_factor(d, rank, f, r),
        ExprFactorView::Power(f, _) => ranks_ok_factor(d, rank, f, r),
    }
}

/// Every reference of the expression exists and ranks strictly below `r`.
pub open spec fn ranks_ok_expr(d: DefsView, rank: spec_fn(int) -> nat, e: ExprView, r: nat) -> bool
    decreases e,
{
    match e {
        ExprView::Value(pf) => ranks_ok_pf(d, rank, pf, r),
        ExprView::Binary(lhs, rhs, _) => ranks_ok_expr(d, rank, *lhs, r) && ranks_ok_pf(
            d,
            rank,
            rhs,
            r,
        ),
    }
}

/// An optional annotation names an existing dimension of strictly lower rank.
pub open spec fn ranks_ok_ann(
    d: DefsView,
    rank: spec_fn(int) -> nat,
    ann: Option<Seq<char>>,
    r: nat,
) -> bool {
    match ann {
        None => true,
        Some(a) => {
            &&& lookup_dimension(d, a) matches Some(j)
            &&& rank(lookup_dimension(d, a)->Some_0) < r
        },
    }
}

/// Every reference of node `i`'s definition exists and ranks strictly below
/// the node itself.
pub open spec fn def_ranks_ok(d: DefsView, rank: spec_fn(int) -> nat, i: int) -> bool {
    let nd = d.dimensions.len() as int;
    let nu = d.units.len() as int;
    if i < nd {
        match d.dimensions[i].rhs {
            DefinitionView::Base(_) => true,
            DefinitionView::Expression(e) => ranks_ok_expr(d, rank, e, rank(i)),
        }
    } else if i < nd + nu {
        let u = d.units[i - nd];
        &&& match u.definition {
            DefinitionView::Base(nm) => {
                &&& lookup_dimension(d, nm) matches Some(j)
                &&& rank(lookup_dimension(d, nm)->Some_0) < rank(i)
            },
            DefinitionView::Expression(e) => ranks_ok_expr(d, rank, e, rank(i)),
        }
        &&& ranks_ok_ann(d, rank, u.dimension_annotation, rank(i))
    } else {
        let c = d.constants[i - nd - nu];
        &&& ranks_ok_expr(d, rank, c.rhs, rank(i))
        &&& ranks_ok_ann(d, rank, c.dimension_annotation, rank(i))
    }
}

/// The definition set is well formed and acyclic: `rank` witnesses that every
/// reference points at an existing entry of strictly lower rank.
pub open spec fn ranked(d: DefsView, rank: spec_fn(int) -> nat) -> bool {
    forall|i: int| 0 <= i < node_count(d) ==> #[trigger] def_ranks_ok(d, rank, i)
}

/// The evaluation either succeeded, or failed on a semantic check — never on
/// a missing name or a cycle.
pub open spec fn eval_clean(r: EvalResult) -> bool {
    match r {
        Ok(_) => true,
        Err(e) => e is DimensionMismatch || e is ExponentOverflow,
    }
}

/// Resolving node `i` from a standing start neither mismatches an annotation
/// nor overflows an exponent.
pub open spec fn semantic_checks_pass(d: DefsView, i: int) -> bool {
    !(spec_node_result(d, i) matches Err(e) && (e is DimensionMismatch
        || e is ExponentOverflow))
}

/// A looked-up node index lies in range.
proof fn lemma_lookup_in_range(d: DefsView, name: Seq<char>, a: int, j: int)
    requires
        0 <= a,
        lookup_from(d, name, a) == Some(j),
    ensures
        a <= j < node_count(d),
    decreases node_count(d) - a,
{
    if a < node_count(d) && !(node_name(d, a) == name) {
        lemma_lookup_in_range(d, name, a + 1, j);
    }
}

/// A looked-up dimension index lies in range.
proof fn lemma_lookup_dimension_in_range(d: DefsView, name: Seq<char>, a: int, j: int)
    requires
        0 <= a,
        lookup_dimension_from(d, name, a) == Some(j),
    ensures
        a <= j < d.dimensions.len(),
    decreases d.dimensions.len() - a,
{
    if a < d.dimensions.len() && !(d.dimensions[a].name == name) {
        lemma_lookup_dimension_in_range(d, name, a + 1, j);
    }
}

/// A leaf over lower-ranked references evaluates without reference errors
/// under any stack whose entries rank at least `r`.
proof fn lemma_factor_succeeds(
    d: DefsView,
    rank: spec_fn(int) -> nat,
    t: Seq<int>,
    o: Seq<char>,
    f: FactorView,
    r: nat,
)
    requires
        wf_stack(d, t),
        ranked(d, rank),
        ranks_ok_factor(d, rank, f, r),
        forall|q: int| 0 <= q < t.len() ==> rank(#[trigger] t[q]) >= r,
    ensures
        eval_clean(spec_resolve_factor(d, t, o, f)),
    decreases r, 1int, 0nat,
{
    match f {
        FactorView::Concrete(_) => {},
        FactorView::Other(name) => {
            let j = lookup(d, name)->Some_0;
            lemma_lookup_in_range(d, name, 0, j);
            lemma_node_succeeds(d, rank, t, j);
        },
    }
}

proof fn lemma_pf_succeeds(
    d: DefsView,
    rank: spec_fn(int) -> nat,
    t: Seq<int>,
    o: Seq<char>,
    pf: ExprFactorView,
    r: nat,
)
    requires
        wf_stack(d, t),
        ranked(d, rank),
        ranks_ok_pf(d, rank, pf, r),
        forall|q: int| 0 <= q < t.len() ==> rank(#[trigger] t[q]) >= r,
    ensures
        eval_clean(spec_resolve_pf(d, t, o, pf)),
    decreases r, 2int, 0nat,
{
    match pf {
        ExprFactorView::Value(f) => lemma_factor_succeeds(d, rank, t, o, f, r),
        ExprFactorView::Power(f, _) => lemma_factor_succeeds(d, rank, t, o, f, r),
    }
}

/// An expression over lower-ranked references evaluates without reference
/// errors under any stack whose entries rank at least `r`.
proof fn lemma_expr_succeeds(
    d: DefsView,
    rank: spec_fn(int) -> nat,
    t: Seq<int>,
    o: Seq<char>,
    e: ExprView,
    r: nat,
)
    requires
        wf_stack(d, t),
        ranked(d, rank),
        ranks_ok_expr(d, rank, e, r),
        forall|q: int| 0 <= q < t.len() ==> rank(#[trigger] t[q]) >= r,
    ensures
        eval_clean(spec_resolve_expr(d, t, o, e)),
    decreases r, 3int, view_size(e),
{
    match e {
        ExprView::Value(pf) => lemma_pf_succeeds(d, rank, t, o, pf, r),
        ExprView::Binary(lhs, rhs, _) => {
            lemma_expr_succeeds(d, rank, t, o, *lhs, r);
            lemma_pf_succeeds(d, rank, t, o, rhs, r);
        },
    }
}

/// Resolving a node never fails on a missing name or a cycle when every
/// stack entry ranks strictly above it and the whole set is ranked.
proof fn lemma_node_succeeds(d: DefsView, rank: spec_fn(int) -> nat, t: Seq<int>, i: int)
    requires
        wf_stack(d, t),
        ranked(d, rank),
        0 <= i < node_count(d),
        forall|q: int| 0 <= q < t.len() ==> rank(#[trigger] t[q]) > rank(i),
    ensures
        eval_clean(spec_resolve_node(d, t, i)),
    decreases rank(i), 5int, 0nat,
{
    assert(!t.contains(i)) by {
        if t.contains(i) {
            let q = choose|q: int| 0 <= q < t.len() && t[q] == i;
            assert(rank(t[q]) > rank(i));
        }
    }
    lemma_stack_push(d, t, i);
    let tp = t.push(i);
    assert(def_ranks_ok(d, rank, i));
    assert forall|q: int| 0 <= q < tp.len() implies rank(#[trigger] tp[q]) >= rank(i) by {
        if q < t.len() {
            assert(tp[q] == t[q]);
        } else {
            assert(tp[q] == i);
        }
    }
    assert(spec_resolve_node(d, t, i) == spec_resolve_def(d, tp, i));
    let nd = d.dimensions.len() as int;
    let nu = d.units.len() as int;
    if i < nd {
        match d.dimensions[i].rhs {
            DefinitionView::Base(_) => {
                assert(eval_clean(spec_resolve_def(d, tp, i)));
            },
            DefinitionView::Expression(e) => {
                lemma_expr_succeeds(d, rank, tp, node_name(d, i), e, rank(i));
                assert(spec_resolve_def(d, tp, i) == spec_resolve_expr(d, tp, node_name(d, i), e));
            },
        }
    } else if i < nd + nu {
        let u = d.units[i - nd];
        let base = match u.definition {
            DefinitionView::Base(nm) => {
                let j = lookup_dimension(d, nm)->Some_0;
                lemma_lookup_dimension_in_range(d, nm, 0, j);
                lemma_node_succeeds(d, rank, tp, j);
                match spec_resolve_node(d, tp, j) {
                    Ok(vm) => Ok((vm.0, MAG_ONE)),
                    Err(e) => Err(e),
                }
            },
            DefinitionView::Expression(e) => {
                lemma_expr_succeeds(d, rank, tp, u.name, e, rank(i));
                spec_resolve_expr(d, tp, u.name, e)
            },
        };
        assert(eval_clean(base));
        assert(spec_resolve_def(d, tp, i) == spec_check_annotation(
            d,
            tp,
            u.name,
            u.dimension_annotation,
            base,
        ));
        lemma_ann_succeeds(d, rank, tp, u.dimension_annotation, rank(i));
        lemma_check_annotation_clean(d, tp, u.name, u.dimension_annotation, base);
    } else {
        let c = d.constants[i - nd - nu];
        lemma_expr_succeeds(d, rank, tp, c.name, c.rhs, rank(i));
        let base = spec_resolve_expr(d, tp, c.name, c.rhs);
        assert(spec_resolve_def(d, tp, i) == spec_check_annotation(
            d,
            tp,
            c.name,
            c.dimension_annotation,
            base,
        ));
        lemma_ann_succeeds(d, rank, tp, c.dimension_annotation, rank(i));
        lemma_check_annotation_clean(d, tp, c.name, c.dimension_annotation, base);
    }
}

/// The annotation cross-check keeps an evaluation clean when the annotated
/// dimension itself resolves cleanly.
proof fn lemma_check_annotation_clean(
    d: DefsView,
    t: Seq<int>,
    owner: Seq<char>,
    ann: Option<Seq<char>>,
    base: EvalResult,
)
    requires
        wf_stack(d, t),
        eval_clean(base),
        match ann {
            None => true,
            Some(a) => lookup_dimension(d, a) matches Some(j) && eval_clean(
                spec_resolve_node(d, t, j),
            ),
        },
    ensures
        eval_clean(spec_check_annotation(d, t, owner, ann, base)),
{
    match base {
        Err(_) => {},
        Ok(vm) => match ann {
            None => {},
            Some(a) => {
                let j = lookup_dimension(d, a)->Some_0;
                lemma_lookup_dimension_in_range(d, a, 0, j);
                assert(0 <= j < node_count(d));
                match spec_resolve_node(d, t, j) {
                    Err(_) => {},
                    Ok(av) => {
                        if av.0 == vm.0 {
                            assert(spec_check_annotation(d, t, owner, ann, base) == Ok::<
                                (Seq<int>, u64),
                                ResolveErrorValue,
                            >(vm));
                        } else {
                            assert(spec_check_annotation(d, t, owner, ann, base) == Err::<
                                (Seq<int>, u64),
                                ResolveErrorValue,
                            >(
                                ResolveErrorValue::DimensionMismatch {
                                    entry: owner,
                                    declared: av.0,
                                    inferred: vm.0,
                                },
                            ));
                        }
                    },
                }
            },
        },
    }
}

/// Resolving an annotation's dimension never fails on a missing name or a
/// cycle.
proof fn lemma_ann_succeeds(
    d: DefsView,
    rank: spec_fn(int) -> nat,
    t: Seq<int>,
    ann: Option<Seq<char>>,
    r: nat,
)
    requires
        wf_stack(d, t),
        ranked(d, rank),
        ranks_ok_ann(d, rank, ann, r),
        forall|q: int| 0 <= q < t.len() ==> rank(#[trigger] t[q]) >= r,
    ensures
        match ann {
            None => true,
            Some(a) => lookup_dimension(d, a) matches Some(j) && eval_clean(
                spec_resolve_node(d, t, j),
            ),
        },
    decreases r, 4int, 0nat,
{
    match ann {
        None => {},
        Some(a) => {
            let j = lookup_dimension(d, a)->Some_0;
            lemma_lookup_dimension_in_range(d, a, 0, j);
            lemma_node_succeeds(d, rank, t, j);
        },
    }
}

/// With every node resolving successfully, the scan finds no failure.
proof fn lemma_no_failure(d: DefsView, a: int)
    requires
        0 <= a,
        forall|i: int| 0 <= i < node_count(d) ==> (#[trigger] spec_node_result(d, i)) is Ok,
    ensures
        first_failure_from(d, a) is None,
    decreases node_count(d) - a,
{
    if a < node_count(d) {
        lemma_no_failure(d, a + 1);
    }
}

/// For every well-formed, acyclic definition set, resolution succeeds and is
/// cardinality-preserving: exactly one resolved entry per input dimension,
/// unit and constant.  `rank` witnesses acyclicity: every reference points at
/// an existing entry of strictly lower rank.  Well-formedness asks, beyond
/// that, for distinct unit symbols and for definitions that pass the two
/// semantic checks — no annotation disagrees with its inferred dimension and
/// no exponent leaves the exponent type — since a definition set that fails
/// one of those checks is rejected with the matching diagnostic.
pub proof fn lemma_resolution_succeeds(d: DefsView, rank: spec_fn(int) -> nat)
    requires
        ranked(d, rank),
        spec_dup_symbol(d) is None,
        forall|i: int| 0 <= i < node_count(d) ==> #[trigger] semantic_checks_pass(d, i),
    ensures
        spec_resolve_defs(d) is Ok,
        spec_resolve_defs(d)->Ok_0.dimensions.len() == d.dimensions.len(),
        spec_resolve_defs(d)->Ok_0.units.len() == d.units.len(),
        spec_resolve_defs(d)->Ok_0.constants.len() == d.constants.len(),
{
    assert(wf_stack(d, Seq::<int>::empty()));
    assert forall|i: int| 0 <= i < node_count(d) implies (#[trigger] spec_node_result(d, i))
        is Ok by {
        lemma_node_succeeds(d, rank, Seq::<int>::empty(), i);
        assert(semantic_checks_pass(d, i));
    }
    lemma_no_failure(d, 0);
}





} // verus!
