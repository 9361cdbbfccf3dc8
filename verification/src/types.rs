//! The definition entries, unit templates and definition containers.
//!
//! A `UnitTemplate` stands for a whole family of units: the template itself
//! plus one entry per (prefix, alias) combination.  `expand_templates` turns
//! each template into its concrete `UnitEntry` set before resolution, so that
//! dependency resolution only ever sees concrete, uniquely named entries.

use vstd::prelude::*;
use vstd::string::StringExecFns;
use crate::expression::{BinaryOperator, Expr, ExprFactor, ExprView, ExprFactorView, Factor,
    FactorView, Operator};
use crate::magnitude::MAG_ONE;

verus! {

/// The view of an optional name.
pub open spec fn opt_name_view(o: Option<String>) -> Option<Seq<char>> {
    match o {
        None => None,
        Some(s) => Some(s@),
    }
}

/// A definition: a new base entity, or an expression over other entries.
#[derive(Debug)]
pub enum Definition<B> {
    Base(B),
    Expression(Expr),
}

/// The mathematical value of a `Definition`.
pub enum DefinitionView<B> {
    Base(B),
    Expression(ExprView),
}

impl View for Definition<()> {
    type V = DefinitionView<()>;

    open spec fn view(&self) -> DefinitionView<()> {
        match self {
            Definition::Base(b) => DefinitionView::Base(*b),
            Definition::Expression(e) => DefinitionView::Expression(e@),
        }
    }
}

impl View for Definition<String> {
    type V = DefinitionView<Seq<char>>;

    open spec fn view(&self) -> DefinitionView<Seq<char>> {
        match self {
            Definition::Base(s) => DefinitionView::Base(s@),
            Definition::Expression(e) => DefinitionView::Expression(e@),
        }
    }
}

impl Clone for Definition<String> {
    fn clone(&self) -> (r: Self)
        ensures
            r == *self,
    {
        match self {
            Definition::Base(s) => Definition::Base(s.clone()),
            Definition::Expression(e) => Definition::Expression(e.clone()),
        }
    }
}

/// A named dimension: a fresh base dimension, or an expression over other
/// dimensions.
#[derive(Debug)]
pub struct DimensionEntry {
    pub name: String,
    pub rhs: Definition<()>,
}

/// The mathematical value of a `DimensionEntry`.
pub struct DimensionEntryView {
    pub name: Seq<char>,
    pub rhs: DefinitionView<()>,
}

impl View for DimensionEntry {
    type V = DimensionEntryView;

    open spec fn view(&self) -> DimensionEntryView {
        DimensionEntryView { name: self.name@, rhs: self.rhs@ }
    }
}

impl DimensionEntry {
    /// The entry declares a fresh base dimension rather than a derived one.
    pub fn is_base_dimension(&self) -> (r: bool)
        ensures
            r == (self@.rhs is Base),
    {
        matches!(self.rhs, Definition::Base(_))
    }
}

/// An alternate name for the same unit.
#[derive(Debug)]
pub struct Alias {
    pub name: String,
}

/// The mathematical value of an `Alias`.
pub struct AliasView {
    pub name: Seq<char>,
}

impl View for Alias {
    type V = AliasView;

    open spec fn view(&self) -> AliasView {
        AliasView { name: self.name@ }
    }
}

/// A unit prefix: a name fragment, a short form for symbols, and a numeric
/// multiplier (the bit pattern of a double).
#[derive(Debug)]
pub struct Prefix {
    pub name: String,
    pub short: String,
    pub factor: u64,
}

/// The mathematical value of a `Prefix`.
pub struct PrefixView {
    pub name: Seq<char>,
    pub short: Seq<char>,
    pub factor: u64,
}

impl View for Prefix {
    type V = PrefixView;

    open spec fn view(&self) -> PrefixView {
        PrefixView { name: self.name@, short: self.short@, factor: self.factor }
    }
}

/// A named physical constant with a defining expression and an optional
/// dimension annotation for cross-checking.
#[derive(Debug)]
pub struct ConstantEntry {
    pub name: String,
    pub rhs: Expr,
    pub dimension_annotation: Option<String>,
}

/// The mathematical value of a `ConstantEntry`.
pub struct ConstantEntryView {
    pub name: Seq<char>,
    pub rhs: ExprView,
    pub dimension_annotation: Option<Seq<char>>,
}

impl View for ConstantEntry {
    type V = ConstantEntryView;

    open spec fn view(&self) -> ConstantEntryView {
        ConstantEntryView {
            name: self.name@,
            rhs: self.rhs@,
            dimension_annotation: opt_name_view(self.dimension_annotation),
        }
    }
}

/// A named unit family: the unit itself plus the prefix and alias
/// combinations it stands for.
#[derive(Debug)]
pub struct UnitTemplate {
    pub name: String,
    pub symbol: Option<String>,
    pub aliases: Vec<Alias>,
    pub prefixes: Vec<Prefix>,
    pub dimension_annotation: Option<String>,
    pub definition: Definition<String>,
}

/// The mathematical value of a `UnitTemplate`.
pub struct UnitTemplateView {
    pub name: Seq<char>,
    pub symbol: Option<Seq<char>>,
    pub aliases: Seq<AliasView>,
    pub prefixes: Seq<PrefixView>,
    pub dimension_annotation: Option<Seq<char>>,
    pub definition: DefinitionView<Seq<char>>,
}

impl View for UnitTemplate {
    type V = UnitTemplateView;

    open spec fn view(&self) -> UnitTemplateView {
        UnitTemplateView {
            name: self.name@,
            symbol: opt_name_view(self.symbol),
            aliases: self.aliases@.map_values(|a: Alias| a@),
            prefixes: self.prefixes@.map_values(|p: Prefix| p@),
            dimension_annotation: opt_name_view(self.dimension_annotation),
            definition: self.definition@,
        }
    }
}

/// One concrete unit: a template expanded for one (prefix, alias) choice, or
/// the template itself when it has neither.
#[derive(Debug)]
pub struct UnitEntry {
    pub name: String,
    pub symbol: Option<String>,
    pub dimension_annotation: Option<String>,
    pub definition: Definition<String>,
    pub autogenerated_from: Option<String>,
}

/// The mathematical value of a `UnitEntry`.
pub struct UnitEntryView {
    pub name: Seq<char>,
    pub symbol: Option<Seq<char>>,
    pub dimension_annotation: Option<Seq<char>>,
    pub definition: DefinitionView<Seq<char>>,
    pub autogenerated_from: Option<Seq<char>>,
}

impl View for UnitEntry {
    type V = UnitEntryView;

    open spec fn view(&self) -> UnitEntryView {
        UnitEntryView {
            name: self.name@,
            symbol: opt_name_view(self.symbol),
            dimension_annotation: opt_name_view(self.dimension_annotation),
            definition: self.definition@,
            autogenerated_from: opt_name_view(self.autogenerated_from),
        }
    }
}

/// A verified-but-unresolved definition set: dimensions, units (templates
/// before expansion, concrete entries after), and constants.
#[derive(Debug)]
pub struct Unresolved<U> {
    pub dimensions: Vec<DimensionEntry>,
    pub units: Vec<U>,
    pub constants: Vec<ConstantEntry>,
}

/// The mathematical value of an `Unresolved` container.
pub struct UnresolvedView<UV> {
    pub dimensions: Seq<DimensionEntryView>,
    pub units: Seq<UV>,
    pub constants: Seq<ConstantEntryView>,
}

impl<U: View> View for Unresolved<U> {
    type V = UnresolvedView<U::V>;

    open spec fn view(&self) -> UnresolvedView<U::V> {
        UnresolvedView {
            dimensions: self.dimensions@.map_values(|d: DimensionEntry| d@),
            units: self.units@.map_values(|u: U| u@),
            constants: self.constants@.map_values(|c: ConstantEntry| c@),
        }
    }
}

/// A definition set whose units are still templates.
pub type UnresolvedTemplates = Unresolved<UnitTemplate>;

/// A definition set whose units are concrete entries.
pub type UnresolvedDefs = Unresolved<UnitEntry>;

/// The prefix choice with index `i`: one of the template's prefixes, or none
/// for the last slot.
pub open spec fn prefix_at(t: UnitTemplateView, i: int) -> Option<PrefixView> {
    if 0 <= i < t.prefixes.len() {
        Some(t.prefixes[i])
    } else {
        None
    }
}

/// The alias choice with index `j`: one of the template's aliases, or none
/// for the last slot.
pub open spec fn alias_at(t: UnitTemplateView, j: int) -> Option<AliasView> {
    if 0 <= j < t.aliases.len() {
        Some(t.aliases[j])
    } else {
        None
    }
}

/// The formatted name of one expansion: the prefix fragment, then the alias
/// name or the template's own name.
pub open spec fn spec_format_name(
    t: UnitTemplateView,
    p: Option<PrefixView>,
    a: Option<AliasView>,
) -> Seq<char> {
    let base = match a {
        None => t.name,
        Some(al) => al.name,
    };
    match p {
        None => base,
        Some(pr) => pr.name + base,
    }
}

/// The formatted symbol of one expansion: only non-aliased entries carry a
/// symbol, the prefix's short form glued to the template's base symbol.
pub open spec fn spec_format_symbol(
    t: UnitTemplateView,
    p: Option<PrefixView>,
    a: Option<AliasView>,
) -> Option<Seq<char>> {
    if a is Some {
        None
    } else {
        match p {
            None => t.symbol,
            Some(pr) => match t.symbol {
                None => None,
                Some(s) => Some(pr.short + s),
            },
        }
    }
}

/// The defining expression of one expansion: the canonical entry keeps the
/// template's definition verbatim; every other entry is `factor * template`,
/// a single reference back to the canonical unit.
pub open spec fn spec_get_definition(
    t: UnitTemplateView,
    p: Option<PrefixView>,
    a: Option<AliasView>,
) -> DefinitionView<Seq<char>> {
    if p is None && a is None {
        t.definition
    } else {
        let factor = match p {
            None => MAG_ONE,
            Some(pr) => pr.factor,
        };
        DefinitionView::Expression(
            ExprView::Binary(
                Box::new(ExprView::Value(ExprFactorView::Value(FactorView::Concrete(factor)))),
                ExprFactorView::Value(FactorView::Other(t.name)),
                Operator::Mul,
            ),
        )
    }
}

/// One expanded unit entry of a template.
pub open spec fn spec_expand_one(
    t: UnitTemplateView,
    p: Option<PrefixView>,
    a: Option<AliasView>,
) -> UnitEntryView {
    UnitEntryView {
        name: spec_format_name(t, p, a),
        symbol: spec_format_symbol(t, p, a),
        dimension_annotation: t.dimension_annotation,
        definition: spec_get_definition(t, p, a),
        autogenerated_from: if p is Some || a is Some {
            Some(t.name)
        } else {
            None
        },
    }
}

impl UnitTemplate {
    /// The formatted name for one (prefix, alias) choice.
    fn format_name(&self, prefix: Option<&Prefix>, alias: Option<&Alias>) -> (r: String)
        ensures
            r@ == spec_format_name(self@, opt_prefix_view(prefix), opt_alias_view(alias)),
    {
        let base = match alias {
            None => self.name.clone(),
            Some(a) => a.name.clone(),
        };
        match prefix {
            None => base,
            Some(p) => p.name.clone().concat(base.as_str()),
        }
    }

    /// The formatted symbol for one (prefix, alias) choice; only non-aliased
    /// entries receive one, to avoid ambiguous symbols.
    fn format_symbol(&self, prefix: Option<&Prefix>, alias: Option<&Alias>) -> (r: Option<String>)
        ensures
            opt_name_view(r) == spec_format_symbol(self@, opt_prefix_view(prefix), opt_alias_view(alias)),
    {
        if alias.is_some() {
            None
        } else {
            match prefix {
                None => match &self.symbol {
                    None => None,
                    Some(s) => Some(s.clone()),
                },
                Some(p) => match &self.symbol {
                    None => None,
                    Some(s) => Some(p.short.clone().concat(s.as_str())),
                },
            }
        }
    }

    /// The defining expression for one (prefix, alias) choice.
    fn get_definition(&self, prefix: Option<&Prefix>, alias: Option<&Alias>) -> (r: Definition<
        String,
    >)
        ensures
            r@ == spec_get_definition(self@, opt_prefix_view(prefix), opt_alias_view(alias)),
    {
        if prefix.is_none() && alias.is_none() {
            self.definition.clone()
        } else {
            let factor: u64 = match prefix {
                None => MAG_ONE,
                Some(p) => p.factor,
            };
            let r = Definition::Expression(
                Expr::Binary(
                    BinaryOperator {
                        lhs: Box::new(Expr::Value(ExprFactor::Value(Factor::Concrete(factor)))),
                        rhs: ExprFactor::Value(Factor::Other(self.name.clone())),
                        operator: Operator::Mul,
                    },
                ),
            );
            proof {
                reveal_with_fuel(crate::expression::expr_view, 3);
            }
            r
        }
    }

    /// The concrete unit entry for one (prefix, alias) choice.
    fn expand_prefix_and_alias(&self, prefix: Option<&Prefix>, alias: Option<&Alias>) -> (r:
        UnitEntry)
        ensures
            r@ == spec_expand_one(self@, opt_prefix_view(prefix), opt_alias_view(alias)),
    {
        let name = self.format_name(prefix, alias);
        let symbol = self.format_symbol(prefix, alias);
        let definition = self.get_definition(prefix, alias);
        let autogenerated_from = if prefix.is_some() || alias.is_some() {
            Some(self.name.clone())
        } else {
            None
        };
        let annotation = match &self.dimension_annotation {
            None => None,
            Some(s) => Some(s.clone()),
        };
        UnitEntry {
            name,
            symbol,
            dimension_annotation: annotation,
            definition,
            autogenerated_from,
        }
    }

    /// Append the entries of one prefix row: every alias, then the no-alias
    /// entry.
    fn expand_row(&self, prefix: Option<&Prefix>, out: &mut Vec<UnitEntry>)
        ensures
            final(out)@.len() == old(out)@.len() + self@.aliases.len() + 1,
            forall|k: int| 0 <= k < old(out)@.len() ==> final(out)@[k] == old(out)@[k],
            forall|j: int|
                0 <= j <= self@.aliases.len() ==> (#[trigger] final(out)@[old(out)@.len() + j])@
                    == spec_expand_one(self@, opt_prefix_view(prefix), alias_at(self@, j)),
    {
        let ghost base = out@.len();
        let na = self.aliases.len();
        let mut j: usize = 0;
        while j < na
            invariant
                j <= na,
                na == self@.aliases.len(),
                self@.aliases.len() == self.aliases@.len(),
                out@.len() == base + j,
                forall|k: int| 0 <= k < base ==> out@[k] == old(out)@[k],
                forall|j2: int|
                    0 <= j2 < j ==> (#[trigger] out@[base + j2])@ == spec_expand_one(
                        self@,
                        opt_prefix_view(prefix),
                        alias_at(self@, j2),
                    ),
            decreases na - j,
        {
            let entry = self.expand_prefix_and_alias(prefix, Some(&self.aliases[j]));
            proof {
                assert(alias_at(self@, j as int) == Some(self.aliases@[j as int]@));
            }
            out.push(entry);
            j += 1;
        }
        let entry = self.expand_prefix_and_alias(prefix, None);
        out.push(entry);
    }

    /// All (prefix + 1) x (alias + 1) concrete entries of the template: for
    /// each prefix choice (each prefix, then none), one entry per alias
    /// choice (each alias, then none).
    pub fn expand(&self) -> (r: Vec<UnitEntry>)
        ensures
            r@.len() == (self@.prefixes.len() + 1) * (self@.aliases.len() + 1),
            forall|i: int, j: int|
                0 <= i <= self@.prefixes.len() && 0 <= j <= self@.aliases.len() ==> (
                #[trigger] r@[i * (self@.aliases.len() + 1) + j])@ == spec_expand_one(
                    self@,
                    prefix_at(self@, i),
                    alias_at(self@, j),
                ),
    {
        let np = self.prefixes.len();
        let ghost m = self@.aliases.len() + 1;
        let mut out: Vec<UnitEntry> = Vec::new();
        let mut i: usize = 0;
        while i < np
            invariant
                i <= np,
                np == self@.prefixes.len(),
                self@.prefixes.len() == self.prefixes@.len(),
                m == self@.aliases.len() + 1,
                out@.len() == i * m,
                forall|i2: int, j2: int|
                    0 <= i2 < i && 0 <= j2 < m ==> (#[trigger] out@[i2 * m + j2])@
                        == spec_expand_one(self@, prefix_at(self@, i2), alias_at(self@, j2)),
            decreases np - i,
        {
            proof {
                assert(i * m + m == (i + 1) * m) by (nonlinear_arith);
                assert(forall|i2: int| 0 <= i2 < i ==> #[trigger] (i2 * m) >= 0 && i2 * m + m <= i
                    * m) by (nonlinear_arith);
            }
            self.expand_row(Some(&self.prefixes[i]), &mut out);
            proof {
                assert(prefix_at(self@, i as int) == Some(self.prefixes@[i as int]@));
            }
            i += 1;
        }
        proof {
            assert(np * m + m == (np + 1) * m) by (nonlinear_arith);
            assert(forall|i2: int| 0 <= i2 < np ==> #[trigger] (i2 * m) >= 0 && i2 * m + m <= np
                * m) by (nonlinear_arith);
        }
        self.expand_row(None, &mut out);
        out
    }
}

/// The view of an optional prefix argument.
pub open spec fn opt_prefix_view(p: Option<&Prefix>) -> Option<PrefixView> {
    match p {
        None => None,
        Some(pr) => Some(pr@),
    }
}

/// The view of an optional alias argument.
pub open spec fn opt_alias_view(a: Option<&Alias>) -> Option<AliasView> {
    match a {
        None => None,
        Some(al) => Some(al@),
    }
}

/// The full expansion of one template, row by row: for each prefix choice,
/// one entry per alias choice.
pub open spec fn spec_expand(t: UnitTemplateView) -> Seq<UnitEntryView> {
    Seq::new(
        ((t.prefixes.len() + 1) * (t.aliases.len() + 1)) as nat,
        |k: int|
            spec_expand_one(
                t,
                prefix_at(t, k / (t.aliases.len() + 1) as int),
                alias_at(t, k % (t.aliases.len() + 1) as int),
            ),
    )
}

/// The concatenated expansions of a whole template list.
pub open spec fn spec_expand_all(ts: Seq<UnitTemplateView>) -> Seq<UnitEntryView>
    decreases ts.len(),
{
    if ts.len() == 0 {
        Seq::empty()
    } else {
        spec_expand_all(ts.drop_last()) + spec_expand(ts.last())
    }
}

impl UnresolvedTemplates {
    /// Expand every unit template in declaration order; dimensions and
    /// constants pass through unchanged.
    pub fn expand_templates(self) -> (r: UnresolvedDefs)
        ensures
            r@.dimensions == self@.dimensions,
            r@.constants == self@.constants,
            r@.units == spec_expand_all(self@.units),
    {
        let nt = self.units.len();
        let mut units: Vec<UnitEntry> = Vec::new();
        let mut i: usize = 0;
        while i < nt
            invariant
                i <= nt,
                nt == self.units@.len(),
                units@.map_values(|u: UnitEntry| u@) == spec_expand_all(
                    self.units@.map_values(|t: UnitTemplate| t@).take(i as int),
                ),
            decreases nt - i,
        {
            let ghost before = units@.map_values(|u: UnitEntry| u@);
            let ghost tviews = self.units@.map_values(|t: UnitTemplate| t@);
            let mut expanded = self.units[i].expand();
            let ghost eview = expanded@.map_values(|u: UnitEntry| u@);
            proof {
                let t = self.units@[i as int]@;
                let m = t.aliases.len() + 1;
                assert forall|a: int, b: int|
                    0 <= a <= t.prefixes.len() && 0 <= b <= t.aliases.len() implies #[trigger] eview[
                    a * (t.aliases.len() + 1) + b] == spec_expand_one(
                    t,
                    prefix_at(t, a),
                    alias_at(t, b),
                ) by {
                    assert(0 <= a * m + b && a * m + b < (t.prefixes.len() + 1) * m)
                        by (nonlinear_arith)
                        requires
                            0 <= a <= t.prefixes.len(),
                            0 <= b < m,
                            m >= 1,
                    ;
                    assert(eview[a * m + b] == (expanded@[a * m + b])@);
                }
                lemma_expand_matches(t, eview);
            }
            units.append(&mut expanded);
            proof {
                assert(tviews.take(i + 1).drop_last() =~= tviews.take(i as int));
                assert(tviews.take(i + 1).last() == tviews[i as int]);
                assert(units@.map_values(|u: UnitEntry| u@) =~= before + eview);
                assert(units@.map_values(|u: UnitEntry| u@) =~= spec_expand_all(
                    tviews.take(i + 1),
                ));
            }
            i += 1;
        }
        proof {
            assert(self.units@.map_values(|t: UnitTemplate| t@).take(nt as int)
                =~= self.units@.map_values(|t: UnitTemplate| t@));
        }
        Unresolved { dimensions: self.dimensions, units, constants: self.constants }
    }
}

/// A sequence that satisfies `expand`'s pairwise contract is exactly
/// `spec_expand` of the template.
proof fn lemma_expand_matches(t: UnitTemplateView, e: Seq<UnitEntryView>)
    requires
        e.len() == (t.prefixes.len() + 1) * (t.aliases.len() + 1),
        forall|i: int, j: int|
            0 <= i <= t.prefixes.len() && 0 <= j <= t.aliases.len() ==> #[trigger] e[i * (
            t.aliases.len() + 1) + j] == spec_expand_one(t, prefix_at(t, i), alias_at(t, j)),
    ensures
        e == spec_expand(t),
{
    let m = t.aliases.len() + 1;
    assert forall|k: int| 0 <= k < e.len() implies e[k] == spec_expand(t)[k] by {
        let i = k / (m as int);
        let j = k % (m as int);
        assert(m > 0);
        vstd::arithmetic::div_mod::lemma_fundamental_div_mod(k, m as int);
        assert(0 <= j < m) by {
            vstd::arithmetic::div_mod::lemma_mod_bound(k, m as int);
        }
        assert(0 <= i <= t.prefixes.len()) by (nonlinear_arith)
            requires
                k == (m as int) * i + j,
                0 <= j < m,
                0 <= k < (t.prefixes.len() + 1) * m,
        ;
        assert(e[i * (m as int) + j] == spec_expand_one(t, prefix_at(t, i), alias_at(t, j)));
    }
    assert(e =~= spec_expand(t));
}

/// A fully resolved dimension: its canonical exponent vector.
#[derive(Debug, PartialEq, Eq)]
pub struct Dimension {
    pub name: String,
    pub dimensions: crate::dimension_math::ExponentVector,
}

/// The mathematical value of a resolved `Dimension`.
pub struct DimensionValue {
    pub name: Seq<char>,
    pub dimensions: Seq<int>,
}

impl View for Dimension {
    type V = DimensionValue;

    open spec fn view(&self) -> DimensionValue {
        DimensionValue { name: self.name@, dimensions: self.dimensions@ }
    }
}

/// A fully resolved unit: exponent vector, magnitude relative to the base
/// units, and the formatted symbol.
#[derive(Debug, PartialEq, Eq)]
pub struct Unit {
    pub name: String,
    pub dimensions: crate::dimension_math::ExponentVector,
    pub magnitude: u64,
    pub symbol: Option<String>,
    pub is_base_unit: bool,
}

/// The mathematical value of a resolved `Unit`.
pub struct UnitValue {
    pub name: Seq<char>,
    pub dimensions: Seq<int>,
    pub magnitude: u64,
    pub symbol: Option<Seq<char>>,
    pub is_base_unit: bool,
}

impl View for Unit {
    type V = UnitValue;

    open spec fn view(&self) -> UnitValue {
        UnitValue {
            name: self.name@,
            dimensions: self.dimensions@,
            magnitude: self.magnitude,
            symbol: opt_name_view(self.symbol),
            is_base_unit: self.is_base_unit,
        }
    }
}

/// A fully resolved physical constant.
#[derive(Debug, PartialEq, Eq)]
pub struct Constant {
    pub name: String,
    pub dimensions: crate::dimension_math::ExponentVector,
    pub magnitude: u64,
}

/// The mathematical value of a resolved `Constant`.
pub struct ConstantValue {
    pub name: Seq<char>,
    pub dimensions: Seq<int>,
    pub magnitude: u64,
}

impl View for Constant {
    type V = ConstantValue;

    open spec fn view(&self) -> ConstantValue {
        ConstantValue { name: self.name@, dimensions: self.dimensions@, magnitude: self.magnitude }
    }
}

/// The terminal artifact of resolution: every name mapped to its exponent
/// vector and, for units and constants, its magnitude, in declaration order.
#[derive(Debug, PartialEq, Eq)]
pub struct ResolvedDefs {
    pub base_dimensions: Vec<String>,
    pub dimensions: Vec<Dimension>,
    pub units: Vec<Unit>,
    pub constants: Vec<Constant>,
}

/// The mathematical value of a `ResolvedDefs`.
pub struct ResolvedDefsValue {
    pub base_dimensions: Seq<Seq<char>>,
    pub dimensions: Seq<DimensionValue>,
    pub units: Seq<UnitValue>,
    pub constants: Seq<ConstantValue>,
}

impl View for ResolvedDefs {
    type V = ResolvedDefsValue;

    open spec fn view(&self) -> ResolvedDefsValue {
        ResolvedDefsValue {
            base_dimensions: self.base_dimensions@.map_values(|s: String| s@),
            dimensions: self.dimensions@.map_values(|d: Dimension| d@),
            units: self.units@.map_values(|u: Unit| u@),
            constants: self.constants@.map_values(|c: Constant| c@),
        }
    }
}

} // verus!
