use unit_system::dimension_math::ExponentVector;
use unit_system::errors::ResolveError;
use unit_system::expression::{BinaryOperator, Expr, ExprFactor, Factor, Operator};
use unit_system::types::{
    Alias, ConstantEntry, Definition, DimensionEntry, Prefix, UnitEntry, UnitTemplate, Unresolved,
    UnresolvedDefs, UnresolvedTemplates,
};

fn base_dimension(name: &str) -> DimensionEntry {
    DimensionEntry { name: name.to_string(), rhs: Definition::Base(()) }
}

fn reference(name: &str) -> Expr {
    Expr::Value(ExprFactor::Value(Factor::Other(name.to_string())))
}

fn power(name: &str, exponent: i64) -> Expr {
    Expr::Value(ExprFactor::Power(Factor::Other(name.to_string()), exponent))
}

fn literal(value: f64) -> Expr {
    Expr::Value(ExprFactor::Value(Factor::Concrete(value.to_bits())))
}

fn binary(lhs: Expr, op: Operator, rhs: ExprFactor) -> Expr {
    Expr::Binary(BinaryOperator { lhs: Box::new(lhs), rhs, operator: op })
}

fn base_unit(name: &str, symbol: Option<&str>, dimension: &str) -> UnitEntry {
    UnitEntry {
        name: name.to_string(),
        symbol: symbol.map(|s| s.to_string()),
        dimension_annotation: None,
        definition: Definition::Base(dimension.to_string()),
        autogenerated_from: None,
    }
}

fn derived_unit(name: &str, definition: Expr) -> UnitEntry {
    UnitEntry {
        name: name.to_string(),
        symbol: None,
        dimension_annotation: None,
        definition: Definition::Expression(definition),
        autogenerated_from: None,
    }
}

fn constant(name: &str, rhs: Expr, annotation: Option<&str>) -> ConstantEntry {
    ConstantEntry {
        name: name.to_string(),
        rhs,
        dimension_annotation: annotation.map(|s| s.to_string()),
    }
}

fn v(exponents: Vec<i64>) -> ExponentVector {
    ExponentVector { exponents }
}

#[test]
fn end_to_end_length_time_system() {
    let kilo = Prefix {
        name: "kilo".to_string(),
        short: "k".to_string(),
        factor: (1000.0f64).to_bits(),
    };
    let templates: UnresolvedTemplates = Unresolved {
        dimensions: vec![base_dimension("Length"), base_dimension("Time")],
        units: vec![
            UnitTemplate {
                name: "meters".to_string(),
                symbol: Some("m".to_string()),
                aliases: vec![],
                prefixes: vec![kilo],
                dimension_annotation: Some("Length".to_string()),
                definition: Definition::Base("Length".to_string()),
            },
            UnitTemplate {
                name: "seconds".to_string(),
                symbol: Some("s".to_string()),
                aliases: vec![],
                prefixes: vec![],
                dimension_annotation: None,
                definition: Definition::Base("Time".to_string()),
            },
        ],
        constants: vec![constant(
            "speed_of_light",
            binary(
                binary(
                    literal(299792458.0),
                    Operator::Mul,
                    ExprFactor::Value(Factor::Other("meters".to_string())),
                ),
                Operator::Div,
                ExprFactor::Value(Factor::Other("seconds".to_string())),
            ),
            None,
        )],
    };
    let defs = templates.expand_templates();
    assert_eq!(defs.units.len(), 3);
    let resolved = defs.resolve().expect("the definition set is acyclic and well formed");

    assert_eq!(resolved.base_dimensions, vec!["Length".to_string(), "Time".to_string()]);
    assert_eq!(resolved.dimensions.len(), 2);
    assert_eq!(resolved.dimensions[0].name, "Length");
    assert_eq!(resolved.dimensions[0].dimensions, v(vec![1, 0]));
    assert_eq!(resolved.dimensions[1].dimensions, v(vec![0, 1]));

    assert_eq!(resolved.units.len(), 3);
    let km = &resolved.units[0];
    assert_eq!(km.name, "kilometers");
    assert_eq!(km.dimensions, v(vec![1, 0]));
    assert_eq!(f64::from_bits(km.magnitude), 1000.0);
    assert_eq!(km.symbol.as_deref(), Some("km"));
    assert!(!km.is_base_unit);
    let meters = &resolved.units[1];
    assert_eq!(meters.name, "meters");
    assert_eq!(f64::from_bits(meters.magnitude), 1.0);
    assert!(meters.is_base_unit);
    let seconds = &resolved.units[2];
    assert_eq!(seconds.name, "seconds");
    assert_eq!(seconds.dimensions, v(vec![0, 1]));

    assert_eq!(resolved.constants.len(), 1);
    let c = &resolved.constants[0];
    assert_eq!(c.name, "speed_of_light");
    assert_eq!(c.dimensions, v(vec![1, -1]));
    assert_eq!(f64::from_bits(c.magnitude), 299792458.0);
}

#[test]
fn derived_dimension_and_square_unit() {
    let defs: UnresolvedDefs = Unresolved {
        dimensions: vec![base_dimension("Length"), DimensionEntry {
            name: "Area".to_string(),
            rhs: Definition::Expression(power("Length", 2)),
        }],
        units: vec![
            base_unit("meters", Some("m"), "Length"),
            derived_unit("square_meters", power("meters", 2)),
        ],
        constants: vec![],
    };
    let resolved = defs.resolve().expect("well formed");
    assert_eq!(resolved.dimensions[1].name, "Area");
    assert_eq!(resolved.dimensions[1].dimensions, v(vec![2]));
    let sq = &resolved.units[1];
    assert_eq!(sq.dimensions, v(vec![2]));
    assert_eq!(f64::from_bits(sq.magnitude), 1.0);
    assert_eq!(sq.dimensions.sqrt(), Ok(v(vec![1])));
}

#[test]
fn resolution_is_cardinality_preserving() {
    let defs: UnresolvedDefs = Unresolved {
        dimensions: vec![base_dimension("Mass")],
        units: vec![
            base_unit("grams", Some("g"), "Mass"),
            derived_unit(
                "tonnes",
                binary(
                    literal(1.0e6),
                    Operator::Mul,
                    ExprFactor::Value(Factor::Other("grams".to_string())),
                ),
            ),
        ],
        constants: vec![constant("electron_mass", literal(9.109e-28), None)],
    };
    let resolved = defs.resolve().expect("well formed");
    assert_eq!(resolved.dimensions.len(), 1);
    assert_eq!(resolved.units.len(), 2);
    assert_eq!(resolved.constants.len(), 1);
}

#[test]
fn resolving_twice_yields_identical_tables() {
    let build = || -> UnresolvedDefs {
        Unresolved {
            dimensions: vec![base_dimension("Length"), base_dimension("Time")],
            units: vec![
                base_unit("meters", Some("m"), "Length"),
                base_unit("seconds", Some("s"), "Time"),
                derived_unit(
                    "velocity_unit",
                    binary(
                        reference("meters"),
                        Operator::Div,
                        ExprFactor::Value(Factor::Other("seconds".to_string())),
                    ),
                ),
            ],
            constants: vec![constant(
                "g_acceleration",
                binary(
                    literal(9.81),
                    Operator::Mul,
                    ExprFactor::Power(Factor::Other("seconds".to_string()), -2),
                ),
                None,
            )],
        }
    };
    let first = build().resolve().expect("well formed");
    let second = build().resolve().expect("well formed");
    assert_eq!(first, second);
}

#[test]
fn cyclic_definitions_are_rejected() {
    let defs: UnresolvedDefs = Unresolved {
        dimensions: vec![],
        units: vec![
            derived_unit("alpha", reference("beta")),
            derived_unit("beta", reference("alpha")),
        ],
        constants: vec![],
    };
    match defs.resolve() {
        Err(ResolveError::CyclicDefinition { chain }) => {
            assert_eq!(chain, vec!["alpha".to_string(), "beta".to_string(), "alpha".to_string()]);
        }
        other => panic!("expected a cycle error, got {:?}", other),
    }
}

#[test]
fn unknown_reference_names_entry_and_reference() {
    let defs: UnresolvedDefs = Unresolved {
        dimensions: vec![base_dimension("Length")],
        units: vec![derived_unit("widgets", reference("gadgets"))],
        constants: vec![],
    };
    match defs.resolve() {
        Err(ResolveError::UnknownReference { entry, reference }) => {
            assert_eq!(entry, "widgets");
            assert_eq!(reference, "gadgets");
        }
        other => panic!("expected an unknown reference, got {:?}", other),
    }
}

#[test]
fn annotation_mismatch_reports_both_dimensions() {
    let defs: UnresolvedDefs = Unresolved {
        dimensions: vec![base_dimension("Length"), base_dimension("Time")],
        units: vec![base_unit("meters", Some("m"), "Length")],
        constants: vec![constant("bad_constant", reference("meters"), Some("Time"))],
    };
    match defs.resolve() {
        Err(ResolveError::DimensionMismatch { entry, declared, inferred }) => {
            assert_eq!(entry, "bad_constant");
            assert_eq!(declared, v(vec![0, 1]));
            assert_eq!(inferred, v(vec![1, 0]));
        }
        other => panic!("expected a dimension mismatch, got {:?}", other),
    }
}

#[test]
fn matching_annotation_is_accepted() {
    let defs: UnresolvedDefs = Unresolved {
        dimensions: vec![base_dimension("Length")],
        units: vec![UnitEntry {
            name: "meters".to_string(),
            symbol: Some("m".to_string()),
            dimension_annotation: Some("Length".to_string()),
            definition: Definition::Base("Length".to_string()),
            autogenerated_from: None,
        }],
        constants: vec![constant("two_meters", binary(
            literal(2.0),
            Operator::Mul,
            ExprFactor::Value(Factor::Other("meters".to_string())),
        ), Some("Length"))],
    };
    let resolved = defs.resolve().expect("annotations agree");
    assert_eq!(f64::from_bits(resolved.constants[0].magnitude), 2.0);
}

#[test]
fn duplicate_symbols_are_rejected() {
    let mut first = base_unit("meters", Some("m"), "Length");
    first.symbol = Some("x".to_string());
    let mut second = base_unit("miles", Some("mi"), "Length");
    second.symbol = Some("x".to_string());
    let defs: UnresolvedDefs = Unresolved {
        dimensions: vec![base_dimension("Length")],
        units: vec![first, second],
        constants: vec![],
    };
    match defs.resolve() {
        Err(ResolveError::DuplicateSymbol { symbol, first, second }) => {
            assert_eq!(symbol, "x");
            assert_eq!(first, "meters");
            assert_eq!(second, "miles");
        }
        other => panic!("expected a duplicate symbol error, got {:?}", other),
    }
}

#[test]
fn exponent_overflow_is_reported() {
    let defs: UnresolvedDefs = Unresolved {
        dimensions: vec![
            base_dimension("Length"),
            DimensionEntry {
                name: "Big".to_string(),
                rhs: Definition::Expression(power("Length", i64::MAX)),
            },
            DimensionEntry {
                name: "TooBig".to_string(),
                rhs: Definition::Expression(binary(
                    reference("Big"),
                    Operator::Mul,
                    ExprFactor::Value(Factor::Other("Big".to_string())),
                )),
            },
        ],
        units: vec![],
        constants: vec![],
    };
    match defs.resolve() {
        Err(ResolveError::ExponentOverflow { entry }) => assert_eq!(entry, "TooBig"),
        other => panic!("expected an exponent overflow, got {:?}", other),
    }
}

#[test]
fn literal_powers_multiply_and_invert_magnitudes() {
    let defs: UnresolvedDefs = Unresolved {
        dimensions: vec![],
        units: vec![],
        constants: vec![
            constant("kibi", Expr::Value(ExprFactor::Power(Factor::Concrete((2.0f64).to_bits()), 10)), None),
            constant("quarter", Expr::Value(ExprFactor::Power(Factor::Concrete((2.0f64).to_bits()), -2)), None),
            constant("answer", binary(
                literal(6.0),
                Operator::Mul,
                ExprFactor::Value(Factor::Concrete((7.0f64).to_bits())),
            ), None),
            constant("two_point_five", binary(
                literal(10.0),
                Operator::Div,
                ExprFactor::Value(Factor::Concrete((4.0f64).to_bits())),
            ), None),
        ],
    };
    let resolved = defs.resolve().expect("well formed");
    assert_eq!(f64::from_bits(resolved.constants[0].magnitude), 1024.0);
    assert_eq!(f64::from_bits(resolved.constants[1].magnitude), 0.25);
    assert_eq!(f64::from_bits(resolved.constants[2].magnitude), 42.0);
    assert_eq!(f64::from_bits(resolved.constants[3].magnitude), 2.5);
}

#[test]
fn alias_of_template_resolves_to_same_magnitude() {
    let templates: UnresolvedTemplates = Unresolved {
        dimensions: vec![base_dimension("Length")],
        units: vec![UnitTemplate {
            name: "meters".to_string(),
            symbol: Some("m".to_string()),
            aliases: vec![Alias { name: "metres".to_string() }],
            prefixes: vec![],
            dimension_annotation: None,
            definition: Definition::Base("Length".to_string()),
        }],
        constants: vec![],
    };
    let resolved = templates.expand_templates().resolve().expect("well formed");
    assert_eq!(resolved.units.len(), 2);
    let metres = &resolved.units[0];
    assert_eq!(metres.name, "metres");
    assert_eq!(metres.dimensions, v(vec![1]));
    assert_eq!(f64::from_bits(metres.magnitude), 1.0);
    assert_eq!(metres.symbol, None);
}
