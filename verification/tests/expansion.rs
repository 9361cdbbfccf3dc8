use unit_system::expression::{BinaryOperator, Expr, ExprFactor, Factor, Operator};
use unit_system::magnitude::MAG_ONE;
use unit_system::types::{Alias, Definition, Prefix, UnitTemplate};

fn kilo() -> Prefix {
    Prefix { name: "kilo".to_string(), short: "k".to_string(), factor: (1000.0f64).to_bits() }
}

fn mega() -> Prefix {
    Prefix { name: "mega".to_string(), short: "M".to_string(), factor: (1.0e6f64).to_bits() }
}

fn meters_template(prefixes: Vec<Prefix>, aliases: Vec<Alias>) -> UnitTemplate {
    UnitTemplate {
        name: "meters".to_string(),
        symbol: Some("m".to_string()),
        aliases,
        prefixes,
        dimension_annotation: None,
        definition: Definition::Base("Length".to_string()),
    }
}

#[test]
fn expansion_cardinality_two_prefixes_one_alias() {
    let t = meters_template(
        vec![kilo(), mega()],
        vec![Alias { name: "metres".to_string() }],
    );
    let entries = t.expand();
    assert_eq!(entries.len(), 6);
    let with_symbol: Vec<_> = entries.iter().filter(|e| e.symbol.is_some()).collect();
    assert_eq!(with_symbol.len(), 3);
    for e in &with_symbol {
        assert!(!e.name.ends_with("metres"));
    }
}

#[test]
fn expansion_names_and_symbols() {
    let t = meters_template(
        vec![kilo(), mega()],
        vec![Alias { name: "metres".to_string() }],
    );
    let entries = t.expand();
    let names: Vec<&str> = entries.iter().map(|e| e.name.as_str()).collect();
    assert_eq!(
        names,
        vec!["kilometres", "kilometers", "megametres", "megameters", "metres", "meters"]
    );
    let symbols: Vec<Option<&str>> = entries.iter().map(|e| e.symbol.as_deref()).collect();
    assert_eq!(symbols, vec![None, Some("km"), None, Some("Mm"), None, Some("m")]);
}

#[test]
fn canonical_entry_keeps_definition_and_no_provenance() {
    let t = meters_template(vec![kilo()], vec![]);
    let entries = t.expand();
    assert_eq!(entries.len(), 2);
    let canonical = &entries[1];
    assert_eq!(canonical.name, "meters");
    assert!(canonical.autogenerated_from.is_none());
    assert!(matches!(&canonical.definition, Definition::Base(d) if d == "Length"));
}

#[test]
fn prefixed_entry_is_factor_times_canonical() {
    let t = meters_template(vec![kilo()], vec![]);
    let entries = t.expand();
    let km = &entries[0];
    assert_eq!(km.name, "kilometers");
    assert_eq!(km.autogenerated_from.as_deref(), Some("meters"));
    match &km.definition {
        Definition::Expression(Expr::Binary(BinaryOperator { lhs, rhs, operator })) => {
            assert_eq!(*operator, Operator::Mul);
            match lhs.as_ref() {
                Expr::Value(ExprFactor::Value(Factor::Concrete(bits))) => {
                    assert_eq!(*bits, (1000.0f64).to_bits());
                }
                other => panic!("unexpected left factor: {:?}", other),
            }
            match rhs {
                ExprFactor::Value(Factor::Other(name)) => assert_eq!(name, "meters"),
                other => panic!("unexpected right factor: {:?}", other),
            }
        }
        other => panic!("unexpected definition: {:?}", other),
    }
}

#[test]
fn aliased_entry_of_unprefixed_template_scales_by_one() {
    let t = meters_template(vec![], vec![Alias { name: "metres".to_string() }]);
    let entries = t.expand();
    assert_eq!(entries.len(), 2);
    let alias = &entries[0];
    assert_eq!(alias.name, "metres");
    assert!(alias.symbol.is_none());
    match &alias.definition {
        Definition::Expression(Expr::Binary(BinaryOperator { lhs, .. })) => match lhs.as_ref() {
            Expr::Value(ExprFactor::Value(Factor::Concrete(bits))) => {
                assert_eq!(*bits, MAG_ONE);
                assert_eq!(f64::from_bits(*bits), 1.0);
            }
            other => panic!("unexpected left factor: {:?}", other),
        },
        other => panic!("unexpected definition: {:?}", other),
    }
}

#[test]
fn map_factors_replaces_leaves_only() {
    let e = Expr::Binary(BinaryOperator {
        lhs: Box::new(Expr::Value(ExprFactor::Value(Factor::Other("a".to_string())))),
        rhs: ExprFactor::Power(Factor::Other("b".to_string()), 2),
        operator: Operator::Div,
    });
    let renamed = e.map_factors(&|f: Factor| match f {
        Factor::Other(name) => Factor::Other(format!("{}_x", name)),
        other => other,
    });
    match renamed {
        Expr::Binary(BinaryOperator { lhs, rhs, operator }) => {
            assert_eq!(operator, Operator::Div);
            match *lhs {
                Expr::Value(ExprFactor::Value(Factor::Other(name))) => assert_eq!(name, "a_x"),
                other => panic!("unexpected lhs: {:?}", other),
            }
            match rhs {
                ExprFactor::Power(Factor::Other(name), 2) => assert_eq!(name, "b_x"),
                other => panic!("unexpected rhs: {:?}", other),
            }
        }
        other => panic!("unexpected shape: {:?}", other),
    }
}

#[test]
fn map_concrete_touches_only_literals() {
    let lit = Factor::Concrete((2.0f64).to_bits());
    let mapped = lit.map_concrete(&|b: u64| f64::to_bits(f64::from_bits(b) * 2.0));
    assert!(matches!(mapped, Factor::Concrete(b) if f64::from_bits(b) == 4.0));
    let named = Factor::Other("meters".to_string());
    assert!(matches!(named.map_concrete(&|b: u64| b), Factor::Other(n) if n == "meters"));
}
