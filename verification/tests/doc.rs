use layerstack::doc::{combine_dictionaries, combine_dictionary_chain, Value};

fn entry(key: &str, val: Value) -> (String, Value) {
    (key.to_string(), val)
}

#[test]
fn combine_stronger_scalar_wins() {
    let stronger = vec![entry("a", Value::Int(1))];
    let weaker = vec![entry("a", Value::Int(2))];
    let result = combine_dictionaries(&stronger, &weaker);
    assert_eq!(result, vec![entry("a", Value::Int(1))]);
}

#[test]
fn combine_weaker_only_keys_preserved() {
    let stronger = vec![entry("a", Value::Int(1))];
    let weaker = vec![entry("b", Value::Int(2))];
    let result = combine_dictionaries(&stronger, &weaker);
    assert_eq!(
        result,
        vec![entry("a", Value::Int(1)), entry("b", Value::Int(2))]
    );
}

#[test]
fn combine_nested_dictionaries_recurse() {
    let stronger = vec![entry(
        "sub",
        Value::Dictionary(vec![entry("x", Value::Int(10))]),
    )];
    let weaker = vec![entry(
        "sub",
        Value::Dictionary(vec![entry("x", Value::Int(20)), entry("y", Value::Int(30))]),
    )];
    let result = combine_dictionaries(&stronger, &weaker);
    // x=10 from stronger wins; y=30 from weaker preserved.
    assert_eq!(
        result,
        vec![entry(
            "sub",
            Value::Dictionary(vec![entry("x", Value::Int(10)), entry("y", Value::Int(30))])
        )]
    );
}

#[test]
fn combine_stronger_dict_weaker_scalar_wins_stronger() {
    let stronger = vec![entry(
        "a",
        Value::Dictionary(vec![entry("x", Value::Int(1))]),
    )];
    let weaker = vec![entry("a", Value::Int(99))];
    let result = combine_dictionaries(&stronger, &weaker);
    assert_eq!(
        result,
        vec![entry(
            "a",
            Value::Dictionary(vec![entry("x", Value::Int(1))])
        )]
    );
}

#[test]
fn combine_stronger_scalar_weaker_dict_wins_stronger() {
    let stronger = vec![entry("a", Value::Int(1))];
    let weaker = vec![entry(
        "a",
        Value::Dictionary(vec![entry("x", Value::Int(99))]),
    )];
    let result = combine_dictionaries(&stronger, &weaker);
    assert_eq!(result, vec![entry("a", Value::Int(1))]);
}

#[test]
fn combine_empty_stronger() {
    let stronger: Vec<(String, Value)> = vec![];
    let weaker = vec![entry("a", Value::Int(1))];
    let result = combine_dictionaries(&stronger, &weaker);
    assert_eq!(result, vec![entry("a", Value::Int(1))]);
}

#[test]
fn combine_empty_weaker() {
    let stronger = vec![entry("a", Value::Int(1))];
    let weaker: Vec<(String, Value)> = vec![];
    let result = combine_dictionaries(&stronger, &weaker);
    assert_eq!(result, vec![entry("a", Value::Int(1))]);
}

#[test]
fn combine_chain_three_opinions() {
    let strongest = vec![entry("a", Value::Int(1))];
    let middle = vec![entry("b", Value::Int(2))];
    let weakest = vec![entry("c", Value::Int(3)), entry("a", Value::Int(99))];
    let result = combine_dictionary_chain(&[strongest, middle, weakest]);
    assert_eq!(
        result,
        vec![
            entry("a", Value::Int(1)),
            entry("b", Value::Int(2)),
            entry("c", Value::Int(3)),
        ]
    );
}

#[test]
fn combine_chain_empty_yields_default() {
    let result = combine_dictionary_chain(&Vec::<Vec<(String, Value)>>::new());
    assert!(result.is_empty());
}

#[test]
fn combine_chain_nested_across_three_layers() {
    let strongest = vec![entry(
        "d",
        Value::Dictionary(vec![entry("x", Value::Int(1))]),
    )];
    let middle = vec![entry(
        "d",
        Value::Dictionary(vec![entry("y", Value::Int(2))]),
    )];
    let weakest = vec![entry(
        "d",
        Value::Dictionary(vec![entry("x", Value::Int(99)), entry("z", Value::Int(3))]),
    )];
    let result = combine_dictionary_chain(&[strongest, middle, weakest]);
    assert_eq!(
        result,
        vec![entry(
            "d",
            Value::Dictionary(vec![
                entry("x", Value::Int(1)),
                entry("y", Value::Int(2)),
                entry("z", Value::Int(3)),
            ])
        )]
    );
}

#[test]
fn combine_disjoint_keys_appends_weaker_in_order() {
    let stronger = vec![entry("a", Value::Bool(true)), entry("b", Value::string("s"))];
    let weaker = vec![entry("d", Value::Int64(-4)), entry("c", Value::Blocked)];
    let result = combine_dictionaries(&stronger, &weaker);
    assert_eq!(
        result,
        vec![
            entry("a", Value::Bool(true)),
            entry("b", Value::string("s")),
            entry("d", Value::Int64(-4)),
            entry("c", Value::Blocked),
        ]
    );
}

#[test]
fn combine_deeply_nested_keeps_stronger_leaves() {
    let stronger = vec![entry(
        "outer",
        Value::Dictionary(vec![entry(
            "inner",
            Value::Dictionary(vec![entry("k", Value::Half(0x3c00))]),
        )]),
    )];
    let weaker = vec![
        entry(
            "outer",
            Value::Dictionary(vec![entry(
                "inner",
                Value::Dictionary(vec![
                    entry("k", Value::Int(0)),
                    entry("m", Value::Array(vec![Value::UInt(1), Value::Null])),
                ]),
            )]),
        ),
        entry("outer", Value::Dictionary(vec![entry("late", Value::UChar(7))])),
    ];
    let result = combine_dictionaries(&stronger, &weaker);
    assert_eq!(
        result,
        vec![entry(
            "outer",
            Value::Dictionary(vec![
                entry(
                    "inner",
                    Value::Dictionary(vec![
                        entry("k", Value::Half(0x3c00)),
                        entry("m", Value::Array(vec![Value::UInt(1), Value::Null])),
                    ]),
                ),
                entry("late", Value::UChar(7)),
            ])
        )]
    );
}

#[test]
fn cloned_values_are_equal() {
    let v = Value::Dictionary(vec![
        entry("bytes", Value::Array(vec![Value::Float(0x3f80_0000), Value::Double(0)])),
        entry("asset", Value::Asset("a.usda".to_string())),
    ]);
    assert_eq!(v.clone(), v);
}

#[test]
fn values_from_plain_scalars() {
    assert_eq!(Value::from(true), Value::Bool(true));
    assert_eq!(Value::from(-3i32), Value::Int(-3));
    assert_eq!(Value::string("x"), Value::String("x".to_string()));
}

#[test]
fn combine_appends_only_new_weaker_keys_once() {
    let stronger = vec![entry("a", Value::Int(1)), entry("b", Value::Int(2))];
    let weaker = vec![
        entry("c", Value::Int(3)),
        entry("a", Value::Int(9)),
        entry("d", Value::Int(4)),
    ];
    let result = combine_dictionaries(&stronger, &weaker);
    let keys: Vec<&str> = result.iter().map(|(k, _)| k.as_str()).collect();
    assert_eq!(keys, vec!["a", "b", "c", "d"]);
    assert_eq!(result[0].1, Value::Int(1));
    assert_eq!(result[2].1, Value::Int(3));
    assert_eq!(result[3].1, Value::Int(4));
}

#[test]
fn value_eq_compares_floats_as_ieee() {
    let pos_zero = Value::Double(0.0f64.to_bits());
    let neg_zero = Value::Double((-0.0f64).to_bits());
    let nan = Value::Double(f64::NAN.to_bits());
    assert_ne!(pos_zero, neg_zero);
    assert!(pos_zero.value_eq(&neg_zero));
    assert_eq!(nan, Value::Double(f64::NAN.to_bits()));
    assert!(!nan.value_eq(&nan));
    assert!(Value::Float(1.5f32.to_bits()).value_eq(&Value::Float(1.5f32.to_bits())));
    assert!(!Value::Float(f32::NAN.to_bits()).value_eq(&Value::Float(f32::NAN.to_bits())));
    assert!(Value::TimeCode((-0.0f64).to_bits()).value_eq(&Value::TimeCode(0.0f64.to_bits())));
    let a = Value::Array(vec![Value::Int(1), Value::Double(0.0f64.to_bits())]);
    let b = Value::Array(vec![Value::Int(1), Value::Double((-0.0f64).to_bits())]);
    assert!(a.value_eq(&b));
    let d1 = Value::Dictionary(vec![("k".to_string(), Value::Float(0.0f32.to_bits()))]);
    let d2 = Value::Dictionary(vec![("k".to_string(), Value::Float((-0.0f32).to_bits()))]);
    let d3 = Value::Dictionary(vec![("j".to_string(), Value::Float(0.0f32.to_bits()))]);
    assert!(d1.value_eq(&d2));
    assert!(!d1.value_eq(&d3));
    assert!(!Value::Int(1).value_eq(&Value::UInt(1)));
}
