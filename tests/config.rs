use tease::{read_number, ConfigurationError, Decimal, Input, Teaser};

fn num(s: &str) -> Decimal {
    read_number(s).unwrap()
}

fn slider(min: &str, max: &str, step: &str) -> Input {
    Input::Slider { label: None, min: num(min), max: num(max), step: num(step), initial_value: num(min) }
}

#[test]
fn compares_values() {
    let pairs = [
        ("1", "2", true),
        ("2", "1", false),
        ("2", "2", true),
        ("-3", "1", true),
        ("1", "-3", false),
        ("-3", "-2", true),
        ("-2", "-3", false),
        ("0", "0.001", true),
        ("0.001", "0", false),
        ("1e19", "9999999999999999999", false),
        ("9999999999999999999", "1e19", true),
        ("1940", "1970", true),
        ("12.5", "12.49", false),
        ("0.3", "0.25", false),
        ("1e-30", "1e-29", true),
        ("18446744073709551615", "1.8446744073709551615e19", true),
    ];
    for (a, b, expected) in pairs.iter() {
        assert_eq!(num(a).le(&num(b)), *expected, "{} <= {}", a, b);
    }
}

#[test]
fn shortest_form_and_sign() {
    assert!(num("120").is_wf());
    assert!(!Decimal { negative: false, coefficient: 120, exponent: 0 }.is_wf());
    assert!(!Decimal { negative: true, coefficient: 0, exponent: 0 }.is_wf());
    assert!(num("0.5").is_positive());
    assert!(!num("0").is_positive());
    assert!(!num("-1").is_positive());
}

#[test]
fn valid_configuration_passes() {
    let teaser = Teaser::default().with_inputs(vec![
        Input::default(),
        slider("1940", "1970", "0.33"),
        slider("5", "5", "1"),
        Input::Dropdown { label: None, options: vec![num("10"), num("20")], initial_value: 1 },
    ]);
    assert_eq!(teaser.check(), Ok(()));
    assert_eq!(Teaser::default().check(), Ok(()));
}

#[test]
fn dropdown_index_out_of_range() {
    let teaser = Teaser::default().with_inputs(vec![
        Input::default(),
        Input::Dropdown { label: None, options: vec![num("10"), num("20")], initial_value: 2 },
    ]);
    assert_eq!(teaser.check(), Err(ConfigurationError::NoSuchOption { index: 1 }));
    let empty = Teaser::default().with_inputs(vec![Input::Dropdown { label: None, options: vec![], initial_value: 0 }]);
    assert_eq!(empty.check(), Err(ConfigurationError::NoSuchOption { index: 0 }));
}

#[test]
fn slider_range_and_step() {
    let reversed = Teaser::default().with_inputs(vec![slider("10", "1", "1")]);
    assert_eq!(reversed.check(), Err(ConfigurationError::EmptyRange { index: 0 }));
    let flat = Teaser::default().with_inputs(vec![Input::default(), Input::default(), slider("0", "1", "0")]);
    assert_eq!(flat.check(), Err(ConfigurationError::StepNotPositive { index: 2 }));
    let backwards = Teaser::default().with_inputs(vec![slider("0", "1", "-0.5")]);
    assert_eq!(backwards.check(), Err(ConfigurationError::StepNotPositive { index: 0 }));
}

#[test]
fn numbers_not_in_shortest_form() {
    let odd = Decimal { negative: false, coefficient: 10, exponent: 0 };
    let teaser = Teaser::default().with_inputs(vec![Input::Number { label: None, initial_value: odd }]);
    assert_eq!(teaser.check(), Err(ConfigurationError::NotShortest { index: 0 }));
}

#[test]
fn first_fault_is_reported() {
    let teaser = Teaser::default().with_inputs(vec![
        Input::default(),
        slider("3", "2", "0"),
        Input::Dropdown { label: None, options: vec![], initial_value: 0 },
    ]);
    assert_eq!(teaser.check(), Err(ConfigurationError::EmptyRange { index: 1 }));
}
