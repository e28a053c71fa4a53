use tease::{
    add_dropdown, add_number, add_slider, beginning, decode_submission, encode_result,
    encode_submission, end, middle, read_number, Action, DecodeError, Decimal, Event, Host, Input,
    NumberError, Output, Phase, Teaser,
};

fn num(s: &str) -> Decimal {
    read_number(s).unwrap()
}

fn number(v: &str) -> Input {
    Input::Number { label: None, initial_value: num(v) }
}

fn sum_of(values: &[Decimal]) -> Decimal {
    let total: f64 = values.iter().map(|d| d.to_text().parse::<f64>().unwrap()).sum();
    num(&format!("{}", total))
}

#[test]
fn decodes_fields_in_order() {
    assert_eq!(decode_submission("3.5,-2", 2), Ok(vec![num("3.5"), num("-2")]));
    assert_eq!(decode_submission("", 0), Ok(vec![]));
    assert_eq!(decode_submission("7", 1), Ok(vec![num("7")]));
}

#[test]
fn decode_counts_fields() {
    assert_eq!(decode_submission("1,2", 3), Err(DecodeError::WrongCount { expected: 3, found: 2 }));
    assert_eq!(decode_submission("", 1), Err(DecodeError::WrongCount { expected: 1, found: 0 }));
    assert_eq!(decode_submission("1,", 1), Err(DecodeError::WrongCount { expected: 1, found: 2 }));
}

#[test]
fn decode_reports_first_bad_field() {
    assert_eq!(
        decode_submission("1,x,1e99999999999", 3),
        Err(DecodeError::BadField { index: 1, error: NumberError::Malformed })
    );
    assert_eq!(
        decode_submission("1,2,1e99999999999", 3),
        Err(DecodeError::BadField { index: 2, error: NumberError::OutOfRange })
    );
    assert_eq!(
        decode_submission("1,,3", 3),
        Err(DecodeError::BadField { index: 1, error: NumberError::Malformed })
    );
}

#[test]
fn submission_round_trip() {
    let values = vec![num("0"), num("-12.5"), num("1e21"), num("0.0001"), num("18446744073709551615")];
    let message = encode_submission(&values);
    assert_eq!(message, "0,-12.5,1000000000000000000000,0.0001,18446744073709551615");
    assert_eq!(decode_submission(&message, values.len()), Ok(values));
    assert_eq!(encode_submission(&vec![]), "");
    assert_eq!(decode_submission(&encode_submission(&vec![]), 0), Ok(vec![]));
}

#[test]
fn encode_result_uses_output_precision() {
    let out = Output::Number { label: None, precision: 3 };
    assert_eq!(encode_result(&num("2"), &out), "2.000");
    assert_eq!(encode_result(&num("2"), &Output::default()), "2.00");
    assert_eq!(Output::default().get_precision(), 2);
}

#[test]
fn controls_show_initial_values() {
    let n = add_number(0, &num("3.5"), &None);
    assert!(n.contains("value=\"3.5\""));
    assert!(n.contains("id=\"input-0\""));
    assert!(n.contains("Input 0"));
    let s = add_slider(4, &num("1947"), &num("1970"), &num("1940"), &num("0.33"), &Some("Year".to_string()));
    assert!(s.contains("min=\"1940\" max=\"1970\" step=\"0.33\" value=\"1947\""));
    assert!(s.contains("Year"));
    assert!(s.contains("id=\"input-4\""));
    let d = add_dropdown(2, 1, &vec![num("10"), num("20"), num("30")], &None);
    assert!(d.contains("<option value=\"10\">10</option><option selected value=\"20\">20</option><option value=\"30\">30</option>"));
    assert!(d.contains("x<sub>2</sub> = "));
    for (markup, shown) in [(n, "3.5"), (s, "1947"), (d, "20")] {
        let key = if markup.contains("<select") { "<option selected value=\"" } else { "value=\"" };
        let start = markup.find(key).unwrap() + key.len();
        let rest = &markup[start..];
        let text = &rest[..rest.find('"').unwrap()];
        assert_eq!(text, shown);
        assert_eq!(read_number(text), read_number(shown));
    }
}

#[test]
fn render_has_one_marked_control_per_input_in_order() {
    let inputs = vec![
        number("1"),
        Input::Slider { label: None, min: num("0"), max: num("10"), step: num("0.5"), initial_value: num("2") },
        Input::Dropdown { label: Some("Pick".to_string()), options: vec![num("1"), num("2")], initial_value: 0 },
    ];
    let teaser = Teaser::default()
        .with_title("Addition".to_string())
        .with_description("Adds <b>things</b>.".to_string())
        .with_inputs(inputs)
        .with_output(Output::Number { label: Some("Sum".to_string()), precision: 1 });
    let doc = teaser.render();
    assert_eq!(doc.matches("tease_input\"").count(), 3);
    let at: Vec<usize> = (0..3).map(|i| doc.find(&format!("id=\"input-{}\"", i)).unwrap()).collect();
    assert!(at[0] < at[1] && at[1] < at[2]);
    assert!(doc.starts_with(&beginning("Addition", "Adds <b>things</b>.")));
    assert!(doc.ends_with(&end()));
    assert!(doc.contains(&middle()));
    assert!(doc.contains("<i>Sum</i>"));
    assert!(doc.contains("id=\"output\""));
    assert!(doc.contains("getElementsByClassName('tease_input')"));
}

#[test]
fn default_configuration() {
    let teaser = Teaser::default();
    assert_eq!(teaser.title(), "Demo");
    assert_eq!(teaser.description(), "");
    assert_eq!(teaser.inputs().len(), 1);
    assert_eq!(teaser.output().get_precision(), 2);
    let doc = teaser.render();
    assert_eq!(doc.matches("tease_input\"").count(), 1);
    assert!(doc.contains("<i>Result</i>"));
    assert!(doc.contains("value=\"0\""));
}

#[test]
fn sum_scenario() {
    let teaser = Teaser::default().with_inputs(vec![number("0"), number("0")]);
    let host = Host::new(&teaser);
    let (phase, action) = host.step(Phase::Idle, &Event::Submission("2,3".to_string()));
    assert_eq!(phase, Phase::Computing);
    let values = match action {
        Action::Evaluate(values) => values,
        other => panic!("unexpected {:?}", other),
    };
    assert_eq!(values, vec![num("2"), num("3")]);
    let result = sum_of(&values);
    assert_eq!(result, num("5"));
    assert_eq!(encode_result(&result, teaser.output()), "5.00");
    let (phase, action) = host.step(Phase::Computing, &Event::Computed(result));
    assert_eq!(phase, Phase::Idle);
    match action {
        Action::Show(command) => assert_eq!(command, "document.getElementById('output').value = \"5.00\";"),
        other => panic!("unexpected {:?}", other),
    }
}

#[test]
fn dropdown_scenario() {
    let input = Input::Dropdown { label: None, options: vec![num("10"), num("20"), num("30")], initial_value: 1 };
    let teaser = Teaser::default().with_inputs(vec![input]);
    let doc = teaser.render();
    assert!(doc.contains("<option selected value=\"20\">20</option>"));
    assert_eq!(doc.matches("selected").count(), 1);
    let host = Host::new(&teaser);
    let (phase, action) = host.step(Phase::Idle, &Event::Submission("30".to_string()));
    assert_eq!(phase, Phase::Computing);
    match action {
        Action::Evaluate(values) => assert_eq!(values, vec![num("30")]),
        other => panic!("unexpected {:?}", other),
    }
}

#[test]
fn bad_submission_scenario() {
    let teaser = Teaser::default().with_inputs(vec![number("0"), number("0")]);
    let host = Host::new(&teaser);
    let (phase, action) = host.step(Phase::Idle, &Event::Submission("abc,2".to_string()));
    assert_eq!(phase, Phase::Idle);
    match action {
        Action::Reject(e) => assert_eq!(e, DecodeError::BadField { index: 0, error: NumberError::Malformed }),
        other => panic!("unexpected {:?}", other),
    }
    // The host still takes the next submission.
    let (phase, _) = host.step(phase, &Event::Submission("1,2".to_string()));
    assert_eq!(phase, Phase::Computing);
}

#[test]
fn repeated_submission_shows_same_result() {
    let teaser = Teaser::default().with_inputs(vec![number("0"), number("0")]);
    let host = Host::new(&teaser);
    let mut shown = Vec::new();
    let mut phase = Phase::Idle;
    for _ in 0..3 {
        let (next, action) = host.step(phase, &Event::Submission("1.25,2".to_string()));
        let values = match action {
            Action::Evaluate(values) => values,
            other => panic!("unexpected {:?}", other),
        };
        let (next, action) = host.step(next, &Event::Computed(sum_of(&values)));
        phase = next;
        match action {
            Action::Show(command) => shown.push(command),
            other => panic!("unexpected {:?}", other),
        }
    }
    assert_eq!(phase, Phase::Idle);
    assert!(shown.iter().all(|c| *c == shown[0]));
    assert!(shown[0].contains("\"3.25\""));
}

#[test]
fn failures_and_close() {
    let host = Host::new(&Teaser::default());
    let (phase, action) = host.step(Phase::Computing, &Event::Failed);
    assert_eq!(phase, Phase::Idle);
    assert!(matches!(action, Action::Nothing));
    let (phase, action) = host.step(Phase::Idle, &Event::CloseRequested);
    assert_eq!(phase, Phase::Closed);
    assert!(matches!(action, Action::Exit(0)));
    let (phase, action) = host.step(Phase::Idle, &Event::Computed(num("1")));
    assert_eq!(phase, Phase::Idle);
    assert!(matches!(action, Action::Nothing));
    let (phase, action) = host.step(Phase::Computing, &Event::Submission("1".to_string()));
    assert_eq!(phase, Phase::Computing);
    assert!(matches!(action, Action::Nothing));
}
