//! The declarative schema: the kinds of input and output a form offers, and its configuration.
use vstd::prelude::*;
use crate::decimal::{Decimal, value_le, is_positive};

verus! {

/// One input of the form. Its position in the schema is its identity: the `n`th input is the
/// `n`th control of the form and the `n`th field of a submission.
#[derive(Clone, Debug)]
#[non_exhaustive]
pub enum Input {
    /// A free numeric field.
    Number {
        /// Label above the field; `None` shows `Input <n>`.
        label: Option<String>,
        /// The value the field shows at first.
        initial_value: Decimal,
    },
    /// A range control, with a read-only field that mirrors its value.
    Slider {
        /// Label above the control; `None` shows `x<sub>n</sub> = `.
        label: Option<String>,
        /// The value at the far left.
        min: Decimal,
        /// The value at the far right.
        max: Decimal,
        /// The distance between two positions.
        step: Decimal,
        /// The position at first.
        initial_value: Decimal,
    },
    /// A choice among numbers.
    Dropdown {
        /// Label above the control; `None` shows `x<sub>n</sub> = `.
        label: Option<String>,
        /// The choices, in the order shown.
        options: Vec<Decimal>,
        /// The index in `options` of the choice selected at first.
        initial_value: usize,
    },
}

/// How the result is shown.
#[derive(Clone, Debug)]
#[non_exhaustive]
pub enum Output {
    /// A read-only numeric field.
    Number {
        /// Label above the field; `None` shows `Result`.
        label: Option<String>,
        /// The number of decimal places shown.
        precision: usize,
    },
}

/// Why a configuration cannot be shown. `index` is the position of the input at fault.
#[derive(Clone, Copy, Debug, PartialEq, Eq, Structural)]
pub enum ConfigurationError {
    /// A number of the input is not in its shortest form.
    NotShortest { index: usize },
    /// A dropdown's initial index is not the index of one of its options.
    NoSuchOption { index: usize },
    /// A slider's minimum is greater than its maximum.
    EmptyRange { index: usize },
    /// A slider's step is not greater than zero.
    StepNotPositive { index: usize },
}

/// What is wrong with the input at position `index`, if anything; the first of: a number not in
/// shortest form, a dropdown index out of range, a slider range that is empty, a step that is not
/// positive.
pub open spec fn input_fault(input: Input, index: usize) -> Option<ConfigurationError> {
    if !input.numbers_wf() {
        Some(ConfigurationError::NotShortest { index })
    } else {
        match input {
            Input::Dropdown { options, initial_value, .. } => if initial_value >= options@.len() {
                Some(ConfigurationError::NoSuchOption { index })
            } else {
                None
            },
            Input::Slider { min, max, step, .. } => if !value_le(min, max) {
                Some(ConfigurationError::EmptyRange { index })
            } else if !is_positive(step) {
                Some(ConfigurationError::StepNotPositive { index })
            } else {
                None
            },
            Input::Number { .. } => None,
        }
    }
}

/// The index of the first input at or after `from` with a fault, `inputs.len()` if there is none.
pub open spec fn first_fault(inputs: Seq<Input>, from: int) -> int
    decreases inputs.len() - from,
{
    if from < 0 || from >= inputs.len() {
        inputs.len() as int
    } else if input_fault(inputs[from], from as usize) is Some {
        from
    } else {
        first_fault(inputs, from + 1)
    }
}

impl Input {
    /// What is wrong with this input at position `index`, if anything (see `input_fault`).
    pub fn check(&self, index: usize) -> (r: Option<ConfigurationError>)
        ensures
            r == input_fault(*self, index),
    {
        match self {
            Input::Number { initial_value, .. } => {
                if !initial_value.is_wf() {
                    return Some(ConfigurationError::NotShortest { index });
                }
                None
            },
            Input::Slider { min, max, step, initial_value, .. } => {
                if !min.is_wf() || !max.is_wf() || !step.is_wf() || !initial_value.is_wf() {
                    return Some(ConfigurationError::NotShortest { index });
                }
                if !min.le(max) {
                    return Some(ConfigurationError::EmptyRange { index });
                }
                if !step.is_positive() {
                    return Some(ConfigurationError::StepNotPositive { index });
                }
                None
            },
            Input::Dropdown { options, initial_value, .. } => {
                let mut j: usize = 0;
                while j < options.len()
                    invariant
                        self is Dropdown && self->options@ == options@,
                        0 <= j <= options.len(),
                        forall|q: int| 0 <= q < j ==> (#[trigger] options@[q]).wf(),
                    decreases options.len() - j,
                {
                    if !options[j].is_wf() {
                        assert(!options@[j as int].wf());
                        return Some(ConfigurationError::NotShortest { index });
                    }
                    j = j + 1;
                }
                if *initial_value >= options.len() {
                    return Some(ConfigurationError::NoSuchOption { index });
                }
                None
            },
        }
    }

    /// The label this input was given, if any.
    pub open spec fn label_spec(&self) -> Option<String> {
        match self {
            Input::Number { label, .. } => *label,
            Input::Slider { label, .. } => *label,
            Input::Dropdown { label, .. } => *label,
        }
    }

    /// Every number of this input is a well-formed decimal.
    pub open spec fn numbers_wf(&self) -> bool {
        match self {
            Input::Number { initial_value, .. } => initial_value.wf(),
            Input::Slider { min, max, step, initial_value, .. } => min.wf() && max.wf() && step.wf()
                && initial_value.wf(),
            Input::Dropdown { options, .. } => forall|j: int|
                0 <= j < options@.len() ==> (#[trigger] options@[j]).wf(),
        }
    }

    /// The value the control shows at first: the initial value, or the selected option.
    pub open spec fn shown_initial(&self) -> Decimal
        recommends
            self is Dropdown ==> self->Dropdown_initial_value < self->options@.len(),
    {
        match self {
            Input::Number { initial_value, .. } => *initial_value,
            Input::Slider { initial_value, .. } => *initial_value,
            Input::Dropdown { options, initial_value, .. } => options@[*initial_value as int],
        }
    }
}

impl Default for Input {
    /// A number field without label, at zero.
    fn default() -> (r: Input)
        ensures
            r == (Input::Number {
                label: None,
                initial_value: Decimal { negative: false, coefficient: 0, exponent: 0 },
            }),
    {
        Input::Number { label: None, initial_value: Decimal::zero() }
    }
}

impl Output {
    pub open spec fn precision_spec(&self) -> usize {
        match self {
            Output::Number { precision, .. } => *precision,
        }
    }

    pub open spec fn label_spec(&self) -> Option<String> {
        match self {
            Output::Number { label, .. } => *label,
        }
    }

    /// The number of decimal places of the result.
    pub fn get_precision(&self) -> (r: usize)
        ensures
            r == self.precision_spec(),
    {
        match self {
            Output::Number { precision, .. } => *precision,
        }
    }
}

impl Default for Output {
    /// A number field labelled `Result`, with two decimal places.
    fn default() -> (r: Output)
        ensures
            r.precision_spec() == 2,
            r.label_spec() is Some && r.label_spec()->Some_0@ == "Result"@,
    {
        Output::Number { label: Some(String::from_str("Result")), precision: 2 }
    }
}

/// The configuration of a form: title, description, inputs and output.
pub struct Teaser {
    title: String,
    description: String,
    inputs: Vec<Input>,
    output: Output,
}

impl Teaser {
    pub closed spec fn title_spec(&self) -> Seq<char> {
        self.title@
    }

    pub closed spec fn description_spec(&self) -> Seq<char> {
        self.description@
    }

    pub closed spec fn inputs_spec(&self) -> Seq<Input> {
        self.inputs@
    }

    pub closed spec fn output_spec(&self) -> Output {
        self.output
    }

    /// Sets the title of the form and of its window.
    pub fn with_title(self, title: String) -> (r: Teaser)
        ensures
            r.title_spec() == title@,
            r.description_spec() == self.description_spec(),
            r.inputs_spec() == self.inputs_spec(),
            r.output_spec() == self.output_spec(),
    {
        Teaser { title, ..self }
    }

    /// Sets the text above the form; it may hold markup.
    pub fn with_description(self, description: String) -> (r: Teaser)
        ensures
            r.title_spec() == self.title_spec(),
            r.description_spec() == description@,
            r.inputs_spec() == self.inputs_spec(),
            r.output_spec() == self.output_spec(),
    {
        Teaser { description, ..self }
    }

    /// Sets the inputs, in the order the form shows them.
    pub fn with_inputs(self, inputs: Vec<Input>) -> (r: Teaser)
        ensures
            r.title_spec() == self.title_spec(),
            r.description_spec() == self.description_spec(),
            r.inputs_spec() == inputs@,
            r.output_spec() == self.output_spec(),
    {
        Teaser { inputs, ..self }
    }

    /// Sets how the result is shown.
    pub fn with_output(self, output: Output) -> (r: Teaser)
        ensures
            r.title_spec() == self.title_spec(),
            r.description_spec() == self.description_spec(),
            r.inputs_spec() == self.inputs_spec(),
            r.output_spec() == output,
    {
        Teaser { output, ..self }
    }

    /// Checks every input, in order; the fault of the first input that has one.
    pub fn check(&self) -> (r: Result<(), ConfigurationError>)
        ensures
            r is Ok <==> first_fault(self.inputs_spec(), 0) == self.inputs_spec().len(),
            r is Err ==> ({
                let i = first_fault(self.inputs_spec(), 0);
                i < self.inputs_spec().len() && input_fault(self.inputs_spec()[i], i as usize)
                    == Some(r->Err_0)
            }),
    {
        let mut i: usize = 0;
        while i < self.inputs.len()
            invariant
                0 <= i <= self.inputs@.len(),
                first_fault(self.inputs@, 0) == first_fault(self.inputs@, i as int),
            decreases self.inputs.len() - i,
        {
            match self.inputs[i].check(i) {
                Some(e) => {
                    return Err(e);
                },
                None => {},
            }
            i = i + 1;
        }
        Ok(())
    }

    pub fn title(&self) -> (r: &String)
        ensures
            r@ == self.title_spec(),
    {
        &self.title
    }

    pub fn description(&self) -> (r: &String)
        ensures
            r@ == self.description_spec(),
    {
        &self.description
    }

    pub fn inputs(&self) -> (r: &Vec<Input>)
        ensures
            r@ == self.inputs_spec(),
    {
        &self.inputs
    }

    pub fn output(&self) -> (r: &Output)
        ensures
            *r == self.output_spec(),
    {
        &self.output
    }
}

impl Default for Teaser {
    /// Title `Demo`, no description, one default input, the default output.
    fn default() -> (r: Teaser)
        ensures
            r.title_spec() == "Demo"@,
            r.description_spec() == Seq::<char>::empty(),
            r.inputs_spec().len() == 1,
            r.inputs_spec()[0] == (Input::Number {
                label: None,
                initial_value: Decimal { negative: false, coefficient: 0, exponent: 0 },
            }),
            r.output_spec().precision_spec() == 2,
            r.output_spec().label_spec() is Some && r.output_spec().label_spec()->Some_0@ == "Result"@,
    {
        let mut inputs: Vec<Input> = Vec::new();
        inputs.push(Input::default());
        proof {
            reveal_strlit("");
        }
        Teaser {
            title: String::from_str("Demo"),
            description: String::from_str(""),
            inputs,
            output: Output::default(),
        }
    }
}

} // verus!
