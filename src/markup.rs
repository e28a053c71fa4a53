//! The form as markup: one control per input in schema order, an output field, and the script
//! that collects the controls' values into a submission.
use vstd::prelude::*;
use crate::text::{digits, digit_chars, push_chars};
use crate::decimal::{Decimal, text_of};
use crate::numeral::{NumberError, read_spec, lemma_read_text};
use crate::schema::{Input, Output, Teaser};

verus! {

/// The end of the class attribute that marks a control whose value is submitted.
pub open spec fn marker() -> Seq<char> {
    seq!['t', 'e', 'a', 's', 'e', '_', 'i', 'n', 'p', 'u', 't', '"']
}

/// The label shown: the one given, else `default`.
pub open spec fn label_or(label: Option<String>, default: Seq<char>) -> Seq<char> {
    match label {
        Some(l) => l@,
        None => default,
    }
}

/// The default label of a number field.
pub open spec fn number_default(i: nat) -> Seq<char> {
    "Input "@ + digits(i)
}

/// The default label of a slider or a dropdown.
pub open spec fn variable_default(i: nat) -> Seq<char> {
    "x<sub>"@ + digits(i) + "</sub> = "@
}

/// The label element and the opening of the control element, up to its marker.
pub open spec fn control_head(i: nat, label: Seq<char>, open: Seq<char>) -> Seq<char> {
    "<label for=\"input-"@ + digits(i) + "\"><i>"@ + label + "</i></label>"@ + open + marker()
        + " id=\"input-"@ + digits(i) + "\" name=\"x"@ + digits(i)
}

pub open spec fn number_markup(i: nat, v: Decimal, label: Option<String>) -> Seq<char> {
    control_head(i, label_or(label, number_default(i)), "<input type=\"text\" class=\"form-control "@)
        + "\" value=\""@ + text_of(v) + "\">"@
}

pub open spec fn slider_markup(
    i: nat,
    v: Decimal,
    max: Decimal,
    min: Decimal,
    step: Decimal,
    label: Option<String>,
) -> Seq<char> {
    control_head(
        i,
        label_or(label, variable_default(i)),
        "<div class=\"slider\"><input type=\"range\" class=\"form-control "@,
    ) + "\" min=\""@ + text_of(min) + "\" max=\""@ + text_of(max) + "\" step=\""@ + text_of(step)
        + "\" value=\""@ + text_of(v)
        + "\" oninput=\"this.nextElementSibling.value = this.value\"><input type=\"text\" class=\"form-control\" value=\""@
        + text_of(v) + "\" readonly></div>"@
}

pub open spec fn option_markup(o: Decimal, selected: bool) -> Seq<char> {
    (if selected {
        "<option selected value=\""@
    } else {
        "<option value=\""@
    }) + text_of(o) + "\">"@ + text_of(o) + "</option>"@
}

/// The options of a dropdown, the one at `selected` marked as selected.
pub open spec fn options_markup(options: Seq<Decimal>, selected: int) -> Seq<char>
    decreases options.len(),
{
    if options.len() == 0 {
        Seq::empty()
    } else {
        options_markup(options.drop_last(), selected) + option_markup(
            options.last(),
            options.len() - 1 == selected,
        )
    }
}

pub open spec fn dropdown_markup(
    i: nat,
    selected: int,
    options: Seq<Decimal>,
    label: Option<String>,
) -> Seq<char> {
    control_head(i, label_or(label, variable_default(i)), "<select class=\"form-control "@)
        + "\">"@ + options_markup(options, selected) + "</select>"@
}

/// The markup of the input at position `i`.
pub open spec fn input_markup(input: Input, i: nat) -> Seq<char> {
    match input {
        Input::Number { label, initial_value } => number_markup(i, initial_value, label),
        Input::Slider { label, min, max, step, initial_value } => slider_markup(
            i,
            initial_value,
            max,
            min,
            step,
            label,
        ),
        Input::Dropdown { label, options, initial_value } => dropdown_markup(
            i,
            initial_value as int,
            options@,
            label,
        ),
    }
}

/// The markup of `inputs`, each at its position.
pub open spec fn inputs_markup(inputs: Seq<Input>) -> Seq<char>
    decreases inputs.len(),
{
    if inputs.len() == 0 {
        Seq::empty()
    } else {
        inputs_markup(inputs.drop_last()) + input_markup(inputs.last(), (inputs.len() - 1) as nat)
    }
}

pub open spec fn output_markup(output: Output) -> Seq<char> {
    "<label for=\"output\"><i>"@ + label_or(output.label_spec(), "Result"@)
        + "</i></label><input type=\"text\" class=\"form-control\" id=\"output\" name=\"output\" readonly>"@
}

/// The style sheet of the form.
pub open spec fn style_text() -> Seq<char> {
    "body { font-family: sans-serif; margin: 2em; } .row { display: flex; gap: 2em; } .col { flex: 1; padding: 1em; background: #f4f4f4; } label { display: block; margin-top: 1em; } .form-control { width: 100%; box-sizing: border-box; padding: 0.3em; } .slider { display: flex; gap: 1em; } .btn { margin-top: 1em; }"@
}

/// The script of the form: collects the value of every marked control, in document order, and
/// posts them joined by commas.
pub open spec fn script_text() -> Seq<char> {
    "function submitValues() { var values = []; var controls = document.getElementsByClassName('tease_input'); for (var k = 0; k < controls.length; k++) { values.push(Number(controls[k].value)); } window.ipc.postMessage(values.join(',')); return false; }"@
}

pub open spec fn beginning_markup(title: Seq<char>, description: Seq<char>) -> Seq<char> {
    "<!DOCTYPE html><html lang=\"en\"><head><meta charset=\"utf-8\"><title>"@ + title
        + "</title><style>"@ + style_text() + "</style><script>"@ + script_text()
        + "</script></head><body><div class=\"container\"><h1>"@ + title
        + "</h1><p class=\"description\">"@ + description
        + "</p><div class=\"row\"><div class=\"col\"><form action=\"#\" onsubmit=\"return submitValues()\">"@
}

pub open spec fn middle_markup() -> Seq<char> {
    "<button type=\"submit\" class=\"btn\">Submit</button></form></div><div class=\"col\">"@
}

pub open spec fn end_markup() -> Seq<char> {
    "</div></div></div></body></html>"@
}

/// The whole document of a form.
pub open spec fn document(
    title: Seq<char>,
    description: Seq<char>,
    inputs: Seq<Input>,
    output: Output,
) -> Seq<char> {
    beginning_markup(title, description) + inputs_markup(inputs) + middle_markup() + output_markup(
        output,
    ) + end_markup()
}

fn push_index(s: &mut String, i: usize)
    ensures
        final(s)@ == old(s)@ + digits(i as nat),
{
    let ds = digit_chars(i as u128);
    push_chars(s, &ds, 0, ds.len());
    assert(ds@.subrange(0, ds@.len() as int) =~= ds@);
}

fn push_decimal(s: &mut String, d: &Decimal)
    ensures
        final(s)@ == old(s)@ + text_of(*d),
{
    let t = d.to_text();
    s.append(t.as_str());
}

fn push_marker(s: &mut String)
    ensures
        final(s)@ == old(s)@ + marker(),
{
    proof {
        reveal_strlit("tease_input\"");
    }
    s.append("tease_input\"");
}

pub open spec fn default_label(index: nat, variable: bool) -> Seq<char> {
    if variable {
        variable_default(index)
    } else {
        number_default(index)
    }
}

fn push_label(s: &mut String, index: usize, label: &Option<String>, variable: bool)
    ensures
        final(s)@ == old(s)@ + label_or(*label, default_label(index as nat, variable)),
{
    match label {
        Some(l) => s.append(l.as_str()),
        None => {
            if variable {
                s.append("x<sub>");
                push_index(s, index);
                s.append("</sub> = ");
            } else {
                s.append("Input ");
                push_index(s, index);
            }
            assert(s@ =~= old(s)@ + default_label(index as nat, variable));
        },
    }
}

/// Appends the label element and the opening of the control element, up to its marker.
fn push_control_head(s: &mut String, index: usize, label: &Option<String>, variable: bool, open: &str)
    ensures
        final(s)@ == old(s)@ + control_head(
            index as nat,
            label_or(*label, default_label(index as nat, variable)),
            open@,
        ),
{
    let ghost label_seq = label_or(*label, default_label(index as nat, variable));
    s.append("<label for=\"input-");
    push_index(s, index);
    s.append("\"><i>");
    push_label(s, index, label, variable);
    let ghost part = s@;
    assert(part =~= old(s)@ + "<label for=\"input-"@ + digits(index as nat) + "\"><i>"@ + label_seq);
    s.append("</i></label>");
    s.append(open);
    push_marker(s);
    s.append(" id=\"input-");
    push_index(s, index);
    s.append("\" name=\"x");
    push_index(s, index);
    assert(s@ =~= old(s)@ + control_head(index as nat, label_seq, open@));
}

/// The markup of a number field.
pub fn add_number(index: usize, initial_value: &Decimal, label: &Option<String>) -> (r: String)
    ensures
        r@ == number_markup(index as nat, *initial_value, *label),
{
    let mut s = String::new();
    push_control_head(&mut s, index, label, false, "<input type=\"text\" class=\"form-control ");
    s.append("\" value=\"");
    push_decimal(&mut s, initial_value);
    s.append("\">");
    proof {
        assert(s@ =~= number_markup(index as nat, *initial_value, *label));
    }
    s
}

/// The markup of a slider and of the field that mirrors it.
pub fn add_slider(
    index: usize,
    initial_value: &Decimal,
    max: &Decimal,
    min: &Decimal,
    step: &Decimal,
    label: &Option<String>,
) -> (r: String)
    ensures
        r@ == slider_markup(index as nat, *initial_value, *max, *min, *step, *label),
{
    let mut s = String::new();
    push_control_head(
        &mut s,
        index,
        label,
        true,
        "<div class=\"slider\"><input type=\"range\" class=\"form-control ",
    );
    s.append("\" min=\"");
    push_decimal(&mut s, min);
    s.append("\" max=\"");
    push_decimal(&mut s, max);
    s.append("\" step=\"");
    push_decimal(&mut s, step);
    s.append("\" value=\"");
    push_decimal(&mut s, initial_value);
    s.append(
        "\" oninput=\"this.nextElementSibling.value = this.value\"><input type=\"text\" class=\"form-control\" value=\"",
    );
    push_decimal(&mut s, initial_value);
    s.append("\" readonly></div>");
    proof {
        assert(s@ =~= slider_markup(index as nat, *initial_value, *max, *min, *step, *label));
    }
    s
}

/// The markup of a dropdown, with the option at `initial_value_index` selected.
pub fn add_dropdown(
    index: usize,
    initial_value_index: usize,
    options: &Vec<Decimal>,
    label: &Option<String>,
) -> (r: String)
    ensures
        r@ == dropdown_markup(index as nat, initial_value_index as int, options@, *label),
{
    let mut s = String::new();
    push_control_head(&mut s, index, label, true, "<select class=\"form-control ");
    s.append("\">");
    let ghost head = s@;
    let mut j: usize = 0;
    while j < options.len()
        invariant
            0 <= j <= options.len(),
            s@ == head + options_markup(options@.take(j as int), initial_value_index as int),
        decreases options.len() - j,
    {
        let ghost before = s@;
        if j == initial_value_index {
            s.append("<option selected value=\"");
        } else {
            s.append("<option value=\"");
        }
        push_decimal(&mut s, &options[j]);
        s.append("\">");
        push_decimal(&mut s, &options[j]);
        s.append("</option>");
        proof {
            let taken = options@.take(j + 1);
            assert(taken.drop_last() =~= options@.take(j as int));
            assert(s@ =~= before + option_markup(options@[j as int], j == initial_value_index));
        }
        j = j + 1;
    }
    assert(options@.take(options.len() as int) =~= options@);
    s.append("</select>");
    proof {
        assert(s@ =~= dropdown_markup(index as nat, initial_value_index as int, options@, *label));
    }
    s
}

impl Input {
    /// The markup of this input as the control at position `idx`.
    pub fn get_html(&self, idx: usize) -> (r: String)
        ensures
            r@ == input_markup(*self, idx as nat),
    {
        match self {
            Input::Number { initial_value, label } => add_number(idx, initial_value, label),
            Input::Slider { min, max, step, initial_value, label } => add_slider(
                idx,
                initial_value,
                max,
                min,
                step,
                label,
            ),
            Input::Dropdown { initial_value, options, label } => add_dropdown(
                idx,
                *initial_value,
                options,
                label,
            ),
        }
    }
}

impl Output {
    /// The markup of the result field.
    pub fn get_html(&self) -> (r: String)
        ensures
            r@ == output_markup(*self),
    {
        let mut s = String::new();
        s.append("<label for=\"output\"><i>");
        match self {
            Output::Number { label, .. } => match label {
                Some(l) => s.append(l.as_str()),
                None => s.append("Result"),
            },
        }
        s.append(
            "</i></label><input type=\"text\" class=\"form-control\" id=\"output\" name=\"output\" readonly>",
        );
        proof {
            assert(s@ =~= output_markup(*self));
        }
        s
    }
}

/// The opening of the document, up to the first control.
pub fn beginning(title: &str, description: &str) -> (r: String)
    ensures
        r@ == beginning_markup(title@, description@),
{
    let mut s = String::new();
    s.append("<!DOCTYPE html><html lang=\"en\"><head><meta charset=\"utf-8\"><title>");
    s.append(title);
    s.append("</title><style>");
    s.append(
        "body { font-family: sans-serif; margin: 2em; } .row { display: flex; gap: 2em; } .col { flex: 1; padding: 1em; background: #f4f4f4; } label { display: block; margin-top: 1em; } .form-control { width: 100%; box-sizing: border-box; padding: 0.3em; } .slider { display: flex; gap: 1em; } .btn { margin-top: 1em; }",
    );
    s.append("</style><script>");
    s.append(
        "function submitValues() { var values = []; var controls = document.getElementsByClassName('tease_input'); for (var k = 0; k < controls.length; k++) { values.push(Number(controls[k].value)); } window.ipc.postMessage(values.join(',')); return false; }",
    );
    s.append("</script></head><body><div class=\"container\"><h1>");
    s.append(title);
    s.append("</h1><p class=\"description\">");
    s.append(description);
    s.append(
        "</p><div class=\"row\"><div class=\"col\"><form action=\"#\" onsubmit=\"return submitValues()\">",
    );
    proof {
        assert(s@ =~= beginning_markup(title@, description@));
    }
    s
}

/// The submit button, and the opening of the result column.
pub fn middle() -> (r: String)
    ensures
        r@ == middle_markup(),
{
    let mut s = String::new();
    s.append(
        "<button type=\"submit\" class=\"btn\">Submit</button></form></div><div class=\"col\">",
    );
    proof {
        assert(s@ =~= middle_markup());
    }
    s
}

/// The close of the document.
pub fn end() -> (r: String)
    ensures
        r@ == end_markup(),
{
    let mut s = String::new();
    s.append("</div></div></div></body></html>");
    proof {
        assert(s@ =~= end_markup());
    }
    s
}

/// The whole document of a form with these parts.
pub fn render_parts(title: &str, description: &str, inputs: &Vec<Input>, output: &Output) -> (r:
    String)
    ensures
        r@ == document(title@, description@, inputs@, *output),
{
    let mut s = beginning(title, description);
    let ghost head = s@;
    let mut i: usize = 0;
    while i < inputs.len()
        invariant
            0 <= i <= inputs.len(),
            s@ == head + inputs_markup(inputs@.take(i as int)),
        decreases inputs.len() - i,
    {
        let block = inputs[i].get_html(i);
        s.append(block.as_str());
        proof {
            let taken = inputs@.take(i + 1);
            assert(taken.drop_last() =~= inputs@.take(i as int));
            assert(s@ =~= head + inputs_markup(taken));
        }
        i = i + 1;
    }
    assert(inputs@.take(inputs.len() as int) =~= inputs@);
    let m = middle();
    s.append(m.as_str());
    let o = output.get_html();
    s.append(o.as_str());
    let e = end();
    s.append(e.as_str());
    proof {
        assert(s@ =~= document(title@, description@, inputs@, *output));
    }
    s
}

impl Teaser {
    /// The document of this form.
    pub fn render(&self) -> (r: String)
        ensures
            r@ == document(
                self.title_spec(),
                self.description_spec(),
                self.inputs_spec(),
                self.output_spec(),
            ),
    {
        render_parts(self.title().as_str(), self.description().as_str(), self.inputs(), self.output())
    }
}

/// What precedes the shown value of a control: `value="` for a field or a slider, the opening of
/// the selected option for a dropdown.
pub open spec fn value_key(input: Input) -> Seq<char> {
    match input {
        Input::Dropdown { .. } => "<option selected value=\""@,
        _ => "value=\""@,
    }
}

pub open spec fn ends_with(s: Seq<char>, key: Seq<char>) -> bool {
    s.len() >= key.len() && s.subrange(s.len() - key.len(), s.len() as int) == key
}

proof fn lemma_options_through(options: Seq<Decimal>, selected: int, k: int)
    requires
        0 <= selected < k <= options.len(),
    ensures
        exists|rest: Seq<char>|
            options_markup(options.take(k), selected) == options_markup(options.take(selected), selected)
                + option_markup(options[selected], true) + rest,
    decreases k,
{
    let t = options.take(k);
    assert(t.drop_last() =~= options.take(k - 1));
    if k == selected + 1 {
        assert(t.last() == options[selected]);
        let w = Seq::<char>::empty();
        assert(options_markup(t, selected) =~= options_markup(options.take(selected), selected)
            + option_markup(options[selected], true) + w);
    } else {
        lemma_options_through(options, selected, k - 1);
        let rest = choose|rest: Seq<char>|
            options_markup(options.take(k - 1), selected) == options_markup(options.take(selected), selected)
                + option_markup(options[selected], true) + rest;
        let w = rest + option_markup(t.last(), k - 1 == selected);
        assert(options_markup(t, selected) =~= options_markup(options.take(selected), selected)
            + option_markup(options[selected], true) + w);
    }
}

proof fn lemma_number_shows(i: nat, v: Decimal, label: Option<String>)
    ensures
        ({
            let pre = control_head(i, label_or(label, number_default(i)), "<input type=\"text\" class=\"form-control "@)
                + "\" value=\""@;
            &&& number_markup(i, v, label) == pre + text_of(v) + "\">"@
            &&& ends_with(pre, "value=\""@)
            &&& "\">"@.len() == 2 && "\">"@[0] == '"'
        }),
{
    reveal_strlit("value=\"");
    reveal_strlit("\" value=\"");
    reveal_strlit("\">");
    let pre = control_head(i, label_or(label, number_default(i)), "<input type=\"text\" class=\"form-control "@)
        + "\" value=\""@;
    assert(number_markup(i, v, label) =~= pre + text_of(v) + "\">"@);
    assert(pre.subrange(pre.len() - 7, pre.len() as int) =~= "value=\""@);
}

proof fn lemma_slider_shows(i: nat, v: Decimal, max: Decimal, min: Decimal, step: Decimal, label: Option<String>)
    ensures
        ({
            let pre = control_head(
                i,
                label_or(label, variable_default(i)),
                "<div class=\"slider\"><input type=\"range\" class=\"form-control "@,
            ) + "\" min=\""@ + text_of(min) + "\" max=\""@ + text_of(max) + "\" step=\""@ + text_of(step)
                + "\" value=\""@;
            let post = "\" oninput=\"this.nextElementSibling.value = this.value\"><input type=\"text\" class=\"form-control\" value=\""@
                + text_of(v) + "\" readonly></div>"@;
            &&& slider_markup(i, v, max, min, step, label) == pre + text_of(v) + post
            &&& ends_with(pre, "value=\""@)
            &&& post.len() >= 1 && post[0] == '"'
        }),
{
    reveal_strlit("value=\"");
    reveal_strlit("\" value=\"");
    reveal_strlit("\" oninput=\"this.nextElementSibling.value = this.value\"><input type=\"text\" class=\"form-control\" value=\"");
    let pre = control_head(
        i,
        label_or(label, variable_default(i)),
        "<div class=\"slider\"><input type=\"range\" class=\"form-control "@,
    ) + "\" min=\""@ + text_of(min) + "\" max=\""@ + text_of(max) + "\" step=\""@ + text_of(step)
        + "\" value=\""@;
    let post = "\" oninput=\"this.nextElementSibling.value = this.value\"><input type=\"text\" class=\"form-control\" value=\""@
        + text_of(v) + "\" readonly></div>"@;
    assert(slider_markup(i, v, max, min, step, label) =~= pre + text_of(v) + post);
    assert(pre.subrange(pre.len() - 7, pre.len() as int) =~= "value=\""@);
}

#[verifier::rlimit(60)]
proof fn lemma_dropdown_shows(i: nat, sel: int, options: Seq<Decimal>, label: Option<String>)
    requires
        0 <= sel < options.len(),
    ensures
        exists|pre: Seq<char>, post: Seq<char>|
            dropdown_markup(i, sel, options, label) == pre + text_of(options[sel]) + post
                && ends_with(pre, "<option selected value=\""@) && post.len() >= 1 && post[0] == '"',
{
    lemma_options_through(options, sel, options.len() as int);
    assert(options.take(options.len() as int) =~= options);
    let rest = choose|rest: Seq<char>|
        options_markup(options.take(options.len() as int), sel) == options_markup(options.take(sel), sel)
            + option_markup(options[sel], true) + rest;
    let key = "<option selected value=\""@;
    reveal_strlit("<option selected value=\"");
    reveal_strlit("\">");
    let pre = control_head(i, label_or(label, variable_default(i)), "<select class=\"form-control "@)
        + "\">"@ + options_markup(options.take(sel), sel) + key;
    let post = "\">"@ + text_of(options[sel]) + "</option>"@ + rest + "</select>"@;
    assert(dropdown_markup(i, sel, options, label) =~= pre + text_of(options[sel]) + post);
    assert(pre.subrange(pre.len() - key.len(), pre.len() as int) =~= key);
}

/// The value a control shows at first is written as the canonical text of the configured value
/// (of the selected option, for a dropdown), right after its key and closed by a quote; read back
/// as a submission field, that text gives the configured value.
pub proof fn lemma_shown_initial_value(input: Input, i: nat)
    requires
        input.numbers_wf(),
        input is Dropdown ==> input->Dropdown_initial_value < input->options@.len(),
    ensures
        exists|pre: Seq<char>, post: Seq<char>|
            #[trigger] input_markup(input, i) == pre + text_of(input.shown_initial()) + post
                && ends_with(pre, value_key(input)) && post.len() >= 1 && post[0] == '"',
        read_spec(text_of(input.shown_initial())) == Ok::<Decimal, NumberError>(input.shown_initial()),
{
    let v = input.shown_initial();
    match input {
        Input::Number { label, initial_value } => {
            lemma_number_shows(i, initial_value, label);
            let pre = control_head(i, label_or(label, number_default(i)), "<input type=\"text\" class=\"form-control "@)
                + "\" value=\""@;
            let post = "\">"@;
            assert(input_markup(input, i) == pre + text_of(v) + post && ends_with(pre, value_key(input))
                && post.len() >= 1 && post[0] == '"');
        },
        Input::Slider { label, min, max, step, initial_value } => {
            lemma_slider_shows(i, initial_value, max, min, step, label);
            let pre = control_head(
                i,
                label_or(label, variable_default(i)),
                "<div class=\"slider\"><input type=\"range\" class=\"form-control "@,
            ) + "\" min=\""@ + text_of(min) + "\" max=\""@ + text_of(max) + "\" step=\""@ + text_of(step)
                + "\" value=\""@;
            let post = "\" oninput=\"this.nextElementSibling.value = this.value\"><input type=\"text\" class=\"form-control\" value=\""@
                + text_of(v) + "\" readonly></div>"@;
            assert(input_markup(input, i) == pre + text_of(v) + post && ends_with(pre, value_key(input))
                && post.len() >= 1 && post[0] == '"');
        },
        Input::Dropdown { label, options, initial_value } => {
            lemma_dropdown_shows(i, initial_value as int, options@, label);
        },
    }
    lemma_read_text(v);
}

} // verus!
