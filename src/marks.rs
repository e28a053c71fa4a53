//! Counting the marked controls of a document: the view collects exactly the elements that carry
//! the marker, in document order.
use vstd::prelude::*;
use crate::text::{digits, lacks, is_digit, lemma_digits_round_trip};
use crate::decimal::{Decimal, text_of};
use crate::schema::{Input, Output};
use crate::markup::{
    marker, label_or, number_default, variable_default, control_head, number_markup, slider_markup,
    option_markup, options_markup, dropdown_markup, input_markup, inputs_markup, output_markup,
    style_text, script_text, beginning_markup, middle_markup, end_markup, document,
};
use crate::wire::lemma_text_chars;

verus! {

/// The number of places where the marker occurs in `s`.
pub open spec fn count_marks(s: Seq<char>) -> nat
    decreases s.len(),
{
    if s.len() < 12 {
        0
    } else {
        count_marks(s.drop_last()) + if s.subrange(s.len() - 12, s.len() as int) == marker() {
            1nat
        } else {
            0nat
        }
    }
}

/// `s` does not start inside a marker: its first character is none of the marker's but its first.
pub open spec fn opens_clear(s: Seq<char>) -> bool {
    s.len() > 0 && !marker().drop_first().contains(s[0])
}

/// `s` does not end inside a marker: its last character is none of the marker's but its last.
pub open spec fn closes_clear(s: Seq<char>) -> bool {
    s.len() > 0 && !marker().drop_last().contains(s.last())
}

/// A character that occurs nowhere in the marker.
pub open spec fn foreign(c: char) -> bool {
    !marker().contains(c)
}

/// Markers in a concatenation are those of its parts, where no marker can straddle the seam.
pub proof fn lemma_count_concat(a: Seq<char>, b: Seq<char>)
    requires
        b.len() == 0 || closes_clear(a) || opens_clear(b),
    ensures
        count_marks(a + b) == count_marks(a) + count_marks(b),
    decreases b.len(),
{
    if b.len() == 0 {
        assert(a + b =~= a);
    } else {
        let b1 = b.drop_last();
        if b1.len() > 0 && opens_clear(b) {
            assert(b1[0] == b[0]);
        }
        lemma_count_concat(a, b1);
        assert((a + b).drop_last() =~= a + b1);
        let n = (a + b).len();
        if n >= 12 {
            let tail = (a + b).subrange(n - 12, n as int);
            if b.len() >= 12 {
                assert(tail =~= b.subrange(b.len() - 12, b.len() as int));
            } else if tail == marker() {
                let j = 12 - b.len();
                assert(tail[j] == b[0]);
                assert(marker().drop_first()[j - 1] == b[0]);
                assert(tail[j - 1] == a.last());
                assert(marker().drop_last()[j - 1] == a.last());
            }
        }
    }
}

/// Text without an underscore, or without a double quote, holds no marker.
pub proof fn lemma_count_none(s: Seq<char>)
    requires
        lacks(s, '_') || lacks(s, '"'),
    ensures
        count_marks(s) == 0,
    decreases s.len(),
{
    if s.len() >= 12 {
        let s1 = s.drop_last();
        assert(lacks(s1, '_') || lacks(s1, '"')) by {
            if lacks(s, '_') {
                assert forall|i: int| 0 <= i < s1.len() implies s1[i] != '_' by {
                    assert(s1[i] == s[i]);
                }
            } else {
                assert forall|i: int| 0 <= i < s1.len() implies s1[i] != '"' by {
                    assert(s1[i] == s[i]);
                }
            }
        }
        lemma_count_none(s1);
        let tail = s.subrange(s.len() - 12, s.len() as int);
        if tail == marker() {
            assert(tail[5] == s[s.len() - 7]);
            assert(tail[11] == s[s.len() - 1]);
        }
    }
}

pub proof fn lemma_count_marker()
    ensures
        count_marks(marker()) == 1,
{
    let m = marker();
    assert(m.len() == 12);
    assert(m.subrange(0, 12) =~= m);
    lemma_count_none(m.drop_last());
}

/// Digits, signs and points are foreign to the marker.
pub proof fn lemma_numeric_chars_foreign(c: char)
    requires
        is_digit(c) || c == '-' || c == '.',
    ensures
        foreign(c),
{
    let m = marker();
    assert forall|i: int| 0 <= i < m.len() implies m[i] != c by {}
    assert(!m.contains(c));
}

/// Text of foreign characters holds no marker and is clear at both ends.
pub proof fn lemma_foreign_text(s: Seq<char>)
    requires
        s.len() > 0,
        forall|i: int| 0 <= i < s.len() ==> foreign(#[trigger] s[i]),
    ensures
        count_marks(s) == 0,
        opens_clear(s),
        closes_clear(s),
{
    assert(lacks(s, '_')) by {
        assert forall|i: int| 0 <= i < s.len() implies s[i] != '_' by {
            assert(foreign(s[i]));
            assert(marker()[5] == '_');
        }
    }
    lemma_count_none(s);
    assert(foreign(s[0]));
    assert(foreign(s.last()));
    if marker().drop_first().contains(s[0]) {
        let k = choose|k: int| 0 <= k < 11 && marker().drop_first()[k] == s[0];
        assert(marker()[k + 1] == s[0]);
    }
    if marker().drop_last().contains(s.last()) {
        let k = choose|k: int| 0 <= k < 11 && marker().drop_last()[k] == s.last();
        assert(marker()[k] == s.last());
    }
}

pub proof fn lemma_digits_clear(n: nat)
    ensures
        count_marks(digits(n)) == 0,
        opens_clear(digits(n)),
        closes_clear(digits(n)),
{
    lemma_digits_round_trip(n);
    let s = digits(n);
    assert forall|i: int| 0 <= i < s.len() implies foreign(#[trigger] s[i]) by {
        lemma_numeric_chars_foreign(s[i]);
    }
    lemma_foreign_text(s);
}

pub proof fn lemma_decimal_clear(d: Decimal)
    ensures
        count_marks(text_of(d)) == 0,
        opens_clear(text_of(d)),
        closes_clear(text_of(d)),
{
    lemma_text_chars(d);
    let s = text_of(d);
    assert forall|i: int| 0 <= i < s.len() implies foreign(#[trigger] s[i]) by {
        lemma_numeric_chars_foreign(s[i]);
    }
    lemma_foreign_text(s);
}

pub proof fn lemma_opens_concat(a: Seq<char>, b: Seq<char>)
    requires
        opens_clear(a),
    ensures
        opens_clear(a + b),
{
    assert((a + b)[0] == a[0]);
}

pub proof fn lemma_closes_concat(a: Seq<char>, b: Seq<char>)
    requires
        closes_clear(b),
    ensures
        closes_clear(a + b),
{
    assert((a + b).last() == b.last());
}

/// A piece of template holds no marker; it is clear at an end that is `<`, `>` or a space.
pub proof fn lemma_piece(s: Seq<char>)
    requires
        s.len() > 0,
        lacks(s, '_') || lacks(s, '"'),
    ensures
        count_marks(s) == 0,
        s[0] == '<' || s[0] == ' ' ==> opens_clear(s),
        s.last() == '>' || s.last() == ' ' || s.last() == '-' || s.last() == 'x' ==> closes_clear(
            s,
        ),
{
    lemma_count_none(s);
    let m = marker();
    if s[0] == '<' || s[0] == ' ' {
        if m.drop_first().contains(s[0]) {
            let k = choose|k: int| 0 <= k < 11 && m.drop_first()[k] == s[0];
            assert(m[k + 1] == s[0]);
        }
    }
    let c = s.last();
    if c == '>' || c == ' ' || c == '-' || c == 'x' {
        if m.drop_last().contains(c) {
            let k = choose|k: int| 0 <= k < 11 && m.drop_last()[k] == c;
            assert(m[k] == c);
        }
    }
}

proof fn lemma_default_labels(i: nat)
    ensures
        count_marks(number_default(i)) == 0,
        count_marks(variable_default(i)) == 0,
{
    reveal_strlit("Input ");
    reveal_strlit("x<sub>");
    reveal_strlit("</sub> = ");
    lemma_digits_clear(i);
    lemma_piece("Input "@);
    lemma_count_concat("Input "@, digits(i));
    lemma_piece("x<sub>"@);
    lemma_piece("</sub> = "@);
    lemma_count_concat("x<sub>"@, digits(i));
    lemma_count_concat("x<sub>"@ + digits(i), "</sub> = "@);
}

/// The head of a control holds the one marker of the control.
proof fn lemma_control_head(i: nat, label: Seq<char>, open: Seq<char>)
    requires
        count_marks(label) == 0,
        count_marks(open) == 0,
        opens_clear(open),
        closes_clear(open),
    ensures
        count_marks(control_head(i, label, open)) == 1,
        opens_clear(control_head(i, label, open)),
        closes_clear(control_head(i, label, open)),
{
    reveal_strlit("<label for=\"input-");
    reveal_strlit("\"><i>");
    reveal_strlit("</i></label>");
    reveal_strlit(" id=\"input-");
    reveal_strlit("\" name=\"x");
    let d = digits(i);
    lemma_digits_clear(i);
    lemma_count_marker();
    let p0 = "<label for=\"input-"@;
    lemma_piece(p0);
    lemma_piece("\"><i>"@);
    lemma_piece("</i></label>"@);
    lemma_piece(" id=\"input-"@);
    lemma_piece("\" name=\"x"@);
    let a1 = p0 + d;
    lemma_count_concat(p0, d);
    lemma_closes_concat(p0, d);
    let a2 = a1 + "\"><i>"@;
    lemma_count_concat(a1, "\"><i>"@);
    lemma_closes_concat(a1, "\"><i>"@);
    let a3 = a2 + label;
    lemma_count_concat(a2, label);
    let a4 = a3 + "</i></label>"@;
    lemma_count_concat(a3, "</i></label>"@);
    let a5 = a4 + open;
    lemma_count_concat(a4, open);
    lemma_closes_concat(a4, open);
    let a6 = a5 + marker();
    lemma_count_concat(a5, marker());
    let a7 = a6 + " id=\"input-"@;
    lemma_count_concat(a6, " id=\"input-"@);
    let a8 = a7 + d;
    lemma_count_concat(a7, d);
    lemma_closes_concat(a7, d);
    let a9 = a8 + "\" name=\"x"@;
    lemma_count_concat(a8, "\" name=\"x"@);
    lemma_closes_concat(a8, "\" name=\"x"@);
    let a10 = a9 + d;
    lemma_count_concat(a9, d);
    lemma_closes_concat(a9, d);
    assert(control_head(i, label, open) =~= a10);
    let rest = d + "\"><i>"@ + label + "</i></label>"@ + open + marker() + " id=\"input-"@ + d
        + "\" name=\"x"@ + d;
    assert(a10 =~= p0 + rest);
    lemma_opens_concat(p0, rest);
}

proof fn lemma_option_clear(o: Decimal, selected: bool)
    ensures
        count_marks(option_markup(o, selected)) == 0,
        opens_clear(option_markup(o, selected)),
{
    reveal_strlit("<option selected value=\"");
    reveal_strlit("<option value=\"");
    reveal_strlit("\">");
    reveal_strlit("</option>");
    let t = text_of(o);
    lemma_decimal_clear(o);
    let k = if selected {
        "<option selected value=\""@
    } else {
        "<option value=\""@
    };
    lemma_piece(k);
    lemma_piece("\">"@);
    lemma_piece("</option>"@);
    lemma_count_concat(k, t);
    lemma_count_concat(k + t, "\">"@);
    lemma_closes_concat(k + t, "\">"@);
    lemma_count_concat(k + t + "\">"@, t);
    lemma_count_concat(k + t + "\">"@ + t, "</option>"@);
    lemma_opens_concat(k, t + "\">"@ + t + "</option>"@);
    assert(option_markup(o, selected) =~= k + (t + "\">"@ + t + "</option>"@));
}

proof fn lemma_options_clear(options: Seq<Decimal>, selected: int)
    ensures
        count_marks(options_markup(options, selected)) == 0,
        options.len() > 0 ==> opens_clear(options_markup(options, selected)),
    decreases options.len(),
{
    if options.len() > 0 {
        let rest = options_markup(options.drop_last(), selected);
        let last = option_markup(options.last(), options.len() - 1 == selected);
        lemma_options_clear(options.drop_last(), selected);
        lemma_option_clear(options.last(), options.len() - 1 == selected);
        lemma_count_concat(rest, last);
        if options.len() > 1 {
            lemma_opens_concat(rest, last);
        } else {
            assert(rest =~= Seq::<char>::empty());
            assert(rest + last =~= last);
        }
    }
}

/// Each input's markup holds exactly one marker, and starts clear.
pub proof fn lemma_input_one_mark(input: Input, i: nat)
    requires
        input.label_spec() is Some ==> count_marks(input.label_spec()->Some_0@) == 0,
    ensures
        count_marks(input_markup(input, i)) == 1,
        opens_clear(input_markup(input, i)),
{
    lemma_default_labels(i);
    reveal_strlit("\" value=\"");
    reveal_strlit("\">");
    lemma_piece("\" value=\""@);
    lemma_piece("\">"@);
    match input {
        Input::Number { label, initial_value } => {
            let open = "<input type=\"text\" class=\"form-control "@;
            reveal_strlit("<input type=\"text\" class=\"form-control ");
            lemma_piece(open);
            let ch = control_head(i, label_or(label, number_default(i)), open);
            lemma_control_head(i, label_or(label, number_default(i)), open);
            let t = text_of(initial_value);
            lemma_decimal_clear(initial_value);
            lemma_count_concat(ch, "\" value=\""@);
            lemma_count_concat(ch + "\" value=\""@, t);
            lemma_count_concat(ch + "\" value=\""@ + t, "\">"@);
            lemma_closes_concat(ch + "\" value=\""@, t);
            lemma_opens_concat(ch, "\" value=\""@ + t + "\">"@);
            assert(input_markup(input, i) =~= ch + ("\" value=\""@ + t + "\">"@));
        },
        Input::Slider { label, min, max, step, initial_value } => {
            lemma_slider_one_mark(i, initial_value, max, min, step, label);
        },
        Input::Dropdown { label, options, initial_value } => {
            let open = "<select class=\"form-control "@;
            reveal_strlit("<select class=\"form-control ");
            reveal_strlit("</select>");
            lemma_piece(open);
            lemma_piece("</select>"@);
            let ch = control_head(i, label_or(label, variable_default(i)), open);
            lemma_control_head(i, label_or(label, variable_default(i)), open);
            let om = options_markup(options@, initial_value as int);
            lemma_options_clear(options@, initial_value as int);
            lemma_count_concat(ch, "\">"@);
            lemma_closes_concat(ch, "\">"@);
            lemma_count_concat(ch + "\">"@, om);
            lemma_count_concat(ch + "\">"@ + om, "</select>"@);
            lemma_opens_concat(ch, "\">"@ + om + "</select>"@);
            assert(input_markup(input, i) =~= ch + ("\">"@ + om + "</select>"@));
        },
    }
}

proof fn lemma_slider_one_mark(
    i: nat,
    v: Decimal,
    max: Decimal,
    min: Decimal,
    step: Decimal,
    label: Option<String>,
)
    requires
        label is Some ==> count_marks(label->Some_0@) == 0,
    ensures
        count_marks(slider_markup(i, v, max, min, step, label)) == 1,
        opens_clear(slider_markup(i, v, max, min, step, label)),
{
    lemma_default_labels(i);
    let open = "<div class=\"slider\"><input type=\"range\" class=\"form-control "@;
    let mirror = "\" oninput=\"this.nextElementSibling.value = this.value\"><input type=\"text\" class=\"form-control\" value=\""@;
    reveal_strlit("<div class=\"slider\"><input type=\"range\" class=\"form-control ");
    reveal_strlit("\" oninput=\"this.nextElementSibling.value = this.value\"><input type=\"text\" class=\"form-control\" value=\"");
    reveal_strlit("\" min=\"");
    reveal_strlit("\" max=\"");
    reveal_strlit("\" step=\"");
    reveal_strlit("\" value=\"");
    reveal_strlit("\" readonly></div>");
    lemma_piece(open);
    lemma_piece(mirror);
    lemma_piece("\" min=\""@);
    lemma_piece("\" max=\""@);
    lemma_piece("\" step=\""@);
    lemma_piece("\" value=\""@);
    lemma_piece("\" readonly></div>"@);
    lemma_decimal_clear(v);
    lemma_decimal_clear(max);
    lemma_decimal_clear(min);
    lemma_decimal_clear(step);
    let ch = control_head(i, label_or(label, variable_default(i)), open);
    lemma_control_head(i, label_or(label, variable_default(i)), open);
    let b1 = ch + "\" min=\""@;
    lemma_count_concat(ch, "\" min=\""@);
    let b2 = b1 + text_of(min);
    lemma_count_concat(b1, text_of(min));
    lemma_closes_concat(b1, text_of(min));
    let b3 = b2 + "\" max=\""@;
    lemma_count_concat(b2, "\" max=\""@);
    let b4 = b3 + text_of(max);
    lemma_count_concat(b3, text_of(max));
    lemma_closes_concat(b3, text_of(max));
    let b5 = b4 + "\" step=\""@;
    lemma_count_concat(b4, "\" step=\""@);
    let b6 = b5 + text_of(step);
    lemma_count_concat(b5, text_of(step));
    lemma_closes_concat(b5, text_of(step));
    let b7 = b6 + "\" value=\""@;
    lemma_count_concat(b6, "\" value=\""@);
    let b8 = b7 + text_of(v);
    lemma_count_concat(b7, text_of(v));
    lemma_closes_concat(b7, text_of(v));
    let b9 = b8 + mirror;
    lemma_count_concat(b8, mirror);
    let b10 = b9 + text_of(v);
    lemma_count_concat(b9, text_of(v));
    lemma_closes_concat(b9, text_of(v));
    let b11 = b10 + "\" readonly></div>"@;
    lemma_count_concat(b10, "\" readonly></div>"@);
    assert(slider_markup(i, v, max, min, step, label) =~= b11);
    let rest = "\" min=\""@ + text_of(min) + "\" max=\""@ + text_of(max) + "\" step=\""@ + text_of(step)
        + "\" value=\""@ + text_of(v) + mirror + text_of(v) + "\" readonly></div>"@;
    assert(b11 =~= ch + rest);
    lemma_opens_concat(ch, rest);
}

proof fn lemma_inputs_marks(inputs: Seq<Input>)
    requires
        forall|i: int|
            0 <= i < inputs.len() && (#[trigger] inputs[i]).label_spec() is Some ==> count_marks(
                inputs[i].label_spec()->Some_0@,
            ) == 0,
    ensures
        count_marks(inputs_markup(inputs)) == inputs.len(),
        inputs.len() > 0 ==> opens_clear(inputs_markup(inputs)),
    decreases inputs.len(),
{
    if inputs.len() > 0 {
        let rest = inputs.drop_last();
        assert forall|i: int|
            0 <= i < rest.len() && (#[trigger] rest[i]).label_spec() is Some implies count_marks(
            rest[i].label_spec()->Some_0@,
        ) == 0 by {
            assert(rest[i] == inputs[i]);
        }
        lemma_inputs_marks(rest);
        let n = (inputs.len() - 1) as nat;
        assert(inputs.last() == inputs[n as int]);
        lemma_input_one_mark(inputs.last(), n);
        lemma_count_concat(inputs_markup(rest), input_markup(inputs.last(), n));
        if rest.len() > 0 {
            lemma_opens_concat(inputs_markup(rest), input_markup(inputs.last(), n));
        } else {
            assert(inputs_markup(rest) + input_markup(inputs.last(), n) =~= input_markup(inputs.last(), n));
        }
    }
}

proof fn lemma_frame_clear(title: Seq<char>, description: Seq<char>, output: Output)
    requires
        count_marks(title) == 0,
        count_marks(description) == 0,
        output.label_spec() is Some ==> count_marks(output.label_spec()->Some_0@) == 0,
    ensures
        count_marks(beginning_markup(title, description)) == 0,
        closes_clear(beginning_markup(title, description)),
        count_marks(middle_markup()) == 0,
        opens_clear(middle_markup()),
        count_marks(output_markup(output)) == 0,
        opens_clear(output_markup(output)),
        count_marks(end_markup()) == 0,
        opens_clear(end_markup()),
{
    let q1 = "<!DOCTYPE html><html lang=\"en\"><head><meta charset=\"utf-8\"><title>"@;
    let q2 = "</title><style>"@;
    let q3 = "</style><script>"@;
    let q4 = "</script></head><body><div class=\"container\"><h1>"@;
    let q5 = "</h1><p class=\"description\">"@;
    let q6 = "</p><div class=\"row\"><div class=\"col\"><form action=\"#\" onsubmit=\"return submitValues()\">"@;
    reveal_strlit("<!DOCTYPE html><html lang=\"en\"><head><meta charset=\"utf-8\"><title>");
    reveal_strlit("</title><style>");
    reveal_strlit("</style><script>");
    reveal_strlit("</script></head><body><div class=\"container\"><h1>");
    reveal_strlit("</h1><p class=\"description\">");
    reveal_strlit("</p><div class=\"row\"><div class=\"col\"><form action=\"#\" onsubmit=\"return submitValues()\">");
    reveal_strlit("body { font-family: sans-serif; margin: 2em; } .row { display: flex; gap: 2em; } .col { flex: 1; padding: 1em; background: #f4f4f4; } label { display: block; margin-top: 1em; } .form-control { width: 100%; box-sizing: border-box; padding: 0.3em; } .slider { display: flex; gap: 1em; } .btn { margin-top: 1em; }");
    reveal_strlit("function submitValues() { var values = []; var controls = document.getElementsByClassName('tease_input'); for (var k = 0; k < controls.length; k++) { values.push(Number(controls[k].value)); } window.ipc.postMessage(values.join(',')); return false; }");
    reveal_strlit("<button type=\"submit\" class=\"btn\">Submit</button></form></div><div class=\"col\">");
    reveal_strlit("</div></div></div></body></html>");
    reveal_strlit("<label for=\"output\"><i>");
    reveal_strlit("Result");
    reveal_strlit("</i></label><input type=\"text\" class=\"form-control\" id=\"output\" name=\"output\" readonly>");
    lemma_piece(q1);
    lemma_piece(q2);
    lemma_piece(q3);
    lemma_piece(q4);
    lemma_piece(q5);
    lemma_piece(q6);
    lemma_piece(style_text());
    lemma_piece(script_text());
    lemma_piece(middle_markup());
    lemma_piece(end_markup());
    let c1 = q1 + title;
    lemma_count_concat(q1, title);
    let c2 = c1 + q2;
    lemma_count_concat(c1, q2);
    lemma_closes_concat(c1, q2);
    let c3 = c2 + style_text();
    lemma_count_concat(c2, style_text());
    let c4 = c3 + q3;
    lemma_count_concat(c3, q3);
    lemma_closes_concat(c3, q3);
    let c5 = c4 + script_text();
    lemma_count_concat(c4, script_text());
    let c6 = c5 + q4;
    lemma_count_concat(c5, q4);
    lemma_closes_concat(c5, q4);
    let c7 = c6 + title;
    lemma_count_concat(c6, title);
    let c8 = c7 + q5;
    lemma_count_concat(c7, q5);
    lemma_closes_concat(c7, q5);
    let c9 = c8 + description;
    lemma_count_concat(c8, description);
    let c10 = c9 + q6;
    lemma_count_concat(c9, q6);
    lemma_closes_concat(c9, q6);
    assert(beginning_markup(title, description) =~= c10);
    let o1 = "<label for=\"output\"><i>"@;
    let o2 = "</i></label><input type=\"text\" class=\"form-control\" id=\"output\" name=\"output\" readonly>"@;
    lemma_piece(o1);
    lemma_piece(o2);
    lemma_piece("Result"@);
    let l = label_or(output.label_spec(), "Result"@);
    lemma_count_concat(o1, l);
    lemma_count_concat(o1 + l, o2);
    lemma_opens_concat(o1, l + o2);
    assert(output_markup(output) =~= o1 + (l + o2));
}

/// The document has exactly one marked control per input, in schema order: the first `k` markers
/// of the document lie in the opening and the markup of the first `k` inputs, the input at
/// position `k` holding the `k`th. This holds where the texts the author supplies (title,
/// description, labels) do not themselves hold the marker.
pub proof fn lemma_one_control_per_input(
    title: Seq<char>,
    description: Seq<char>,
    inputs: Seq<Input>,
    output: Output,
)
    requires
        count_marks(title) == 0,
        count_marks(description) == 0,
        forall|i: int|
            0 <= i < inputs.len() && (#[trigger] inputs[i]).label_spec() is Some ==> count_marks(
                inputs[i].label_spec()->Some_0@,
            ) == 0,
        output.label_spec() is Some ==> count_marks(output.label_spec()->Some_0@) == 0,
    ensures
        count_marks(document(title, description, inputs, output)) == inputs.len(),
        forall|k: int|
            0 <= k <= inputs.len() ==> count_marks(
                #[trigger] (beginning_markup(title, description) + inputs_markup(inputs.take(k))),
            ) == k,
        forall|i: int| 0 <= i < inputs.len() ==> count_marks(#[trigger] input_markup(inputs[i], i as nat)) == 1,
{
    lemma_frame_clear(title, description, output);
    let b = beginning_markup(title, description);
    assert forall|k: int| 0 <= k <= inputs.len() implies count_marks(
        #[trigger] (b + inputs_markup(inputs.take(k))),
    ) == k by {
        let t = inputs.take(k);
        assert forall|i: int|
            0 <= i < t.len() && (#[trigger] t[i]).label_spec() is Some implies count_marks(
            t[i].label_spec()->Some_0@,
        ) == 0 by {
            assert(t[i] == inputs[i]);
        }
        lemma_inputs_marks(t);
        lemma_count_concat(b, inputs_markup(t));
    }
    assert forall|i: int| 0 <= i < inputs.len() implies count_marks(#[trigger] input_markup(inputs[i], i as nat)) == 1 by {
        lemma_input_one_mark(inputs[i], i as nat);
    }
    assert(inputs.take(inputs.len() as int) =~= inputs);
    let im = inputs_markup(inputs);
    lemma_inputs_marks(inputs);
    lemma_count_concat(b, im);
    lemma_count_concat(b + im, middle_markup());
    lemma_count_concat(b + im + middle_markup(), output_markup(output));
    lemma_count_concat(b + im + middle_markup() + output_markup(output), end_markup());
}

} // verus!
