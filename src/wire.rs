//! The submission message: one field per input, in schema order, separated by commas.
use vstd::prelude::*;
use crate::text::{is_digit, chars_of, push_char, push_chars, lemma_digits_round_trip, digits, zeros};
use crate::decimal::{Decimal, text_of};
use crate::numeral::{NumberError, read_spec, read_chars, lemma_read_text};
use crate::fixed::{fixed_text, to_fixed};
use crate::schema::Output;

verus! {

/// Why a submission does not decode.
#[derive(Clone, Copy, Debug, PartialEq, Eq, Structural)]
pub enum DecodeError {
    /// The message has `found` fields where the schema has `expected` inputs.
    WrongCount { expected: usize, found: usize },
    /// The field at `index` is not a number that a `Decimal` holds.
    BadField { index: usize, error: NumberError },
}

/// `s` cut at each comma; a string without comma is one field.
pub open spec fn split_commas(s: Seq<char>) -> Seq<Seq<char>>
    decreases s.len(),
{
    if s.len() == 0 {
        seq![Seq::<char>::empty()]
    } else {
        let p = split_commas(s.drop_last());
        if s.last() == ',' {
            p.push(Seq::<char>::empty())
        } else {
            p.update(p.len() - 1, p.last().push(s.last()))
        }
    }
}

/// The fields of a message: none for the empty message, else the pieces between commas.
pub open spec fn fields(s: Seq<char>) -> Seq<Seq<char>> {
    if s.len() == 0 {
        Seq::empty()
    } else {
        split_commas(s)
    }
}

/// The index of the first field at or after `from` that does not read as a number, `fs.len()`
/// if all do.
pub open spec fn first_bad(fs: Seq<Seq<char>>, from: int) -> int
    decreases fs.len() - from,
{
    if from < 0 || from >= fs.len() {
        fs.len() as int
    } else if read_spec(fs[from]) is Err {
        from
    } else {
        first_bad(fs, from + 1)
    }
}

/// What decoding the message `s` against `count` inputs gives.
pub open spec fn decode_spec(s: Seq<char>, count: nat) -> Result<Seq<Decimal>, DecodeError> {
    let fs = fields(s);
    let b = first_bad(fs, 0);
    if fs.len() != count {
        Err(DecodeError::WrongCount { expected: count as usize, found: fs.len() as usize })
    } else if b < fs.len() {
        Err(DecodeError::BadField { index: b as usize, error: read_spec(fs[b])->Err_0 })
    } else {
        Ok(Seq::new(fs.len(), |i: int| read_spec(fs[i])->Ok_0))
    }
}

/// The texts `ts` with a comma between each two.
pub open spec fn join_fields(ts: Seq<Seq<char>>) -> Seq<char>
    decreases ts.len(),
{
    if ts.len() == 0 {
        Seq::empty()
    } else if ts.len() == 1 {
        ts[0]
    } else {
        join_fields(ts.drop_last()) + seq![','] + ts.last()
    }
}

/// The canonical texts of `values`.
pub open spec fn texts(values: Seq<Decimal>) -> Seq<Seq<char>> {
    values.map_values(|d: Decimal| text_of(d))
}

/// The message that carries `values`.
pub open spec fn submission_of(values: Seq<Decimal>) -> Seq<char> {
    join_fields(texts(values))
}

pub open spec fn all_wf(values: Seq<Decimal>) -> bool {
    forall|i: int| 0 <= i < values.len() ==> (#[trigger] values[i]).wf()
}

proof fn lemma_split_nonempty(s: Seq<char>)
    ensures
        split_commas(s).len() >= 1,
    decreases s.len(),
{
    if s.len() > 0 {
        lemma_split_nonempty(s.drop_last());
    }
}

/// Splits a message into its fields.
fn split_message(v: &Vec<char>) -> (r: Vec<Vec<char>>)
    ensures
        r.len() == fields(v@).len(),
        forall|i: int| 0 <= i < r.len() ==> (#[trigger] r[i])@ == fields(v@)[i],
{
    let mut out: Vec<Vec<char>> = Vec::new();
    if v.len() == 0 {
        return out;
    }
    let mut cur: Vec<char> = Vec::new();
    let mut j: usize = 0;
    assert(v@.take(0) =~= Seq::<char>::empty());
    while j < v.len()
        invariant
            0 <= j <= v.len(),
            out.len() + 1 == split_commas(v@.take(j as int)).len(),
            forall|i: int| 0 <= i < out.len() ==> (#[trigger] out[i])@ == split_commas(
                v@.take(j as int),
            )[i],
            cur@ == split_commas(v@.take(j as int)).last(),
        decreases v.len() - j,
    {
        let ghost before = v@.take(j as int);
        proof {
            lemma_split_nonempty(before);
        }
        assert(v@.take(j + 1).drop_last() =~= before);
        assert(v@.take(j + 1).last() == v@[j as int]);
        if v[j] == ',' {
            out.push(cur);
            cur = Vec::new();
            assert(cur@ =~= Seq::<char>::empty());
        } else {
            cur.push(v[j]);
        }
        j = j + 1;
    }
    assert(v@.take(v.len() as int) =~= v@);
    out.push(cur);
    out
}

/// Decodes a submission against a schema of `count` inputs.
///
/// The message must have exactly `count` fields, each a number of the wire format; the first field
/// that is not is reported.
pub fn decode_submission(raw: &str, count: usize) -> (r: Result<Vec<Decimal>, DecodeError>)
    ensures
        r is Ok <==> decode_spec(raw@, count as nat) is Ok,
        r is Ok ==> r->Ok_0@ == decode_spec(raw@, count as nat)->Ok_0,
        r is Ok ==> all_wf(r->Ok_0@),
        r is Err ==> r->Err_0 == decode_spec(raw@, count as nat)->Err_0,
{
    let v = chars_of(raw);
    let fs = split_message(&v);
    let ghost sfs = fields(raw@);
    if fs.len() != count {
        return Err(DecodeError::WrongCount { expected: count, found: fs.len() });
    }
    let mut values: Vec<Decimal> = Vec::new();
    let mut i: usize = 0;
    while i < fs.len()
        invariant
            sfs == fields(raw@),
            0 <= i <= fs.len() == sfs.len() == count,
            forall|q: int| 0 <= q < fs.len() ==> (#[trigger] fs[q])@ == sfs[q],
            first_bad(sfs, 0) == first_bad(sfs, i as int),
            values.len() == i,
            forall|q: int|
                0 <= q < i ==> read_spec(sfs[q]) == Ok::<Decimal, NumberError>(#[trigger] values[q]),
            forall|q: int| 0 <= q < i ==> (#[trigger] values[q]).wf(),
        decreases fs.len() - i,
    {
        assert(fs[i as int]@ == sfs[i as int]);
        match read_chars(&fs[i]) {
            Ok(d) => {
                assert(first_bad(sfs, i as int) == first_bad(sfs, i + 1));
                values.push(d);
            },
            Err(e) => {
                assert(first_bad(sfs, i as int) == i);
                return Err(DecodeError::BadField { index: i, error: e });
            },
        }
        i = i + 1;
    }
    assert(values@ =~= decode_spec(raw@, count as nat)->Ok_0);
    Ok(values)
}

/// The message that carries `values`: their canonical texts joined by commas.
pub fn encode_submission(values: &Vec<Decimal>) -> (r: String)
    ensures
        r@ == submission_of(values@),
{
    let mut s = String::new();
    let mut i: usize = 0;
    while i < values.len()
        invariant
            0 <= i <= values.len(),
            s@ == join_fields(texts(values@.take(i as int))),
        decreases values.len() - i,
    {
        let ghost ts = texts(values@.take(i + 1));
        assert(ts.drop_last() =~= texts(values@.take(i as int)));
        if i > 0 {
            push_char(&mut s, ',');
        }
        let t = values[i].to_text();
        let tv = chars_of(t.as_str());
        push_chars(&mut s, &tv, 0, tv.len());
        assert(tv@.subrange(0, tv@.len() as int) =~= tv@);
        if i == 0 {
            assert(s@ =~= join_fields(ts));
        }
        i = i + 1;
    }
    assert(values@.take(values.len() as int) =~= values@);
    s
}

/// The text the output field shows for `value`: fixed point, with the output's number of decimal
/// places.
pub fn encode_result(value: &Decimal, output: &Output) -> (r: String)
    ensures
        r@ == fixed_text(*value, output.precision_spec() as nat),
{
    to_fixed(value, output.get_precision())
}

/// The command that puts `shown` into the output field.
pub open spec fn show_command(shown: Seq<char>) -> Seq<char> {
    "document.getElementById('output').value = \""@ + shown + "\";"@
}

/// The command that puts `shown` into the output field.
pub fn show_result_command(shown: &str) -> (r: String)
    ensures
        r@ == show_command(shown@),
{
    let mut s = String::new();
    s.append("document.getElementById('output').value = \"");
    s.append(shown);
    s.append("\";");
    assert(s@ =~= show_command(shown@));
    s
}

/// Every character of a canonical text is a digit, `-` or `.`, and there is at least one.
pub proof fn lemma_text_chars(d: Decimal)
    ensures
        text_of(d).len() >= 1,
        forall|i: int|
            0 <= i < text_of(d).len() ==> is_digit(#[trigger] text_of(d)[i]) || text_of(d)[i]
                == '-' || text_of(d)[i] == '.',
{
    let ds = digits(d.coefficient as nat);
    lemma_digits_round_trip(d.coefficient as nat);
    let t = text_of(d);
    let sign = if d.negative {
        seq!['-']
    } else {
        Seq::<char>::empty()
    };
    if d.exponent >= 0 {
        let z = zeros(d.exponent as nat);
        assert forall|i: int| 0 <= i < t.len() implies is_digit(#[trigger] t[i]) || t[i] == '-'
            || t[i] == '.' by {
            if i >= sign.len() + ds.len() {
                assert(t[i] == z[i - sign.len() - ds.len()]);
            } else if i >= sign.len() {
                assert(t[i] == ds[i - sign.len()]);
            }
        }
    } else {
        let k = -d.exponent;
        if ds.len() > k {
            let hi = ds.take(ds.len() - k);
            let lo = ds.skip(ds.len() - k);
            assert forall|i: int| 0 <= i < t.len() implies is_digit(#[trigger] t[i]) || t[i]
                == '-' || t[i] == '.' by {
                if i > sign.len() + hi.len() {
                    assert(t[i] == ds[i - sign.len() - 1]);
                } else if i >= sign.len() && i < sign.len() + hi.len() {
                    assert(t[i] == ds[i - sign.len()]);
                }
            }
        } else {
            let z = zeros((k - ds.len()) as nat);
            assert forall|i: int| 0 <= i < t.len() implies is_digit(#[trigger] t[i]) || t[i]
                == '-' || t[i] == '.' by {
                if i >= sign.len() + 2 + z.len() {
                    assert(t[i] == ds[i - sign.len() - 2 - z.len()]);
                } else if i >= sign.len() + 2 {
                    assert(t[i] == z[i - sign.len() - 2]);
                }
            }
        }
    }
}

proof fn lemma_split_append_plain(a: Seq<char>, t: Seq<char>)
    requires
        forall|i: int| 0 <= i < t.len() ==> t[i] != ',',
    ensures
        split_commas(a + t) == split_commas(a).update(
            split_commas(a).len() - 1,
            split_commas(a).last() + t,
        ),
    decreases t.len(),
{
    lemma_split_nonempty(a);
    if t.len() == 0 {
        assert(a + t =~= a);
        assert(split_commas(a).last() + t =~= split_commas(a).last());
        assert(split_commas(a).update(split_commas(a).len() - 1, split_commas(a).last())
            =~= split_commas(a));
    } else {
        let t1 = t.drop_last();
        lemma_split_append_plain(a, t1);
        assert((a + t).drop_last() =~= a + t1);
        assert((a + t).last() == t.last());
        assert(t1.push(t.last()) =~= t);
        let p = split_commas(a);
        assert((p.last() + t1).push(t.last()) =~= p.last() + t);
        assert(split_commas(a + t) =~= p.update(p.len() - 1, p.last() + t));
    }
}

proof fn lemma_split_join(ts: Seq<Seq<char>>)
    requires
        ts.len() >= 1,
        forall|j: int, i: int| 0 <= j < ts.len() && 0 <= i < ts[j].len() ==> #[trigger] ts[j][i] != ',',
    ensures
        split_commas(join_fields(ts)) == ts,
    decreases ts.len(),
{
    if ts.len() == 1 {
        lemma_split_append_plain(Seq::<char>::empty(), ts[0]);
        assert(Seq::<char>::empty() + ts[0] =~= ts[0]);
        assert(Seq::<char>::empty() + ts[0] =~= ts[0]);
        assert(split_commas(Seq::<char>::empty()).update(0, Seq::<char>::empty() + ts[0]) =~= ts);
    } else {
        let t1 = ts.drop_last();
        lemma_split_join(t1);
        let a = join_fields(t1) + seq![','];
        assert(a.drop_last() =~= join_fields(t1));
        assert(split_commas(a) == t1.push(Seq::<char>::empty()));
        lemma_split_append_plain(a, ts.last());
        assert(Seq::<char>::empty() + ts.last() =~= ts.last());
        assert(t1.push(Seq::<char>::empty()).update(t1.len() as int, ts.last()) =~= ts);
    }
}

proof fn lemma_join_nonempty(ts: Seq<Seq<char>>)
    requires
        ts.len() >= 1,
        ts[0].len() >= 1,
    ensures
        join_fields(ts).len() >= 1,
    decreases ts.len(),
{
    if ts.len() > 1 {
        lemma_join_nonempty(ts.drop_last());
    }
}

/// Decoding the message that carries well-formed values gives those values back.
pub proof fn lemma_submission_round_trip(values: Seq<Decimal>)
    requires
        all_wf(values),
    ensures
        decode_spec(submission_of(values), values.len()) == Ok::<Seq<Decimal>, DecodeError>(
            values,
        ),
{
    let ts = texts(values);
    let s = submission_of(values);
    assert forall|j: int, i: int| 0 <= j < ts.len() && 0 <= i < ts[j].len() implies #[trigger] ts[j][i]
        != ',' by {
        lemma_text_chars(values[j]);
    }
    if values.len() > 0 {
        lemma_text_chars(values[0]);
        lemma_join_nonempty(ts);
        lemma_split_join(ts);
    }
    assert(fields(s) =~= ts);
    assert forall|i: int| 0 <= i < values.len() implies read_spec(ts[i]) == Ok::<
        Decimal,
        NumberError,
    >(values[i]) by {
        lemma_read_text(values[i]);
    }
    lemma_first_bad_none(ts, 0);
    assert(decode_spec(s, values.len())->Ok_0 =~= values);
}

proof fn lemma_first_bad_none(fs: Seq<Seq<char>>, from: int)
    requires
        0 <= from <= fs.len(),
        forall|i: int| from <= i < fs.len() ==> read_spec(#[trigger] fs[i]) is Ok,
    ensures
        first_bad(fs, from) == fs.len(),
    decreases fs.len() - from,
{
    if from < fs.len() {
        lemma_first_bad_none(fs, from + 1);
    }
}

} // verus!
