//! How transactions and data become bytes.

use vstd::prelude::*;

verus! {

/// Turns values into bytes and back. What comes out need not be a function of the value: a
/// hash map may be written in any order.
pub trait Serializer<T> {
    /// What a serializer complains with.
    type Error;

    /// May the value be encoded with this outcome? Unless an implementation says more, any
    /// outcome may be.
    open spec fn encodes(&self, value: T, outcome: Result<Seq<u8>, Self::Error>) -> bool {
        true
    }

    /// May decoding a value from the front of `bytes` have this outcome, and leave the bytes
    /// `left` unread? `Ok(None)` says that there is no value any more. Unless an implementation
    /// says more, any outcome may be.
    open spec fn decodes(&self, bytes: Seq<u8>, outcome: Result<Option<T>, Self::Error>, left: Seq<u8>) -> bool {
        true
    }

    /// Encodes a value.
    fn serialize(&self, value: &T) -> (outcome: Result<Vec<u8>, Self::Error>)
        ensures
            self.encodes(*value, viewed(outcome)),
    ;

    /// Decodes a value from the front of `reader`, which then starts behind what was read.
    /// `Ok(None)` says that there is no value any more. A value is read from one byte or more.
    fn deserialize(&self, reader: &mut &[u8]) -> (outcome: Result<Option<T>, Self::Error>)
        ensures
            self.decodes((*old(reader))@, outcome, (*final(reader))@),
            outcome matches Ok(Some(_)) ==> (*final(reader))@.len() < (*old(reader))@.len(),
    ;
}

/// Bytes, if there are any, as contracts see them.
pub open spec fn viewed<E>(outcome: Result<Vec<u8>, E>) -> Result<Seq<u8>, E> {
    match outcome {
        Ok(bytes) => Ok(bytes@),
        Err(error) => Err(error),
    }
}

/// `serde_json::Error`, which is handed through to the caller. Nothing is claimed of it.
#[verifier::external_type_specification]
#[verifier::external_body]
pub struct ExJsonError(serde_json::Error);

/// Why no value came out of JSON text.
#[derive(Debug)]
pub struct JsonFailure {
    /// The parser's own error.
    pub error: serde_json::Error,
    /// Did the parser run into the end of the text?
    pub is_eof: bool,
    /// The column in which the parser stopped, counted from the last newline.
    pub column: usize,
}

/// `serde_json::to_vec`: the value as JSON text, or an error if its `Serialize` impl or a key
/// that is no string leads to one. Which text comes out is up to that impl and not always
/// determined by the value, so nothing more is claimed than that contracts can speak of what
/// a call returned, through [is_json_of].
#[verifier::external_body]
fn to_json<D: serde::Serialize>(value: &D) -> (text: Result<Vec<u8>, serde_json::Error>) {
    serde_json::to_vec(value)
}

/// May a call of `serde_json::to_vec` on `value` return `text`?
pub closed spec fn is_json_of<D: serde::Serialize>(value: &D, text: Result<Vec<u8>, serde_json::Error>) -> bool {
    call_ensures(to_json::<D>, (value,), text)
}

/// `Deserialize::deserialize` on a `serde_json::Deserializer::from_reader` over `bytes`: the
/// optional value at the front of the text, or the error together with its `is_eof()` and
/// `column()`; and how many bytes the parser left in the reader, which are no more than there
/// were. What the parser makes of the text is up to the `Deserialize` impl, so nothing more is
/// claimed than that contracts can speak of what a call returned, through [is_json_reading].
#[verifier::external_body]
fn from_json<D: for<'a> serde::Deserialize<'a>>(bytes: &[u8]) -> (reading: (
    Result<Option<D>, JsonFailure>,
    usize,
))
    ensures
        reading.1 <= bytes@.len(),
{
    let mut rest = bytes;
    let mut deserializer = serde_json::Deserializer::from_reader(&mut rest);
    let value = serde::de::Deserialize::deserialize(&mut deserializer);
    let value = value.map_err(|error: serde_json::Error| JsonFailure {
        is_eof: error.is_eof(),
        column: error.column(),
        error,
    });
    (value, rest.len())
}

/// May the JSON parser, on `bytes`, return `value` and leave `left` bytes in the reader?
pub closed spec fn is_json_reading<D: for<'a> serde::Deserialize<'a>>(
    bytes: &[u8],
    value: Result<Option<D>, JsonFailure>,
    left: usize,
) -> bool {
    call_ensures(from_json::<D>, (bytes,), (value, left))
}

/// May reading a JSON value from the front of `bytes` have this outcome, and leave the bytes
/// `rest` unread?
pub open spec fn json_read<D: for<'a> serde::Deserialize<'a>>(
    bytes: &[u8],
    outcome: Result<Option<D>, serde_json::Error>,
    rest: Seq<u8>,
) -> bool {
    exists|value: Result<Option<D>, JsonFailure>, left: usize| #[trigger]
        is_json_reading(bytes, value, left) && left <= bytes@.len() && rest == bytes@.skip(
            bytes@.len() - left,
        ) && outcome == spec_or_end(value)
}

/// `serde::de::Error::custom` for `serde_json::Error`, on a fixed text. Nothing is claimed of the
/// error that it makes.
#[verifier::external_body]
fn nothing_read() -> (error: serde_json::Error) {
    serde::de::Error::custom("a value was read from no text")
}

/// Serializes to JSON, one value per line.
#[derive(Debug, Clone, Copy)]
pub struct JsonSerializer;

/// JSON text with the newline that separates values.
pub open spec fn spec_as_line<E>(text: Result<Seq<u8>, E>) -> Result<Seq<u8>, E> {
    match text {
        Ok(bytes) => Ok(bytes.push(10)),
        Err(error) => Err(error),
    }
}

/// What a parser's outcome means: text that ends where a line ends is no error but the end of
/// the values.
pub open spec fn spec_or_end<D>(value: Result<Option<D>, JsonFailure>) -> Result<Option<D>, serde_json::Error> {
    match value {
        Ok(value) => Ok(value),
        Err(failure) => if failure.is_eof && failure.column == 0 {
            Ok(None)
        } else {
            Err(failure.error)
        },
    }
}

/// Did the outcome come from `value`, of which `left` bytes out of `length` were left unread? A
/// value that was read from no byte at all is an error.
pub open spec fn is_progress<D, E>(
    value: Result<Option<D>, E>,
    length: nat,
    left: nat,
    outcome: Result<Option<D>, E>,
) -> bool {
    if value matches Ok(Some(_)) && left >= length {
        outcome is Err
    } else {
        outcome == value
    }
}

/// May reading a JSON value from the front of `bytes`, from one byte or more, have this outcome,
/// and leave the bytes `rest` unread?
pub open spec fn json_read_on<D: for<'a> serde::Deserialize<'a>>(
    bytes: &[u8],
    outcome: Result<Option<D>, serde_json::Error>,
    rest: Seq<u8>,
) -> bool {
    exists|value: Result<Option<D>, serde_json::Error>| #[trigger]
        json_read(bytes, value, rest) && is_progress(value, bytes@.len(), rest.len(), outcome)
}

impl JsonSerializer {
    /// Ends JSON text with a newline, to separate it from the next one for human readers.
    pub fn as_line<E>(text: Result<Vec<u8>, E>) -> (line: Result<Vec<u8>, E>)
        ensures
            viewed(line) == spec_as_line(viewed(text)),
    {
        match text {
            Ok(bytes) => {
                let mut bytes = bytes;
                bytes.push(10);
                Ok(bytes)
            },
            Err(error) => Err(error),
        }
    }

    /// Tells the end of the values from an error: the text is at its end, and nothing stands
    /// behind the last newline.
    pub fn or_end<D>(value: Result<Option<D>, JsonFailure>) -> (outcome: Result<Option<D>, serde_json::Error>)
        ensures
            outcome == spec_or_end(value),
    {
        match value {
            Ok(value) => Ok(value),
            Err(failure) => if failure.is_eof && failure.column == 0 {
                Ok(None)
            } else {
                Err(failure.error)
            },
        }
    }

    /// Encodes a value as a line of JSON.
    pub fn serialize<D: serde::Serialize>(&self, value: &D) -> (outcome: Result<Vec<u8>, serde_json::Error>)
        ensures
            exists|text: Result<Vec<u8>, serde_json::Error>| #[trigger]
                is_json_of(value, text) && viewed(outcome) == spec_as_line(viewed(text)),
    {
        let text = to_json(value);
        assert(is_json_of(value, text));
        Self::as_line(text)
    }

    /// Decodes the JSON value at the front of `reader`, which then starts behind what the
    /// parser read. `Ok(None)` for the value `null` and at the end of the lines.
    pub fn deserialize<D: for<'a> serde::Deserialize<'a>>(&self, reader: &mut &[u8]) -> (outcome: Result<
        Option<D>,
        serde_json::Error,
    >)
        ensures
            json_read(*old(reader), outcome, (*final(reader))@),
    {
        let bytes: &[u8] = *reader;
        let (value, left) = from_json::<D>(bytes);
        assert(is_json_reading(bytes, value, left));
        let length = bytes.len();
        *reader = vstd::slice::slice_subrange(bytes, length - left, length);
        Self::or_end(value)
    }

    /// Refuses a value that was read from no text: `left` bytes out of `length` were left unread.
    pub fn or_stuck<D>(value: Result<Option<D>, serde_json::Error>, length: usize, left: usize) -> (outcome: Result<
        Option<D>,
        serde_json::Error,
    >)
        ensures
            is_progress(value, length as nat, left as nat, outcome),
    {
        match value {
            Ok(Some(_)) if left >= length => Err(nothing_read()),
            value => value,
        }
    }

    /// Decodes the JSON value at the front of `reader`, as [JsonSerializer::deserialize] does, but
    /// only from one byte or more. So reading value after value comes to an end, whatever the
    /// `Deserialize` impl does.
    pub fn deserialize_next<D: for<'a> serde::Deserialize<'a>>(&self, reader: &mut &[u8]) -> (outcome: Result<
        Option<D>,
        serde_json::Error,
    >)
        ensures
            json_read_on(*old(reader), outcome, (*final(reader))@),
            outcome matches Ok(Some(_)) ==> (*final(reader))@.len() < (*old(reader))@.len(),
    {
        let length = reader.len();
        let value = self.deserialize::<D>(reader);
        let left = reader.len();
        Self::or_stuck(value, length, left)
    }
}

/// May `line` be what the JSON serializer encodes the value as: the text of the value, and a
/// newline behind it?
pub open spec fn is_json_line<D: serde::Serialize>(value: &D, line: Seq<u8>) -> bool {
    exists|text: Vec<u8>| #[trigger]
        is_json_of(value, Ok::<Vec<u8>, serde_json::Error>(text)) && line == text@ + seq![10u8]
}

/// What may stand before a value: nothing, or the newline of the value before, if the parser did
/// not read it.
pub open spec fn is_gap(bytes: Seq<u8>) -> bool {
    bytes.len() == 0 || bytes == seq![10u8]
}

/// Is nothing but a gap left before `rest`?
pub open spec fn is_left(left: Seq<u8>, rest: Seq<u8>) -> bool {
    exists|gap: Seq<u8>| #[trigger] is_gap(gap) && left == gap + rest
}

/// Does the JSON parser give back the value from its text, with a newline and whatever else
/// behind it, and read no further than that newline? So it does for a type whose `Serialize` and
/// `Deserialize` impls fit, and a value whose text is not `null`.
pub open spec fn is_lossless<D: serde::Serialize + for<'a> serde::Deserialize<'a>>(value: D) -> bool {
    forall|
        bytes: &[u8],
        gap: Seq<u8>,
        text: Vec<u8>,
        rest: Seq<u8>,
        reading: Result<Option<D>, JsonFailure>,
        left: usize,
    |
        #![trigger is_json_of(&value, Ok::<Vec<u8>, serde_json::Error>(text)), is_json_reading(
            bytes,
            reading,
            left,
        ), gap + (text@ + seq![10u8]) + rest]
        is_json_of(&value, Ok::<Vec<u8>, serde_json::Error>(text)) && is_gap(gap) && bytes@ == gap + (text@
            + seq![10u8]) + rest && is_json_reading(bytes, reading, left) ==> reading == Ok::<
            Option<D>,
            JsonFailure,
        >(Some(value)) && is_left(bytes@.skip(bytes@.len() - left), rest)
}

/// Does the JSON parser run into the end of the text, right behind the last newline, where no
/// value is left?
pub open spec fn ends_at_gaps<D: for<'a> serde::Deserialize<'a>>() -> bool {
    forall|bytes: &[u8], reading: Result<Option<D>, JsonFailure>, left: usize|
        is_gap(bytes@) && #[trigger] is_json_reading(bytes, reading, left) ==> (reading matches Err(failure)
            && failure.is_eof && failure.column == 0)
}

/// Do readings of a JSON value, one after the other, go this way? Each starts where the one before
/// stopped.
pub open spec fn is_json_run<D: for<'a> serde::Deserialize<'a>>(
    readers: Seq<&[u8]>,
    outcomes: Seq<Result<Option<D>, serde_json::Error>>,
) -> bool {
    &&& readers.len() == outcomes.len() + 1
    &&& forall|i: int| 0 <= i < outcomes.len() ==> json_read(readers[i], #[trigger] outcomes[i], readers[i + 1]@)
}

/// Do readings of a JSON value from one byte or more, one after the other, go this way?
pub open spec fn is_json_run_on<D: for<'a> serde::Deserialize<'a>>(
    readers: Seq<&[u8]>,
    outcomes: Seq<Result<Option<D>, serde_json::Error>>,
) -> bool {
    &&& readers.len() == outcomes.len() + 1
    &&& forall|i: int| 0 <= i < outcomes.len() ==> json_read_on(readers[i], #[trigger] outcomes[i], readers[i + 1]@)
}

/// A value that stands at the front of the text, as a line, comes back; what is left is what
/// stands behind it.
pub proof fn json_values_come_back<D: serde::Serialize + for<'a> serde::Deserialize<'a>>(
    value: D,
    line: Seq<u8>,
    gap: Seq<u8>,
    rest: Seq<u8>,
    reader: &[u8],
    outcome: Result<Option<D>, serde_json::Error>,
    left: Seq<u8>,
)
    requires
        is_lossless(value),
        is_json_line(&value, line),
        is_gap(gap),
        reader@ == gap + line + rest,
        json_read(reader, outcome, left),
    ensures
        outcome == Ok::<Option<D>, serde_json::Error>(Some(value)),
        is_left(left, rest),
{
    let text = choose|text: Vec<u8>| #[trigger]
        is_json_of(&value, Ok::<Vec<u8>, serde_json::Error>(text)) && line == text@ + seq![10u8];
    let (reading, count) = choose|reading: Result<Option<D>, JsonFailure>, count: usize| #[trigger]
        is_json_reading(reader, reading, count) && count <= reader@.len() && left == reader@.skip(
            reader@.len() - count,
        ) && outcome == spec_or_end(reading);
    assert(reader@ == gap + (text@ + seq![10u8]) + rest);
}

/// The same of reading from one byte or more: a value whose line holds more than the newline, of
/// whatever length, comes back.
pub proof fn json_values_come_back_next<D: serde::Serialize + for<'a> serde::Deserialize<'a>>(
    value: D,
    line: Seq<u8>,
    gap: Seq<u8>,
    rest: Seq<u8>,
    reader: &[u8],
    outcome: Result<Option<D>, serde_json::Error>,
    left: Seq<u8>,
)
    requires
        is_lossless(value),
        is_json_line(&value, line),
        line.len() > 1,
        is_gap(gap),
        reader@ == gap + line + rest,
        json_read_on(reader, outcome, left),
    ensures
        outcome == Ok::<Option<D>, serde_json::Error>(Some(value)),
        is_left(left, rest),
{
    let inner = choose|inner: Result<Option<D>, serde_json::Error>| #[trigger]
        json_read(reader, inner, left) && is_progress(inner, reader@.len(), left.len(), outcome);
    json_values_come_back(value, line, gap, rest, reader, inner, left);
}

/// Where nothing but a gap is left, there is no value any more, be it one that takes a byte or
/// more.
pub proof fn json_ends_at_gaps<D: for<'a> serde::Deserialize<'a>>(
    reader: &[u8],
    outcome: Result<Option<D>, serde_json::Error>,
    left: Seq<u8>,
)
    requires
        ends_at_gaps::<D>(),
        is_gap(reader@),
    ensures
        json_read(reader, outcome, left) ==> outcome == Ok::<Option<D>, serde_json::Error>(None),
        json_read_on(reader, outcome, left) ==> outcome == Ok::<Option<D>, serde_json::Error>(None),
{
    assert forall|inner: Result<Option<D>, serde_json::Error>| #[trigger]
        json_read(reader, inner, left) implies inner == Ok::<Option<D>, serde_json::Error>(None) by {
        let (reading, count) = choose|reading: Result<Option<D>, JsonFailure>, count: usize| #[trigger]
            is_json_reading(reader, reading, count) && count <= reader@.len() && left == reader@.skip(
                reader@.len() - count,
            ) && inner == spec_or_end(reading);
        assert(is_json_reading(reader, reading, count));
    }
    if json_read_on(reader, outcome, left) {
        let inner = choose|inner: Result<Option<D>, serde_json::Error>| #[trigger]
            json_read(reader, inner, left) && is_progress(inner, reader@.len(), left.len(), outcome);
        assert(json_read(reader, inner, left));
    }
}

/// Values that were written as lines, one after the other, are read back one after the other, and
/// then there are none any more.
pub proof fn json_lines_come_back<D: serde::Serialize + for<'a> serde::Deserialize<'a>>(
    values: Seq<D>,
    lines: Seq<Seq<u8>>,
    gap: Seq<u8>,
    readers: Seq<&[u8]>,
    outcomes: Seq<Result<Option<D>, serde_json::Error>>,
)
    requires
        forall|i: int| 0 <= i < values.len() ==> is_lossless(#[trigger] values[i]),
        ends_at_gaps::<D>(),
        lines.len() == values.len(),
        forall|i: int| 0 <= i < values.len() ==> is_json_line(&#[trigger] values[i], lines[i]),
        is_gap(gap),
        is_json_run(readers, outcomes),
        outcomes.len() == values.len() + 1,
        readers[0]@ == gap + lines.flatten(),
    ensures
        forall|i: int|
            0 <= i < values.len() ==> #[trigger] outcomes[i] == Ok::<Option<D>, serde_json::Error>(Some(values[i])),
        outcomes.last() == Ok::<Option<D>, serde_json::Error>(None),
    decreases values.len(),
{
    assert(json_read(readers[0], outcomes[0], readers[1]@));
    if values.len() == 0 {
        assert(gap + lines.flatten() =~= gap);
        json_ends_at_gaps(readers[0], outcomes[0], readers[1]@);
    } else {
        let rest = lines.drop_first().flatten();
        assert(gap + lines.flatten() =~= gap + lines[0] + rest);
        json_values_come_back(values[0], lines[0], gap, rest, readers[0], outcomes[0], readers[1]@);
        let next = choose|next: Seq<u8>| #[trigger] is_gap(next) && readers[1]@ == next + rest;
        let later = values.drop_first();
        assert forall|i: int| 0 <= i < later.len() implies is_lossless(#[trigger] later[i]) && is_json_line(
            &later[i],
            lines.drop_first()[i],
        ) by {
            assert(is_lossless(values[i + 1]));
            assert(is_json_line(&values[i + 1], lines[i + 1]));
        }
        assert forall|i: int| 0 <= i < outcomes.drop_first().len() implies json_read(
            readers.drop_first()[i],
            #[trigger] outcomes.drop_first()[i],
            readers.drop_first()[i + 1]@,
        ) by {
            assert(json_read(readers[i + 1], outcomes[i + 1], readers[i + 2]@));
        }
        json_lines_come_back(later, lines.drop_first(), next, readers.drop_first(), outcomes.drop_first());
        assert forall|i: int| 0 <= i < values.len() implies #[trigger] outcomes[i] == Ok::<
            Option<D>,
            serde_json::Error,
        >(Some(values[i])) by {
            if i > 0 {
                assert(outcomes.drop_first()[i - 1] == Ok::<Option<D>, serde_json::Error>(Some(later[i - 1])));
            }
        }
    }
}

/// The same of reading from one byte or more: values whose lines hold more than the newline, of
/// whatever length, are read back one after the other, and there is none any more only behind the
/// last.
pub proof fn json_lines_come_back_next<D: serde::Serialize + for<'a> serde::Deserialize<'a>>(
    values: Seq<D>,
    lines: Seq<Seq<u8>>,
    gap: Seq<u8>,
    readers: Seq<&[u8]>,
    outcomes: Seq<Result<Option<D>, serde_json::Error>>,
)
    requires
        forall|i: int| 0 <= i < values.len() ==> is_lossless(#[trigger] values[i]),
        ends_at_gaps::<D>(),
        lines.len() == values.len(),
        forall|i: int|
            0 <= i < values.len() ==> is_json_line(&#[trigger] values[i], lines[i]) && lines[i].len() > 1,
        is_gap(gap),
        is_json_run_on(readers, outcomes),
        outcomes.len() == values.len() + 1,
        readers[0]@ == gap + lines.flatten(),
    ensures
        forall|i: int|
            0 <= i < values.len() ==> #[trigger] outcomes[i] == Ok::<Option<D>, serde_json::Error>(Some(values[i])),
        outcomes.last() == Ok::<Option<D>, serde_json::Error>(None),
    decreases values.len(),
{
    assert(json_read_on(readers[0], outcomes[0], readers[1]@));
    if values.len() == 0 {
        assert(gap + lines.flatten() =~= gap);
        json_ends_at_gaps(readers[0], outcomes[0], readers[1]@);
    } else {
        let rest = lines.drop_first().flatten();
        assert(gap + lines.flatten() =~= gap + lines[0] + rest);
        assert(is_json_line(&values[0], lines[0]));
        json_values_come_back_next(values[0], lines[0], gap, rest, readers[0], outcomes[0], readers[1]@);
        let next = choose|next: Seq<u8>| #[trigger] is_gap(next) && readers[1]@ == next + rest;
        let later = values.drop_first();
        assert forall|i: int| 0 <= i < later.len() implies is_lossless(#[trigger] later[i]) && is_json_line(
            &later[i],
            lines.drop_first()[i],
        ) && lines.drop_first()[i].len() > 1 by {
            assert(is_lossless(values[i + 1]));
            assert(is_json_line(&values[i + 1], lines[i + 1]));
        }
        assert forall|i: int| 0 <= i < outcomes.drop_first().len() implies json_read_on(
            readers.drop_first()[i],
            #[trigger] outcomes.drop_first()[i],
            readers.drop_first()[i + 1]@,
        ) by {
            assert(json_read_on(readers[i + 1], outcomes[i + 1], readers[i + 2]@));
        }
        json_lines_come_back_next(later, lines.drop_first(), next, readers.drop_first(), outcomes.drop_first());
        assert forall|i: int| 0 <= i < values.len() implies #[trigger] outcomes[i] == Ok::<
            Option<D>,
            serde_json::Error,
        >(Some(values[i])) by {
            if i > 0 {
                assert(outcomes.drop_first()[i - 1] == Ok::<Option<D>, serde_json::Error>(Some(later[i - 1])));
            }
        }
    }
}

/// What is written of a value is the very text that `serde_json` makes of it, and one newline; and
/// if it makes none, its error.
pub proof fn json_is_written_as_a_line<D: serde::Serialize>(
    value: &D,
    outcome: Result<Vec<u8>, serde_json::Error>,
)
    requires
        call_ensures(JsonSerializer::serialize::<D>, (&JsonSerializer, value), outcome),
    ensures
        match outcome {
            Ok(line) => is_json_line(value, line@) && exists|text: Vec<u8>| #[trigger]
                is_json_of(value, Ok::<Vec<u8>, serde_json::Error>(text)) && line@.len() == text@.len() + 1
                    && line@.take(text@.len() as int) == text@ && line@.last() == 10,
            Err(error) => is_json_of(value, Err::<Vec<u8>, serde_json::Error>(error)),
        },
{
    let text = choose|text: Result<Vec<u8>, serde_json::Error>| #[trigger]
        is_json_of(value, text) && viewed(outcome) == spec_as_line(viewed(text));
    if let (Ok(line), Ok(text)) = (outcome, text) {
        assert(line@ =~= text@ + seq![10u8]);
        assert(line@.take(text@.len() as int) =~= text@);
    }
}

/// Ending text with a newline keeps the text, whatever it is, and adds one byte; there is no other
/// way to get a line than from text, and no other way to an error than from that error.
pub proof fn a_line_is_the_text_and_a_newline<E>(text: Result<Vec<u8>, E>, line: Result<Vec<u8>, E>)
    requires
        call_ensures(JsonSerializer::as_line::<E>, (text,), line),
    ensures
        match (text, line) {
            (Ok(text), Ok(line)) => line@ == text@ + seq![10u8],
            (Err(error), Err(same)) => error == same,
            _ => false,
        },
{
    if let (Ok(text), Ok(line)) = (text, line) {
        assert(line@ =~= text@ + seq![10u8]);
    }
}

/// What was written is read back: the value comes out of the line that it was written as, and what
/// is left is what stands behind the line. So it is for both ways to read.
pub proof fn json_that_was_written_is_read<D: serde::Serialize + for<'a> serde::Deserialize<'a>>(
    value: D,
    line: Vec<u8>,
    gap: Seq<u8>,
    rest: Seq<u8>,
    reader: &[u8],
    outcome: Result<Option<D>, serde_json::Error>,
    left: &[u8],
)
    requires
        is_lossless(value),
        call_ensures(
            JsonSerializer::serialize::<D>,
            (&JsonSerializer, &value),
            Ok::<Vec<u8>, serde_json::Error>(line),
        ),
        line@.len() > 1,
        is_gap(gap),
        reader@ == gap + line@ + rest,
        (exists|slot: &mut &[u8]| #[trigger]
            call_ensures(JsonSerializer::deserialize::<D>, (&JsonSerializer, slot), outcome) && *slot == reader
                && *final(slot) == left) || (exists|slot: &mut &[u8]| #[trigger]
            call_ensures(JsonSerializer::deserialize_next::<D>, (&JsonSerializer, slot), outcome) && *slot == reader
                && *final(slot) == left),
    ensures
        outcome == Ok::<Option<D>, serde_json::Error>(Some(value)),
        is_left(left@, rest),
{
    json_is_written_as_a_line(&value, Ok(line));
    if json_read(reader, outcome, left@) {
        json_values_come_back(value, line@, gap, rest, reader, outcome, left@);
    } else {
        json_values_come_back_next(value, line@, gap, rest, reader, outcome, left@);
    }
}

/// Whatever the parser makes of the text, a value or none, is handed on, and so is its error; but
/// that the text ends behind a newline is no error: there are no more values then. What the parser
/// left is left.
pub proof fn json_readings_are_handed_on<D: for<'a> serde::Deserialize<'a>>(
    reader: &[u8],
    reading: Result<Option<D>, JsonFailure>,
    count: usize,
    outcome: Result<Option<D>, serde_json::Error>,
    left: &[u8],
)
    requires
        count <= reader@.len(),
        forall|other: Result<Option<D>, JsonFailure>, other_count: usize| #[trigger]
            is_json_reading(reader, other, other_count) ==> other == reading && other_count == count,
        exists|slot: &mut &[u8]| #[trigger]
            call_ensures(JsonSerializer::deserialize::<D>, (&JsonSerializer, slot), outcome) && *slot == reader
                && *final(slot) == left,
    ensures
        left@ == reader@.skip(reader@.len() - count),
        match reading {
            Ok(value) => outcome == Ok::<Option<D>, serde_json::Error>(value),
            Err(failure) => if failure.is_eof && failure.column == 0 {
                outcome == Ok::<Option<D>, serde_json::Error>(None)
            } else {
                outcome == Err::<Option<D>, serde_json::Error>(failure.error)
            },
        },
{
    assert(json_read(reader, outcome, left@));
}

/// Reading from one byte or more hands on the same, with one exception: a value that was read from
/// no byte at all is refused.
pub proof fn json_readings_are_handed_on_next<D: for<'a> serde::Deserialize<'a>>(
    reader: &[u8],
    reading: Result<Option<D>, JsonFailure>,
    count: usize,
    outcome: Result<Option<D>, serde_json::Error>,
    left: &[u8],
)
    requires
        count <= reader@.len(),
        forall|other: Result<Option<D>, JsonFailure>, other_count: usize| #[trigger]
            is_json_reading(reader, other, other_count) ==> other == reading && other_count == count,
        exists|slot: &mut &[u8]| #[trigger]
            call_ensures(JsonSerializer::deserialize_next::<D>, (&JsonSerializer, slot), outcome) && *slot == reader
                && *final(slot) == left,
    ensures
        left@ == reader@.skip(reader@.len() - count),
        match reading {
            Ok(Some(value)) => if count < reader@.len() {
                outcome == Ok::<Option<D>, serde_json::Error>(Some(value))
            } else {
                outcome is Err
            },
            Ok(None) => outcome == Ok::<Option<D>, serde_json::Error>(None),
            Err(failure) => if failure.is_eof && failure.column == 0 {
                outcome == Ok::<Option<D>, serde_json::Error>(None)
            } else {
                outcome == Err::<Option<D>, serde_json::Error>(failure.error)
            },
        },
{
    assert(json_read_on(reader, outcome, left@));
}

/// The two ways to judge an outcome, for every value, length and error.
pub proof fn json_outcomes_are_judged_by_the_end_and_by_progress<D>(
    reading: Result<Option<D>, JsonFailure>,
    ended: Result<Option<D>, serde_json::Error>,
    length: usize,
    left: usize,
    outcome: Result<Option<D>, serde_json::Error>,
)
    requires
        call_ensures(JsonSerializer::or_end::<D>, (reading,), ended),
        call_ensures(JsonSerializer::or_stuck::<D>, (ended, length, left), outcome),
    ensures
        match reading {
            Ok(value) => ended == Ok::<Option<D>, serde_json::Error>(value),
            Err(failure) => if failure.is_eof && failure.column == 0 {
                ended == Ok::<Option<D>, serde_json::Error>(None)
            } else {
                ended == Err::<Option<D>, serde_json::Error>(failure.error)
            },
        },
        match ended {
            Ok(Some(_)) => if left < length {
                outcome == ended
            } else {
                outcome is Err
            },
            _ => outcome == ended,
        },
{
}

} // verus!
