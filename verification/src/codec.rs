//! The wire format of an event: one line of four fields,
//! `<id> <repeat> <name> <device>`, the counter in hexadecimal.

use crate::event::EventView;
use crate::fields::{
    fields, is_whitespace, is_word, lemma_fields_append_word, lemma_fields_are_words,
    lemma_fields_push_whitespace,
};
use crate::hex::{
    all_digits, digit_value, lemma_numeral_digits, lemma_parse_accepts, lemma_parse_numeral,
    numeral, parse, value, HexError,
};
use vstd::prelude::*;

verus! {

/// Whether `e` can be written on one line and read back: each of its texts is
/// a word.
pub open spec fn is_valid(e: EventView) -> bool {
    is_word(e.id) && is_word(e.name) && is_word(e.device)
}

/// The line that stands for `e`: its four fields with one space between
/// them, the counter as a numeral.
pub open spec fn encode(e: EventView) -> Seq<char> {
    e.id + seq![' '] + numeral(e.repeat as nat) + seq![' '] + e.name + seq![' '] + e.device
}

/// What is said of a line that does not have four fields.
pub open spec fn field_count_message(line: Seq<char>) -> Seq<char> {
    "'"@ + line + "' is not of len 4"@
}

/// What is said of a line whose second field is no numeral.
pub open spec fn repeat_message(field: Seq<char>, why: HexError) -> Seq<char> {
    "can't parse '"@ + field + "': "@ + why.text()
}

/// The event that `line` stands for, or the message that says why it stands
/// for none.
pub open spec fn decode(line: Seq<char>) -> Result<EventView, Seq<char>> {
    let f = fields(line);
    if f.len() != 4 {
        Err(field_count_message(line))
    } else {
        match parse(f[1]) {
            Ok(repeat) => Ok(EventView { id: f[0], repeat, name: f[2], device: f[3] }),
            Err(why) => Err(repeat_message(f[1], why)),
        }
    }
}

/// The line as it travels: with a line feed at its end.
pub fn terminated(line: &str) -> (framed: String)
    ensures
        framed@ == line@.push('\n'),
{
    proof {
        reveal_strlit("\n");
    }
    let mut framed = line.to_owned();
    framed.append("\n");
    assert(framed@ =~= line@.push('\n'));
    framed
}

/// A line is accepted exactly when it has four fields and the second is
/// made of hexadecimal digits that stand for a number up to `u32::MAX`; the
/// event then holds the fields and that number.  Any other line is rejected:
/// a sign, a prefix or any other character that is no digit makes the second
/// field no numeral.
pub proof fn lemma_decode_accepts(line: Seq<char>)
    ensures
        decode(line) is Ok <==> fields(line).len() == 4 && all_digits(fields(line)[1]) && value(
            fields(line)[1],
        ) <= u32::MAX,
        decode(line) is Ok ==> decode(line)->Ok_0 == (EventView {
            id: fields(line)[0],
            repeat: value(fields(line)[1]) as u32,
            name: fields(line)[2],
            device: fields(line)[3],
        }),
        fields(line).len() != 4 ==> decode(line) == Err::<EventView, _>(field_count_message(line)),
        fields(line).len() == 4 && parse(fields(line)[1]) is Err ==> decode(line) == Err::<
            EventView,
            _,
        >(repeat_message(fields(line)[1], parse(fields(line)[1])->Err_0)),
{
    if fields(line).len() == 4 {
        lemma_fields_are_words(line);
        lemma_parse_accepts(fields(line)[1]);
    }
}

/// Whatever a line decodes to is a valid event.
pub proof fn lemma_decoded_is_valid(line: Seq<char>)
    requires
        decode(line) is Ok,
    ensures
        is_valid(decode(line)->Ok_0),
{
    lemma_fields_are_words(line);
}

/// The fields of an encoded event are its id, the numeral of its counter, its
/// name and its device.
pub proof fn lemma_fields_of_encoded(e: EventView)
    requires
        is_valid(e),
    ensures
        fields(encode(e)) == seq![e.id, numeral(e.repeat as nat), e.name, e.device],
{
    let n = numeral(e.repeat as nat);
    assert(is_word(n)) by {
        lemma_numeral_digits(e.repeat as nat);
        assert forall|i: int| 0 <= i < n.len() implies !is_whitespace(#[trigger] n[i]) by {
            assert(digit_value(n[i]) is Some);
        }
    }
    assert(is_whitespace(' '));
    let none = Seq::<char>::empty();
    let a = e.id;
    let b = a.push(' ') + n;
    let c = b.push(' ') + e.name;
    let d = c.push(' ') + e.device;
    assert(none + a =~= a);
    lemma_fields_append_word(none, a);
    lemma_fields_push_whitespace(a, ' ');
    lemma_fields_append_word(a.push(' '), n);
    lemma_fields_push_whitespace(b, ' ');
    lemma_fields_append_word(b.push(' '), e.name);
    lemma_fields_push_whitespace(c, ' ');
    lemma_fields_append_word(c.push(' '), e.device);
    assert(d =~= encode(e));
    assert(fields(d) =~= seq![e.id, n, e.name, e.device]);
}

/// Round trip: decoding the line of a valid event gives the event back.
pub proof fn lemma_decode_encode(e: EventView)
    requires
        is_valid(e),
    ensures
        decode(encode(e)) == Ok::<_, Seq<char>>(e),
{
    lemma_fields_of_encoded(e);
    lemma_parse_numeral(e.repeat);
}

/// The line end does not count: the line of a valid event decodes to the
/// event with or without the line feed behind it.
pub proof fn lemma_decode_terminated(e: EventView)
    requires
        is_valid(e),
    ensures
        decode(encode(e).push('\n')) == Ok::<_, Seq<char>>(e),
{
    lemma_fields_of_encoded(e);
    lemma_parse_numeral(e.repeat);
    assert(is_whitespace('\n'));
    lemma_fields_push_whitespace(encode(e), '\n');
}

} // verus!
