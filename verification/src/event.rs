//! The key event record.

use crate::codec::{
    decode, encode, field_count_message, is_valid, lemma_decode_accepts, repeat_message,
};
use crate::fields::{cut, extract, fields, scan, word};
use crate::hex::{all_digits, append_numeral, from_numeral, value};
use vstd::prelude::*;

verus! {

/// One report of the receiver: which key, on which device, and how many times
/// the report has been repeated since the key went down.
#[derive(Debug, Clone, PartialEq, Eq)]
pub struct Event {
    /// Key-code identifier.
    pub id: String,
    /// Repeat counter; `0` marks a fresh press.
    pub repeat: u32,
    /// Key name.
    pub name: String,
    /// Source device.
    pub device: String,
}

/// The mathematical value of an [`Event`].
pub struct EventView {
    pub id: Seq<char>,
    pub repeat: u32,
    pub name: Seq<char>,
    pub device: Seq<char>,
}

impl View for Event {
    type V = EventView;

    open spec fn view(&self) -> EventView {
        EventView { id: self.id@, repeat: self.repeat, name: self.name@, device: self.device@ }
    }
}

/// The suffix that marks the name of a held key.
pub open spec fn hold_suffix() -> Seq<char> {
    seq!['_', 'H', 'O', 'L', 'D']
}

impl EventView {
    /// The event that reports a short press of this key: the counter is reset,
    /// everything else is kept.
    pub open spec fn to_new(self) -> EventView {
        EventView { repeat: 0, ..self }
    }

    /// The event that reports that this key is being held: the counter is
    /// reset and the name carries the hold suffix.
    pub open spec fn to_hold(self) -> EventView {
        EventView { repeat: 0, name: self.name + hold_suffix(), ..self }
    }
}

impl Event {
    /// Reads an event from a line of the wire format.
    ///
    /// The line must have exactly four fields between whitespace, and the
    /// second must be the counter in hexadecimal: digits only, without sign
    /// or prefix, and no more than `u32::MAX`.  Otherwise the result is a
    /// message that says what is wrong with the line.
    pub fn from_str(line: &str) -> (r: Result<Event, String>)
        ensures
            match r {
                Ok(e) => decode(line@) == Ok::<_, Seq<char>>(e@),
                Err(m) => decode(line@) == Err::<EventView, _>(m@),
            },
            r is Ok <==> fields(line@).len() == 4 && all_digits(fields(line@)[1]) && value(
                fields(line@)[1],
            ) <= u32::MAX,
            r is Ok ==> r->Ok_0@ == (EventView {
                id: fields(line@)[0],
                repeat: value(fields(line@)[1]) as u32,
                name: fields(line@)[2],
                device: fields(line@)[3],
            }),
    {
        proof {
            lemma_decode_accepts(line@);
        }
        let spans = scan(line);
        assert(cut(line@, spans@).len() == spans@.len());
        if spans.len() != 4 {
            let mut m = "'".to_owned();
            m.append(line);
            m.append("' is not of len 4");
            assert(m@ =~= field_count_message(line@));
            return Err(m);
        }
        let ghost f = fields(line@);
        assert(f[0] == cut(line@, spans@)[0]);
        assert(f[1] == cut(line@, spans@)[1]);
        assert(f[2] == cut(line@, spans@)[2]);
        assert(f[3] == cut(line@, spans@)[3]);
        let repeat = extract(line, &spans[1]);
        match from_numeral(repeat.as_str()) {
            Ok(n) => Ok(
                Event {
                    id: extract(line, &spans[0]),
                    repeat: n,
                    name: extract(line, &spans[2]),
                    device: extract(line, &spans[3]),
                },
            ),
            Err(why) => {
                let mut m = "can't parse '".to_owned();
                m.append(repeat.as_str());
                m.append("': ");
                m.append(why.message());
                assert(m@ =~= repeat_message(f[1], why));
                Err(m)
            },
        }
    }

    /// Tells whether the event survives the wire: whether each of its texts
    /// is a word.
    pub fn is_valid(&self) -> (b: bool)
        ensures
            b == is_valid(self@),
    {
        word(self.id.as_str()) && word(self.name.as_str()) && word(self.device.as_str())
    }

    /// Writes the event as a line of the wire format, without line end.
    pub fn to_str(&self) -> (line: String)
        ensures
            line@ == encode(self@),
    {
        proof {
            reveal_strlit(" ");
        }
        let mut line = self.id.clone();
        line.append(" ");
        append_numeral(self.repeat, &mut line);
        line.append(" ");
        line.append(self.name.as_str());
        line.append(" ");
        line.append(self.device.as_str());
        assert(" "@ =~= seq![' ']);
        assert(line@ =~= encode(self@));
        line
    }

    /// Classifies this report as a held key.
    pub fn to_hold(&self) -> (held: Event)
        ensures
            held@ == self@.to_hold(),
    {
        proof {
            reveal_strlit("_HOLD");
            assert("_HOLD"@ =~= hold_suffix());
        }
        let mut name = self.name.clone();
        name.append("_HOLD");
        Event { id: self.id.clone(), repeat: 0, name, device: self.device.clone() }
    }

    /// Classifies this report as a short press.
    pub fn to_new(&self) -> (fresh: Event)
        ensures
            fresh@ == self@.to_new(),
    {
        Event { id: self.id.clone(), repeat: 0, name: self.name.clone(), device: self.device.clone() }
    }
}

} // verus!
