//! Rules of the two helper programs that stand at either end of the relay:
//! the printer, which reconnects to the output socket with growing pauses,
//! and the injector, which reads lines, drops the blank ones and plays the
//! others into the input socket.

use crate::codec::encode;
use crate::event::{Event, EventView};
use crate::fields::{extract, trim, trimmed};
use vstd::prelude::*;

verus! {

/// The longest pause between two attempts to connect, in milliseconds.
pub const LONGEST_PAUSE: u64 = 5000;

/// The pause between two reports of a played key sequence, in milliseconds.
pub const REPEAT_PAUSE: u64 = 80;

/// How many reports a played key sequence has.
pub const SEQUENCE_LENGTH: u32 = 10;

/// The pause, in milliseconds, after the attempt to connect has failed
/// `failures` times in a row: half a second and a tenth of a second times
/// the square of the count, but never more than [`LONGEST_PAUSE`].
pub open spec fn pause_after(failures: nat) -> nat {
    if 500 + failures * failures * 100 > LONGEST_PAUSE {
        LONGEST_PAUSE as nat
    } else {
        500 + failures * failures * 100
    }
}

/// The pause before the next attempt to connect.
pub fn reconnect_pause(failures: u64) -> (ms: u64)
    ensures
        ms == pause_after(failures as nat),
{
    if failures >= 7 {
        assert(failures * failures * 100 >= 4900) by (nonlinear_arith)
            requires
                failures >= 7,
        ;
        LONGEST_PAUSE
    } else {
        assert(failures * failures * 100 <= 3600) by (nonlinear_arith)
            requires
                failures <= 6,
        ;
        500 + failures * failures * 100
    }
}

/// What the injector makes of a line that it has read: the line without the
/// whitespace at its two ends, line end included, or nothing for a line that
/// is blank.
pub fn cleaned(line: &str) -> (r: Option<String>)
    ensures
        match r {
            Some(text) => text@ == trimmed(line@) && text@.len() > 0,
            None => trimmed(line@).len() == 0,
        },
{
    match trim(line) {
        Some(span) => Some(extract(line, &span)),
        None => None,
    }
}

/// The report of the played key with the counter at `repeat`.
pub open spec fn played(repeat: u32) -> EventView {
    EventView { id: "qwe"@, repeat, name: "KEY_UP"@, device: "device"@ }
}

/// The lines that the injector sends for one line of input: `s` stands for
/// one press of the played key, `a` for a press with its repeats, and
/// anything else is sent as it is.
pub open spec fn script(input: Seq<char>) -> Seq<Seq<char>> {
    if input == seq!['s'] {
        seq![encode(played(0))]
    } else if input == seq!['a'] {
        Seq::new(SEQUENCE_LENGTH as nat, |i: int| encode(played(i as u32)))
    } else {
        seq![input]
    }
}

/// The report of the played key with the counter at `repeat`.
pub fn played_event(repeat: u32) -> (e: Event)
    ensures
        e@ == played(repeat),
{
    Event {
        id: "qwe".to_owned(),
        repeat,
        name: "KEY_UP".to_owned(),
        device: "device".to_owned(),
    }
}

/// The lines to send for the line `input`, in order.  The injector waits
/// [`REPEAT_PAUSE`] between two of them.
pub fn expand(input: &str) -> (lines: Vec<String>)
    ensures
        lines@.len() == script(input@).len(),
        forall|i: int| 0 <= i < lines@.len() ==> (#[trigger] lines@[i])@ == script(input@)[i],
{
    let mut lines: Vec<String> = Vec::new();
    let single = input.unicode_len() == 1;
    if single && input.get_char(0) == 's' {
        assert(input@ =~= seq!['s']);
        lines.push(played_event(0).to_str());
    } else if single && input.get_char(0) == 'a' {
        assert(input@ =~= seq!['a']);
        let mut i: u32 = 0;
        while i < SEQUENCE_LENGTH
            invariant
                i <= SEQUENCE_LENGTH,
                lines@.len() == i,
                forall|k: int| 0 <= k < i ==> (#[trigger] lines@[k])@ == encode(played(k as u32)),
            decreases SEQUENCE_LENGTH - i,
        {
            lines.push(played_event(i).to_str());
            i = i + 1;
        }
    } else {
        assert(input@ != seq!['s'] && input@ != seq!['a']) by {
            if input@.len() == 1 {
                assert(input@[0] != 's' && input@[0] != 'a');
                assert(seq!['s'][0] == 's' && seq!['a'][0] == 'a');
            } else {
                assert(seq!['s'].len() == 1 && seq!['a'].len() == 1);
            }
        }
        lines.push(input.to_owned());
    }
    lines
}

} // verus!
