//! Names of notes: pitch class (sharps only) and, optionally, the octave.
use vstd::prelude::*;

verus! {

/// Pitch class of a note number: its value modulo 12.
pub open spec fn pitch_class(n: int) -> int {
    n % 12
}

/// Octave of a note number, with middle C (60) in octave 4.
pub open spec fn octave_of(n: int) -> int {
    n / 12 - 1
}

/// The name of a pitch class in the chromatic scale starting at C, spelled
/// with sharps.
pub open spec fn pitch_class_name(pc: int) -> Seq<char> {
    if pc == 0 {
        seq!['C']
    } else if pc == 1 {
        seq!['C', '#']
    } else if pc == 2 {
        seq!['D']
    } else if pc == 3 {
        seq!['D', '#']
    } else if pc == 4 {
        seq!['E']
    } else if pc == 5 {
        seq!['F']
    } else if pc == 6 {
        seq!['F', '#']
    } else if pc == 7 {
        seq!['G']
    } else if pc == 8 {
        seq!['G', '#']
    } else if pc == 9 {
        seq!['A']
    } else if pc == 10 {
        seq!['A', '#']
    } else {
        seq!['B']
    }
}

/// The character of a decimal digit.
pub open spec fn digit_char(d: nat) -> char {
    if d == 0 {
        '0'
    } else if d == 1 {
        '1'
    } else if d == 2 {
        '2'
    } else if d == 3 {
        '3'
    } else if d == 4 {
        '4'
    } else if d == 5 {
        '5'
    } else if d == 6 {
        '6'
    } else if d == 7 {
        '7'
    } else if d == 8 {
        '8'
    } else {
        '9'
    }
}

/// The decimal representation of a natural number, without leading zeros.
pub open spec fn decimal(n: nat) -> Seq<char>
    decreases n,
{
    if n < 10 {
        seq![digit_char(n)]
    } else {
        decimal(n / 10) + seq![digit_char(n % 10)]
    }
}

/// The name of a note: its pitch-class name, followed by its octave in
/// decimal when `include_octave` is set.
pub open spec fn note_name(n: int, include_octave: bool) -> Seq<char> {
    if include_octave {
        pitch_class_name(pitch_class(n)) + decimal(octave_of(n) as nat)
    } else {
        pitch_class_name(pitch_class(n))
    }
}

/// Why a note number cannot be named.
#[derive(Debug, Clone, Copy, PartialEq, Eq, Structural)]
pub enum PitchError {
    /// The note lies outside 0..=127, or lies below 12 while an octave
    /// was asked for (its octave would be negative).
    OutOfRange,
}

/// Whether `n` can be named: a note in 0..=127, and at least 12 when the
/// octave is to be printed.
pub open spec fn nameable(n: int, include_octave: bool) -> bool {
    0 <= n <= 127 && (include_octave ==> n >= 12)
}

/// The name of a pitch class, as a static string.
fn pitch_class_str(pc: u8) -> (r: &'static str)
    requires
        pc < 12,
    ensures
        r@ == pitch_class_name(pc as int),
{
    if pc == 0 {
        proof { reveal_strlit("C"); }
        "C"
    } else if pc == 1 {
        proof { reveal_strlit("C#"); }
        "C#"
    } else if pc == 2 {
        proof { reveal_strlit("D"); }
        "D"
    } else if pc == 3 {
        proof { reveal_strlit("D#"); }
        "D#"
    } else if pc == 4 {
        proof { reveal_strlit("E"); }
        "E"
    } else if pc == 5 {
        proof { reveal_strlit("F"); }
        "F"
    } else if pc == 6 {
        proof { reveal_strlit("F#"); }
        "F#"
    } else if pc == 7 {
        proof { reveal_strlit("G"); }
        "G"
    } else if pc == 8 {
        proof { reveal_strlit("G#"); }
        "G#"
    } else if pc == 9 {
        proof { reveal_strlit("A"); }
        "A"
    } else if pc == 10 {
        proof { reveal_strlit("A#"); }
        "A#"
    } else {
        proof { reveal_strlit("B"); }
        "B"
    }
}

/// A decimal digit, as a static string.
fn digit_str(d: u8) -> (r: &'static str)
    requires
        d < 10,
    ensures
        r@ == seq![digit_char(d as nat)],
{
    if d == 0 {
        proof { reveal_strlit("0"); }
        "0"
    } else if d == 1 {
        proof { reveal_strlit("1"); }
        "1"
    } else if d == 2 {
        proof { reveal_strlit("2"); }
        "2"
    } else if d == 3 {
        proof { reveal_strlit("3"); }
        "3"
    } else if d == 4 {
        proof { reveal_strlit("4"); }
        "4"
    } else if d == 5 {
        proof { reveal_strlit("5"); }
        "5"
    } else if d == 6 {
        proof { reveal_strlit("6"); }
        "6"
    } else if d == 7 {
        proof { reveal_strlit("7"); }
        "7"
    } else if d == 8 {
        proof { reveal_strlit("8"); }
        "8"
    } else {
        proof { reveal_strlit("9"); }
        "9"
    }
}

/// Names the note `midi_num`: "C", "C#", ..., "B" by its pitch class, and
/// with `include_octave` the octave appended ("C4" for 60).
///
/// The octave of a note below 12 would be negative, so such a note is named
/// without octave only.
pub fn note(midi_num: u8, include_octave: bool) -> (r: String)
    requires
        include_octave ==> midi_num >= 12,
    ensures
        r@ == note_name(midi_num as int, include_octave),
{
    let mut name = String::from_str(pitch_class_str(midi_num % 12));
    if include_octave {
        let octave: u8 = midi_num / 12 - 1;
        proof {
            reveal_with_fuel(decimal, 2);
        }
        if octave >= 10 {
            name.append(digit_str(octave / 10));
        }
        name.append(digit_str(octave % 10));
        assert(name@ == note_name(midi_num as int, include_octave));
    }
    name
}

/// Names the note `midi_num` as [`note`] does, or reports that it is out of
/// range: above 127, or below 12 when the octave is asked for.
pub fn try_note(midi_num: u8, include_octave: bool) -> (r: Result<String, PitchError>)
    ensures
        r is Ok <==> nameable(midi_num as int, include_octave),
        r matches Ok(s) ==> s@ == note_name(midi_num as int, include_octave),
        r matches Err(e) ==> e == PitchError::OutOfRange,
{
    if midi_num > 127 || (include_octave && midi_num < 12) {
        Err(PitchError::OutOfRange)
    } else {
        Ok(note(midi_num, include_octave))
    }
}

/// Pitch-class names repeat every 12 notes: a note and the note an octave
/// above it have the same name when no octave is printed.
pub proof fn lemma_name_periodic(n: int)
    requires
        0 <= n,
        n + 12 <= 127,
    ensures
        note_name(n, false) == note_name(n + 12, false),
{
}

/// Raising a note by 12 keeps its pitch-class name and raises the printed
/// octave by exactly one.
pub proof fn lemma_octave_step(n: int)
    requires
        12 <= n,
        n + 12 <= 127,
    ensures
        octave_of(n + 12) == octave_of(n) + 1,
        note_name(n, true) == pitch_class_name(pitch_class(n)) + decimal(octave_of(n) as nat),
        note_name(n + 12, true) == pitch_class_name(pitch_class(n)) + decimal(
            (octave_of(n) + 1) as nat,
        ),
{
}

} // verus!
