//! Chord matching: the interval shapes of known chords, and the lookup of a
//! held-note set among them.
use vstd::prelude::*;

use crate::pitch::{note, note_name};

verus! {

/// Number of entries in the chord table.
pub const CHORD_COUNT: usize = 29;

/// Entry `i` of the chord table: the quality suffix and the intervals, in
/// semitones above the lowest note, of one chord voicing.
///
/// Order matters: a lookup takes the first entry that fits, and the sparser
/// voicing of a quality comes before the fuller one.
pub open spec fn chord_entry(i: int) -> (Seq<char>, Seq<int>) {
    if i == 0 {
        // major
        ("M"@, seq![0, 4, 7])
    } else if i == 1 {
        // major seventh
        ("maj7"@, seq![0, 4, 11])
    } else if i == 2 {
        // major seventh
        ("maj7"@, seq![0, 4, 7, 11])
    } else if i == 3 {
        // major ninth
        ("maj9"@, seq![0, 4, 11, 14])
    } else if i == 4 {
        // major ninth
        ("maj9"@, seq![0, 4, 7, 11, 14])
    } else if i == 5 {
        // major eleventh
        ("maj11"@, seq![0, 4, 11, 17])
    } else if i == 6 {
        // major eleventh
        ("maj11"@, seq![0, 4, 7, 11, 14, 17])
    } else if i == 7 {
        // major sixth
        ("6"@, seq![0, 4, 9])
    } else if i == 8 {
        // major sixth
        ("6"@, seq![0, 4, 7, 9])
    } else if i == 9 {
        // dominant seventh
        ("7"@, seq![0, 4, 10])
    } else if i == 10 {
        // dominant seventh
        ("7"@, seq![0, 4, 7, 10])
    } else if i == 11 {
        // suspended fourth
        ("sus4"@, seq![0, 5])
    } else if i == 12 {
        // suspended fourth
        ("sus4"@, seq![0, 5, 7])
    } else if i == 13 {
        // suspended second
        ("sus2"@, seq![0, 2])
    } else if i == 14 {
        // suspended second
        ("sus2"@, seq![0, 2, 7])
    } else if i == 15 {
        // minor
        ("m"@, seq![0, 3, 7])
    } else if i == 16 {
        // minor seventh
        ("m7"@, seq![0, 3, 10])
    } else if i == 17 {
        // minor seventh
        ("m7"@, seq![0, 3, 7, 10])
    } else if i == 18 {
        // minor sixth
        ("m6"@, seq![0, 3, 8])
    } else if i == 19 {
        // minor sixth
        ("m6"@, seq![0, 3, 7, 8])
    } else if i == 20 {
        // minor ninth
        ("m9"@, seq![0, 3, 10, 14])
    } else if i == 21 {
        // minor ninth
        ("m9"@, seq![0, 3, 7, 10, 14])
    } else if i == 22 {
        // diminished
        ("dim"@, seq![0, 3, 6])
    } else if i == 23 {
        // diminished seventh
        ("dim7"@, seq![0, 3, 6, 9])
    } else if i == 24 {
        // half-diminished seventh
        ("m7b5"@, seq![0, 3, 6, 10])
    } else if i == 25 {
        // power chord
        ("5"@, seq![0, 7])
    } else if i == 26 {
        // augmented
        ("aug"@, seq![0, 4, 8])
    } else if i == 27 {
        // augmented seventh
        ("aug7"@, seq![0, 4, 8, 10])
    } else {
        // augmented major seventh
        ("maj7#5"@, seq![0, 4, 8, 11])
    }
}

/// The whole chord table, in lookup order.
pub open spec fn chord_table() -> Seq<(Seq<char>, Seq<int>)> {
    Seq::new(CHORD_COUNT as nat, |i: int| chord_entry(i))
}

/// An interval shape as the table holds it: starts at 0, strictly ascending.
pub open spec fn is_shape(s: Seq<int>) -> bool {
    &&& s.len() > 0
    &&& s[0] == 0
    &&& forall|j: int, k: int| 0 <= j < k < s.len() ==> s[j] < s[k]
}

/// Notes in ascending order (each no lower than the one before).
pub open spec fn ascending(notes: Seq<u8>) -> bool {
    forall|j: int, k: int| 0 <= j <= k < notes.len() ==> notes[j] <= notes[k]
}

/// A valid input of the matcher: at least one note, in ascending order.
pub open spec fn chord_input(notes: Seq<u8>) -> bool {
    notes.len() > 0 && ascending(notes)
}

/// The intervals of held notes above the lowest (first) of them.
pub open spec fn intervals_of(notes: Seq<u8>) -> Seq<int> {
    notes.map_values(|n: u8| n - notes[0])
}

/// The first table entry, at index `i` or later, whose shape is exactly `d`.
pub open spec fn first_match(d: Seq<int>, i: nat) -> Option<nat>
    decreases CHORD_COUNT - i,
{
    if i >= CHORD_COUNT {
        None
    } else if chord_entry(i as int).1 == d {
        Some(i)
    } else {
        first_match(d, i + 1)
    }
}

/// The label of the chord that ascending `notes` form: the pitch-class name
/// of the lowest note followed by the suffix of the first table entry whose
/// shape equals the notes' intervals; `None` when no entry has that shape.
pub open spec fn chord_label(notes: Seq<u8>) -> Option<Seq<char>> {
    match first_match(intervals_of(notes), 0) {
        Some(i) => Some(note_name(notes[0] as int, false) + chord_entry(i as int).0),
        None => None,
    }
}

/// Entry `i` of the chord table, as a suffix and a vector of intervals.
fn chord_pattern(i: usize) -> (r: (&'static str, Vec<u8>))
    requires
        i < CHORD_COUNT,
    ensures
        r.0@ == chord_entry(i as int).0,
        r.1@.len() == chord_entry(i as int).1.len(),
        forall|k: int| 0 <= k < r.1@.len() ==> r.1@[k] as int == chord_entry(i as int).1[k],
{
    if i == 0 {
        ("M", vec![0, 4, 7])
    } else if i == 1 {
        ("maj7", vec![0, 4, 11])
    } else if i == 2 {
        ("maj7", vec![0, 4, 7, 11])
    } else if i == 3 {
        ("maj9", vec![0, 4, 11, 14])
    } else if i == 4 {
        ("maj9", vec![0, 4, 7, 11, 14])
    } else if i == 5 {
        ("maj11", vec![0, 4, 11, 17])
    } else if i == 6 {
        ("maj11", vec![0, 4, 7, 11, 14, 17])
    } else if i == 7 {
        ("6", vec![0, 4, 9])
    } else if i == 8 {
        ("6", vec![0, 4, 7, 9])
    } else if i == 9 {
        ("7", vec![0, 4, 10])
    } else if i == 10 {
        ("7", vec![0, 4, 7, 10])
    } else if i == 11 {
        ("sus4", vec![0, 5])
    } else if i == 12 {
        ("sus4", vec![0, 5, 7])
    } else if i == 13 {
        ("sus2", vec![0, 2])
    } else if i == 14 {
        ("sus2", vec![0, 2, 7])
    } else if i == 15 {
        ("m", vec![0, 3, 7])
    } else if i == 16 {
        ("m7", vec![0, 3, 10])
    } else if i == 17 {
        ("m7", vec![0, 3, 7, 10])
    } else if i == 18 {
        ("m6", vec![0, 3, 8])
    } else if i == 19 {
        ("m6", vec![0, 3, 7, 8])
    } else if i == 20 {
        ("m9", vec![0, 3, 10, 14])
    } else if i == 21 {
        ("m9", vec![0, 3, 7, 10, 14])
    } else if i == 22 {
        ("dim", vec![0, 3, 6])
    } else if i == 23 {
        ("dim7", vec![0, 3, 6, 9])
    } else if i == 24 {
        ("m7b5", vec![0, 3, 6, 10])
    } else if i == 25 {
        ("5", vec![0, 7])
    } else if i == 26 {
        ("aug", vec![0, 4, 8])
    } else if i == 27 {
        ("aug7", vec![0, 4, 8, 10])
    } else {
        ("maj7#5", vec![0, 4, 8, 11])
    }
}

/// Whether two interval vectors are equal, element by element.
fn same_intervals(a: &Vec<u8>, b: &Vec<u8>) -> (r: bool)
    ensures
        r == (a@ == b@),
{
    if a.len() != b.len() {
        return false;
    }
    let mut k: usize = 0;
    while k < a.len()
        invariant
            a@.len() == b@.len(),
            k <= a@.len(),
            forall|j: int| 0 <= j < k ==> a@[j] == b@[j],
        decreases a@.len() - k,
    {
        if a[k] != b[k] {
            return false;
        }
        k += 1;
    }
    assert(a@ =~= b@);
    true
}

/// Identifies the chord that the ascending, non-empty `notes` form: the
/// lowest note's pitch-class name followed by the quality suffix of the first
/// table entry whose intervals equal those of `notes` above the lowest note.
/// `None` when no entry has exactly that shape.
pub fn chord(notes: &Vec<u8>) -> (r: Option<String>)
    requires
        chord_input(notes@),
    ensures
        r is Some <==> chord_label(notes@) is Some,
        r matches Some(s) ==> chord_label(notes@) == Some(s@),
{
    let root = notes[0];
    let ghost d = intervals_of(notes@);
    let mut diffs: Vec<u8> = Vec::new();
    let mut k: usize = 0;
    while k < notes.len()
        invariant
            chord_input(notes@),
            root == notes@[0],
            k <= notes@.len(),
            diffs@.len() == k,
            d == intervals_of(notes@),
            forall|j: int| 0 <= j < k ==> diffs@[j] as int == d[j],
        decreases notes@.len() - k,
    {
        diffs.push(notes[k] - root);
        k += 1;
    }
    let mut i: usize = 0;
    while i < CHORD_COUNT
        invariant
            diffs@.len() == d.len(),
            forall|j: int| 0 <= j < d.len() ==> diffs@[j] as int == d[j],
            d == intervals_of(notes@),
            root == notes@[0],
            i <= CHORD_COUNT,
            first_match(d, 0) == first_match(d, i as nat),
        decreases CHORD_COUNT - i,
    {
        let (suffix, intervals) = chord_pattern(i);
        let ghost e = chord_entry(i as int).1;
        if same_intervals(&diffs, &intervals) {
            assert(e =~= d);
            assert(first_match(d, i as nat) == Some(i as nat));
            let mut label = note(root, false);
            label.append(suffix);
            return Some(label);
        }
        assert(e != d) by {
            if e == d {
                assert(diffs@ =~= intervals@);
            }
        }
        i += 1;
    }
    None
}

/// Every shape in the chord table starts at 0 and is strictly ascending.
pub proof fn lemma_table_shapes()
    ensures
        forall|i: int| 0 <= i < CHORD_COUNT ==> #[trigger] is_shape(chord_entry(i).1),
{
    assert forall|i: int| 0 <= i < CHORD_COUNT implies #[trigger] is_shape(chord_entry(i).1) by {
        let s = chord_entry(i).1;
        assert(s.len() > 0 && s[0] == 0);
    }
}

/// Transposing held notes (adding the same amount to each) keeps their
/// intervals, hence the matched table entry; transposing by whole octaves
/// keeps the label itself.
pub proof fn lemma_transpose(a: Seq<u8>, b: Seq<u8>, shift: int)
    requires
        chord_input(a),
        b.len() == a.len(),
        forall|k: int| 0 <= k < a.len() ==> b[k] == a[k] + shift,
    ensures
        chord_input(b),
        intervals_of(b) == intervals_of(a),
        first_match(intervals_of(b), 0) == first_match(intervals_of(a), 0),
        shift % 12 == 0 ==> chord_label(b) == chord_label(a),
{
    assert(intervals_of(b) =~= intervals_of(a));
    if shift % 12 == 0 {
        assert((b[0] as int) % 12 == (a[0] as int) % 12);
    }
}

} // verus!
