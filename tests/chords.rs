use midi_chords::chord::{chord, CHORD_COUNT};
use midi_chords::pitch::{note, try_note, PitchError};
use midi_chords::tracker::{parse_message, HeldNotes, NoteEvent, MIDI_NOTE_OFF, MIDI_NOTE_ON};

fn label(notes: &[u8]) -> Option<String> {
    chord(&notes.to_vec())
}

#[test]
fn pitch_names_without_octave() {
    assert_eq!(note(60, false), "C");
    assert_eq!(note(61, false), "C#");
    assert_eq!(note(70, false), "A#");
    assert_eq!(note(71, false), "B");
    assert_eq!(note(0, false), "C");
    assert_eq!(note(5, false), "F");
}

#[test]
fn pitch_names_with_octave() {
    assert_eq!(note(60, true), "C4");
    assert_eq!(note(12, true), "C0");
    assert_eq!(note(69, true), "A4");
    assert_eq!(note(127, true), "G9");
    assert_eq!(note(250, true), "A#19");
}

#[test]
fn pitch_name_repeats_every_octave() {
    for n in 0u8..=115 {
        assert_eq!(note(n, false), note(n + 12, false));
    }
}

#[test]
fn octave_rises_by_one_per_twelve_notes() {
    assert_eq!(note(61, true), "C#4");
    assert_eq!(note(73, true), "C#5");
    assert_eq!(note(23, true), "B0");
    assert_eq!(note(35, true), "B1");
}

#[test]
fn try_note_rejects_out_of_range() {
    assert_eq!(try_note(5, true), Err(PitchError::OutOfRange));
    assert_eq!(try_note(11, true), Err(PitchError::OutOfRange));
    assert_eq!(try_note(128, false), Err(PitchError::OutOfRange));
    assert_eq!(try_note(5, false), Ok("F".to_string()));
    assert_eq!(try_note(12, true), Ok("C0".to_string()));
    assert_eq!(try_note(127, true), Ok("G9".to_string()));
}

#[test]
fn known_chords() {
    assert_eq!(label(&[60, 64, 67]), Some("CM".to_string()));
    assert_eq!(label(&[60, 63, 66, 69]), Some("Cdim7".to_string()));
    assert_eq!(label(&[60, 65]), Some("Csus4".to_string()));
    assert_eq!(label(&[60, 61]), None);
}

#[test]
fn chord_ignores_octave_of_root() {
    assert_eq!(label(&[48, 52, 55]), Some("CM".to_string()));
    assert_eq!(label(&[48, 52, 55]), label(&[60, 64, 67]));
}

#[test]
fn chord_root_names_label() {
    assert_eq!(label(&[67, 71, 74, 77]), Some("G7".to_string()));
    assert_eq!(label(&[62, 69]), Some("D5".to_string()));
    assert_eq!(label(&[61, 64, 68]), Some("C#m".to_string()));
    assert_eq!(label(&[57, 60, 64, 67]), Some("Am7".to_string()));
}

#[test]
fn chord_table_entries_in_order() {
    let shapes: [(&str, &[u8]); 29] = [
        ("M", &[0, 4, 7]),
        ("maj7", &[0, 4, 11]),
        ("maj7", &[0, 4, 7, 11]),
        ("maj9", &[0, 4, 11, 14]),
        ("maj9", &[0, 4, 7, 11, 14]),
        ("maj11", &[0, 4, 11, 17]),
        ("maj11", &[0, 4, 7, 11, 14, 17]),
        ("6", &[0, 4, 9]),
        ("6", &[0, 4, 7, 9]),
        ("7", &[0, 4, 10]),
        ("7", &[0, 4, 7, 10]),
        ("sus4", &[0, 5]),
        ("sus4", &[0, 5, 7]),
        ("sus2", &[0, 2]),
        ("sus2", &[0, 2, 7]),
        ("m", &[0, 3, 7]),
        ("m7", &[0, 3, 10]),
        ("m7", &[0, 3, 7, 10]),
        ("m6", &[0, 3, 8]),
        ("m6", &[0, 3, 7, 8]),
        ("m9", &[0, 3, 10, 14]),
        ("m9", &[0, 3, 7, 10, 14]),
        ("dim", &[0, 3, 6]),
        ("dim7", &[0, 3, 6, 9]),
        ("m7b5", &[0, 3, 6, 10]),
        ("5", &[0, 7]),
        ("aug", &[0, 4, 8]),
        ("aug7", &[0, 4, 8, 10]),
        ("maj7#5", &[0, 4, 8, 11]),
    ];
    assert_eq!(shapes.len(), CHORD_COUNT);
    for (suffix, intervals) in shapes.iter() {
        let notes: Vec<u8> = intervals.iter().map(|d| 62 + d).collect();
        assert_eq!(chord(&notes), Some(format!("D{}", suffix)));
    }
}

#[test]
fn chord_needs_exact_shape() {
    // an inversion of C major is not recognised as C major
    assert_eq!(label(&[67, 72, 76]), None);
    // a single note has the shape [0], which no entry has
    assert_eq!(label(&[60]), None);
    // a doubled root breaks the shape
    assert_eq!(label(&[60, 64, 67, 72]), None);
}

#[test]
fn note_on_twice_same_as_once() {
    let mut once = HeldNotes::new();
    once.on_note_on(60);
    let mut twice = HeldNotes::new();
    twice.on_note_on(60);
    twice.on_note_on(60);
    assert_eq!(once.notes(), twice.notes());
    assert_eq!(twice.notes(), &vec![60]);
    assert_eq!(twice.len(), 1);
}

#[test]
fn press_order_does_not_matter() {
    let mut a = HeldNotes::new();
    for n in [67u8, 60, 64] {
        a.on_note_on(n);
    }
    let mut b = HeldNotes::new();
    for n in [60u8, 64, 67] {
        b.on_note_on(n);
    }
    assert_eq!(a.snapshot_sorted(), vec![60, 64, 67]);
    assert_eq!(a.snapshot_sorted(), b.snapshot_sorted());
    assert_eq!(chord(&a.snapshot_sorted()), chord(&b.snapshot_sorted()));
    assert_eq!(a.display_label(), Some("CM".to_string()));
    assert_eq!(a.display_label(), b.display_label());
}

#[test]
fn release_removes_note() {
    let mut h = HeldNotes::new();
    h.on_note_on(60);
    h.on_note_on(64);
    h.on_note_off(60);
    assert_eq!(h.notes(), &vec![64]);
    assert_eq!(h.len(), 1);
    assert!(!h.is_active());
    assert_eq!(h.display_label(), None);
}

#[test]
fn release_of_unheld_note_is_ignored() {
    let mut h = HeldNotes::new();
    h.on_note_on(60);
    h.on_note_off(61);
    assert_eq!(h.notes(), &vec![60]);
    h.on_note_off(60);
    assert_eq!(h.len(), 0);
    assert!(!h.contains(60));
}

#[test]
fn idle_and_active() {
    let mut h = HeldNotes::new();
    assert!(!h.is_active());
    assert_eq!(h.display_label(), None);
    h.on_note_on(60);
    assert!(!h.is_active());
    h.on_note_on(61);
    assert!(h.is_active());
    assert_eq!(h.display_label(), Some("???".to_string()));
    h.on_note_off(61);
    assert!(!h.is_active());
}

#[test]
fn parse_messages() {
    assert_eq!(parse_message(&[MIDI_NOTE_ON, 60, 100]), Some(NoteEvent::NoteOn(60)));
    assert_eq!(parse_message(&[MIDI_NOTE_OFF, 60, 0]), Some(NoteEvent::NoteOff(60)));
    assert_eq!(parse_message(&[176, 7, 100]), None);
    assert_eq!(parse_message(&[MIDI_NOTE_ON]), None);
    assert_eq!(parse_message(&[]), None);
}

#[test]
fn handle_message_stream() {
    let mut h = HeldNotes::new();
    assert_eq!(h.handle_message(&[144, 60, 100]), None);
    assert_eq!(h.handle_message(&[144, 64, 100]), Some("???".to_string()));
    assert_eq!(h.handle_message(&[144, 67, 100]), Some("CM".to_string()));
    assert_eq!(h.handle_message(&[144, 70, 100]), Some("C7".to_string()));
    assert_eq!(h.handle_message(&[128, 70, 0]), Some("CM".to_string()));
    assert_eq!(h.handle_message(&[176, 1, 2]), Some("CM".to_string()));
    assert_eq!(h.handle_message(&[128, 60, 0]), Some("???".to_string()));
    assert_eq!(h.handle_message(&[128, 64, 0]), None);
    assert_eq!(h.notes(), &vec![67]);
}

#[test]
fn apply_events() {
    let mut h = HeldNotes::new();
    h.apply(NoteEvent::NoteOn(62));
    h.apply(NoteEvent::NoteOn(69));
    assert_eq!(h.display_label(), Some("D5".to_string()));
    h.apply(NoteEvent::NoteOff(62));
    assert_eq!(h.notes(), &vec![69]);
}
