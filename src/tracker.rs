//! The set of currently held notes, kept up to date by note events, and the
//! chord label it shows.
use vstd::prelude::*;

use crate::chord::{chord, chord_input, chord_label};

verus! {

/// Status byte of a note-on message.
pub const MIDI_NOTE_ON: u8 = 144;

/// Status byte of a note-off message.
pub const MIDI_NOTE_OFF: u8 = 128;

/// A key pressed or released.
#[derive(Debug, Clone, Copy, PartialEq, Eq, Structural)]
pub enum NoteEvent {
    NoteOn(u8),
    NoteOff(u8),
}

/// The note event that a raw message carries: a status byte followed by a
/// note number. Messages of other kinds, or too short to hold a note, carry
/// none.
pub open spec fn message_event(msg: Seq<u8>) -> Option<NoteEvent> {
    if msg.len() < 2 {
        None
    } else if msg[0] == MIDI_NOTE_ON {
        Some(NoteEvent::NoteOn(msg[1]))
    } else if msg[0] == MIDI_NOTE_OFF {
        Some(NoteEvent::NoteOff(msg[1]))
    } else {
        None
    }
}

/// Held notes after `n` is pressed: a note already held is not added twice.
pub open spec fn press(s: Seq<u8>, n: u8) -> Seq<u8> {
    if s.contains(n) {
        s
    } else {
        s.push(n)
    }
}

/// Held notes after `n` is released: every occurrence of `n` is gone.
pub open spec fn release(s: Seq<u8>, n: u8) -> Seq<u8> {
    s.filter(other_than(n))
}

/// Holds of every note but `n`.
pub open spec fn other_than(n: u8) -> spec_fn(u8) -> bool {
    |x: u8| x != n
}

/// Held notes after an event.
pub open spec fn apply_event(s: Seq<u8>, ev: NoteEvent) -> Seq<u8> {
    match ev {
        NoteEvent::NoteOn(n) => press(s, n),
        NoteEvent::NoteOff(n) => release(s, n),
    }
}

/// Each note strictly above the one before it.
pub open spec fn strictly_ascending(s: Seq<u8>) -> bool {
    forall|j: int, k: int| 0 <= j < k < s.len() ==> s[j] < s[k]
}

/// Two sequences that hold the same notes.
pub open spec fn same_notes(a: Seq<u8>, b: Seq<u8>) -> bool {
    forall|x: u8| a.contains(x) <==> b.contains(x)
}

/// `r` lists the notes of `s` in ascending order, each once.
pub open spec fn is_sorted_snapshot(r: Seq<u8>, s: Seq<u8>) -> bool {
    strictly_ascending(r) && same_notes(r, s)
}

/// The notes of `s` in ascending order, each once.
pub open spec fn sorted_notes(s: Seq<u8>) -> Seq<u8> {
    choose|r: Seq<u8>| is_sorted_snapshot(r, s)
}

/// What the held notes `s` show: nothing while fewer than two are held;
/// otherwise the label of the chord they form, or "???" when they form none
/// that the table knows.
pub open spec fn display_text(s: Seq<u8>) -> Option<Seq<char>> {
    if s.len() <= 1 {
        None
    } else {
        match chord_label(sorted_notes(s)) {
            Some(l) => Some(l),
            None => Some("???"@),
        }
    }
}

/// Two ascending sequences that hold the same notes are the same sequence.
pub proof fn lemma_snapshot_unique(r1: Seq<u8>, r2: Seq<u8>)
    requires
        strictly_ascending(r1),
        strictly_ascending(r2),
        same_notes(r1, r2),
    ensures
        r1 == r2,
    decreases r1.len(),
{
    if r1.len() == 0 {
        if r2.len() > 0 {
            assert(r2.contains(r2[0]));
        }
        assert(r1 =~= r2);
    } else {
        assert(r1.contains(r1[0]));
        assert(r2.len() > 0);
        assert(r2.contains(r2[0]));
        let k1 = choose|k: int| 0 <= k < r2.len() && r2[k] == r1[0];
        let k2 = choose|k: int| 0 <= k < r1.len() && r1[k] == r2[0];
        assert(r2[0] <= r2[k1]);
        assert(r1[0] <= r1[k2]);
        let t1 = r1.drop_first();
        let t2 = r2.drop_first();
        assert forall|x: u8| t1.contains(x) implies t2.contains(x) by {
            let j = choose|j: int| 0 <= j < t1.len() && t1[j] == x;
            assert(r1[j + 1] == x);
            assert(r2.contains(x));
            let i = choose|i: int| 0 <= i < r2.len() && r2[i] == x;
            assert(i != 0);
            assert(t2[i - 1] == x);
        }
        assert forall|x: u8| t2.contains(x) implies t1.contains(x) by {
            let j = choose|j: int| 0 <= j < t2.len() && t2[j] == x;
            assert(r2[j + 1] == x);
            assert(r1.contains(x));
            let i = choose|i: int| 0 <= i < r1.len() && r1[i] == x;
            assert(i != 0);
            assert(t1[i - 1] == x);
        }
        lemma_snapshot_unique(t1, t2);
        assert(r1 =~= seq![r1[0]] + t1);
        assert(r2 =~= seq![r2[0]] + t2);
    }
}

/// Any ascending listing of the notes of `s` is `sorted_notes(s)`.
pub proof fn lemma_sorted_notes_is(r: Seq<u8>, s: Seq<u8>)
    requires
        is_sorted_snapshot(r, s),
    ensures
        sorted_notes(s) == r,
{
    let c = sorted_notes(s);
    assert(is_sorted_snapshot(c, s));
    lemma_snapshot_unique(c, r);
}

/// Adding a note `x` that an ascending sequence lacks gives another
/// ascending sequence.
proof fn lemma_insert_ascending(r: Seq<u8>, x: u8)
    requires
        strictly_ascending(r),
        !r.contains(x),
    ensures
        exists|r2: Seq<u8>|
            strictly_ascending(r2) && forall|v: u8| #[trigger]
                r2.contains(v) <==> (r.contains(v) || v == x),
    decreases r.len(),
{
    if r.len() == 0 {
        let r2 = seq![x];
        assert forall|v: u8| #[trigger] r2.contains(v) <==> (r.contains(v) || v == x) by {
            if r2.contains(v) {
                assert(r2[0] == v);
            }
            if v == x {
                assert(r2[0] == v);
            }
        }
        assert(strictly_ascending(r2));
    } else if x < r[0] {
        let r2 = seq![x] + r;
        assert forall|v: u8| #[trigger] r2.contains(v) <==> (r.contains(v) || v == x) by {
            if r2.contains(v) {
                let j = choose|j: int| 0 <= j < r2.len() && r2[j] == v;
                if j > 0 {
                    assert(r[j - 1] == v);
                }
            }
            if r.contains(v) {
                let j = choose|j: int| 0 <= j < r.len() && r[j] == v;
                assert(r2[j + 1] == v);
            }
            if v == x {
                assert(r2[0] == v);
            }
        }
        assert forall|j: int, k: int| 0 <= j < k < r2.len() implies r2[j] < r2[k] by {
            if j > 0 {
                assert(r2[j] == r[j - 1]);
            } else {
                assert(r[0] <= r[k - 1]);
            }
        }
        assert(strictly_ascending(r2));
    } else {
        assert(r.contains(r[0]));
        let t = r.drop_first();
        assert(!t.contains(x)) by {
            if t.contains(x) {
                let j = choose|j: int| 0 <= j < t.len() && t[j] == x;
                assert(r[j + 1] == x);
            }
        }
        lemma_insert_ascending(t, x);
        let t2 = choose|t2: Seq<u8>|
            strictly_ascending(t2) && forall|v: u8| #[trigger]
                t2.contains(v) <==> (t.contains(v) || v == x);
        let r2 = seq![r[0]] + t2;
        assert forall|v: u8| #[trigger] r2.contains(v) <==> (r.contains(v) || v == x) by {
            if r2.contains(v) {
                let j = choose|j: int| 0 <= j < r2.len() && r2[j] == v;
                if j > 0 {
                    assert(t2[j - 1] == v);
                    assert(t2.contains(v));
                    if t.contains(v) {
                        let m = choose|m: int| 0 <= m < t.len() && t[m] == v;
                        assert(r[m + 1] == v);
                    }
                }
            }
            if r.contains(v) {
                let j = choose|j: int| 0 <= j < r.len() && r[j] == v;
                if j > 0 {
                    assert(t[j - 1] == v);
                    assert(t2.contains(v));
                    let m = choose|m: int| 0 <= m < t2.len() && t2[m] == v;
                    assert(r2[m + 1] == v);
                } else {
                    assert(r2[0] == v);
                }
            }
            if v == x {
                assert(t2.contains(v));
                let m = choose|m: int| 0 <= m < t2.len() && t2[m] == v;
                assert(r2[m + 1] == v);
            }
        }
        assert forall|j: int, k: int| 0 <= j < k < r2.len() implies r2[j] < r2[k] by {
            if j > 0 {
                assert(r2[j] == t2[j - 1]);
            } else {
                let v = t2[k - 1];
                assert(t2.contains(v));
                if t.contains(v) {
                    let m = choose|m: int| 0 <= m < t.len() && t[m] == v;
                    assert(r[0] < r[m + 1]);
                }
            }
        }
        assert(strictly_ascending(r2));
    }
}

/// Every sequence of notes has an ascending listing of its notes.
pub proof fn lemma_sorted_notes_exists(s: Seq<u8>)
    ensures
        is_sorted_snapshot(sorted_notes(s), s),
    decreases s.len(),
{
    if s.len() == 0 {
        assert(is_sorted_snapshot(Seq::<u8>::empty(), s));
    } else {
        let u = s.drop_last();
        let x = s.last();
        lemma_sorted_notes_exists(u);
        let r0 = sorted_notes(u);
        assert forall|v: u8| s.contains(v) <==> (u.contains(v) || v == x) by {
            if s.contains(v) {
                let j = choose|j: int| 0 <= j < s.len() && s[j] == v;
                if j < s.len() - 1 {
                    assert(u[j] == v);
                }
            }
            if u.contains(v) {
                let j = choose|j: int| 0 <= j < u.len() && u[j] == v;
                assert(s[j] == v);
            }
            if v == x {
                assert(s[s.len() - 1] == v);
            }
        }
        if r0.contains(x) {
            assert(is_sorted_snapshot(r0, s));
        } else {
            lemma_insert_ascending(r0, x);
            let r2 = choose|r2: Seq<u8>|
                strictly_ascending(r2) && forall|v: u8| #[trigger]
                    r2.contains(v) <==> (r0.contains(v) || v == x);
            assert(is_sorted_snapshot(r2, s));
        }
    }
}

/// The sorted notes depend only on which notes are held.
pub proof fn lemma_sorted_notes_by_contents(a: Seq<u8>, b: Seq<u8>)
    requires
        same_notes(a, b),
    ensures
        sorted_notes(a) == sorted_notes(b),
{
    lemma_sorted_notes_exists(a);
    lemma_sorted_notes_is(sorted_notes(a), b);
}

/// Pressing a key that is already held changes nothing: pressing `n` twice
/// holds the same notes as pressing it once.
pub proof fn lemma_press_idempotent(s: Seq<u8>, n: u8)
    ensures
        press(press(s, n), n) == press(s, n),
{
    assert(s.push(n)[s.len() as int] == n);
}

/// The order in which two keys are pressed does not matter: pressing `a`
/// then `b` holds the same notes, as many of them, as pressing `b` then `a`,
/// so both show the same sorted notes and the same label.
pub proof fn lemma_press_order(s: Seq<u8>, a: u8, b: u8)
    ensures
        same_notes(press(press(s, a), b), press(press(s, b), a)),
        press(press(s, a), b).len() == press(press(s, b), a).len(),
        sorted_notes(press(press(s, a), b)) == sorted_notes(press(press(s, b), a)),
        display_text(press(press(s, a), b)) == display_text(press(press(s, b), a)),
{
    lemma_press_contents(s, a);
    lemma_press_contents(s, b);
    lemma_press_contents(press(s, a), b);
    lemma_press_contents(press(s, b), a);
    lemma_sorted_notes_by_contents(press(press(s, a), b), press(press(s, b), a));
}

/// Pressing `n` holds exactly the notes held before, and `n`.
pub proof fn lemma_press_contents(s: Seq<u8>, n: u8)
    ensures
        forall|v: u8| #[trigger] press(s, n).contains(v) <==> (s.contains(v) || v == n),
        press(s, n).len() == if s.contains(n) {
            s.len()
        } else {
            s.len() + 1
        },
{
    assert forall|v: u8| #[trigger] press(s, n).contains(v) <==> (s.contains(v) || v == n) by {
        if !s.contains(n) {
            let t = s.push(n);
            if t.contains(v) {
                let j = choose|j: int| 0 <= j < t.len() && t[j] == v;
                if j < s.len() {
                    assert(s[j] == v);
                }
            }
            if s.contains(v) {
                let j = choose|j: int| 0 <= j < s.len() && s[j] == v;
                assert(t[j] == v);
            }
            assert(t[s.len() as int] == n);
        }
    }
}

/// Releasing `n` leaves every other held note held, and `n` no longer held.
pub proof fn lemma_release_contents(s: Seq<u8>, n: u8)
    ensures
        forall|v: u8| #[trigger] release(s, n).contains(v) <==> (s.contains(v) && v != n),
{
    assert forall|v: u8| #[trigger] release(s, n).contains(v) <==> (s.contains(v) && v != n) by {
        if release(s, n).contains(v) {
            s.lemma_filter_contains_rev(other_than(n), v);
            let j = choose|j: int| 0 <= j < release(s, n).len() && release(s, n)[j] == v;
            s.lemma_filter_pred(other_than(n), j);
        }
        if s.contains(v) && v != n {
            let j = choose|j: int| 0 <= j < s.len() && s[j] == v;
            s.lemma_filter_contains(other_than(n), j);
        }
    }
}

/// The notes currently held down, each at most once, in the order they were
/// pressed.
pub struct HeldNotes {
    notes: Vec<u8>,
}

impl View for HeldNotes {
    type V = Seq<u8>;

    closed spec fn view(&self) -> Seq<u8> {
        self.notes@
    }
}

impl HeldNotes {
    /// No note is held twice.
    pub open spec fn wf(&self) -> bool {
        self@.no_duplicates()
    }

    /// No note held.
    pub fn new() -> (r: HeldNotes)
        ensures
            r.wf(),
            r@ == Seq::<u8>::empty(),
    {
        HeldNotes { notes: Vec::new() }
    }

    /// The held notes, in the order they were pressed.
    pub fn notes(&self) -> (r: &Vec<u8>)
        ensures
            r@ == self@,
    {
        &self.notes
    }

    /// How many notes are held.
    pub fn len(&self) -> (r: usize)
        ensures
            r == self@.len(),
    {
        self.notes.len()
    }

    /// Whether a chord is being looked for: two or more notes held.
    pub fn is_active(&self) -> (r: bool)
        ensures
            r == (self@.len() >= 2),
    {
        self.notes.len() >= 2
    }

    /// Whether `n` is held.
    pub fn contains(&self, n: u8) -> (r: bool)
        ensures
            r == self@.contains(n),
    {
        let mut i: usize = 0;
        while i < self.notes.len()
            invariant
                i <= self@.len(),
                forall|j: int| 0 <= j < i ==> self@[j] != n,
            decreases self@.len() - i,
        {
            if self.notes[i] == n {
                return true;
            }
            i += 1;
        }
        false
    }

    /// Key `n` pressed: add it unless it is already held.
    pub fn on_note_on(&mut self, n: u8)
        requires
            old(self).wf(),
        ensures
            final(self).wf(),
            final(self)@ == press(old(self)@, n),
    {
        if !self.contains(n) {
            self.notes.push(n);
            assert forall|j: int, k: int|
                0 <= j < self@.len() && 0 <= k < self@.len() && j != k implies self@[j]
                != self@[k] by {
                if j == self@.len() - 1 {
                    assert(old(self)@.contains(self@[k]));
                } else if k == self@.len() - 1 {
                    assert(old(self)@.contains(self@[j]));
                }
            }
        }
    }

    /// Key `n` released: drop it from the held notes; a note not held is
    /// ignored.
    pub fn on_note_off(&mut self, n: u8)
        requires
            old(self).wf(),
        ensures
            final(self).wf(),
            final(self)@ == release(old(self)@, n),
    {
        let ghost s = self@;
        let mut kept: Vec<u8> = Vec::new();
        let mut i: usize = 0;
        while i < self.notes.len()
            invariant
                s == self@,
                s.no_duplicates(),
                i <= s.len(),
                kept@ == release(s.take(i as int), n),
            decreases s.len() - i,
        {
            let x = self.notes[i];
            proof {
                assert(s.take(i as int + 1) =~= s.take(i as int).push(x));
                s.take(i as int).lemma_filter_push(x, other_than(n));
            }
            if x != n {
                kept.push(x);
            }
            i += 1;
        }
        assert(s.take(s.len() as int) =~= s);
        proof {
            lemma_release_keeps_unique(s, n);
        }
        self.notes = kept;
    }

    /// The held notes in ascending order.
    pub fn snapshot_sorted(&self) -> (r: Vec<u8>)
        requires
            self.wf(),
        ensures
            strictly_ascending(r@),
            same_notes(r@, self@),
            r@ == sorted_notes(self@),
    {
        let ghost s = self@;
        let mut r: Vec<u8> = Vec::new();
        let mut i: usize = 0;
        while i < self.notes.len()
            invariant
                s == self@,
                s.no_duplicates(),
                i <= s.len(),
                strictly_ascending(r@),
                same_notes(r@, s.take(i as int)),
            decreases s.len() - i,
        {
            let x = self.notes[i];
            assert(!r@.contains(x)) by {
                if r@.contains(x) {
                    let j = choose|j: int| 0 <= j < i && s.take(i as int)[j] == x;
                    assert(s[j] == s[i as int]);
                }
            }
            let mut p: usize = 0;
            while p < r.len() && r[p] < x
                invariant
                    p <= r@.len(),
                    forall|j: int| 0 <= j < p ==> r@[j] < x,
                decreases r@.len() - p,
            {
                p += 1;
            }
            let ghost old_r = r@;
            r.insert(p, x);
            proof {
                assert(r@ =~= old_r.take(p as int).push(x) + old_r.skip(p as int));
                assert forall|j: int| p <= j < old_r.len() implies old_r[j] > x by {
                    assert(old_r[p as int] >= x);
                    assert(old_r[p as int] != x) by {
                        assert(old_r.contains(old_r[p as int]));
                    }
                    assert(old_r[j] >= old_r[p as int]);
                }
                assert forall|j: int| 0 <= j < r@.len() implies (j < p ==> r@[j] == old_r[j])
                    && (j == p ==> r@[j] == x) && (j > p ==> r@[j] == old_r[j - 1]) by {}
                assert(s.take(i as int + 1) =~= s.take(i as int).push(x));
                assert forall|v: u8| r@.contains(v) <==> s.take(i as int + 1).contains(v) by {
                    if r@.contains(v) {
                        let j = choose|j: int| 0 <= j < r@.len() && r@[j] == v;
                        if j < p {
                            assert(old_r.contains(v));
                        } else if j > p {
                            assert(old_r.contains(v));
                        }
                        assert(s.take(i as int + 1)[i as int] == x);
                    }
                    if s.take(i as int + 1).contains(v) {
                        let t = s.take(i as int + 1);
                        let j = choose|j: int| 0 <= j < t.len() && t[j] == v;
                        if j < i {
                            assert(s.take(i as int)[j] == v);
                            assert(old_r.contains(v));
                            let m = choose|m: int| 0 <= m < old_r.len() && old_r[m] == v;
                            if m < p {
                                assert(r@[m] == v);
                            } else {
                                assert(r@[m + 1] == v);
                            }
                        } else {
                            assert(r@[p as int] == v);
                        }
                    }
                }
            }
            i += 1;
        }
        assert(s.take(s.len() as int) =~= s);
        proof {
            lemma_sorted_notes_is(r@, s);
        }
        r
    }

    /// What the held notes show: `None` while fewer than two notes are held;
    /// otherwise the chord label of the notes in ascending order, or "???"
    /// when the chord table has no such shape.
    pub fn display_label(&self) -> (r: Option<String>)
        requires
            self.wf(),
        ensures
            r is Some <==> display_text(self@) is Some,
            r matches Some(t) ==> display_text(self@) == Some(t@),
    {
        if self.notes.len() <= 1 {
            return None;
        }
        let sorted = self.snapshot_sorted();
        assert(self@.contains(self@[0]));
        assert(sorted@.contains(self@[0]));
        assert(chord_input(sorted@));
        match chord(&sorted) {
            Some(label) => Some(label),
            None => Some(String::from_str("???")),
        }
    }

    /// Applies a note event to the held notes.
    pub fn apply(&mut self, ev: NoteEvent)
        requires
            old(self).wf(),
        ensures
            final(self).wf(),
            final(self)@ == apply_event(old(self)@, ev),
    {
        match ev {
            NoteEvent::NoteOn(n) => self.on_note_on(n),
            NoteEvent::NoteOff(n) => self.on_note_off(n),
        }
    }

    /// Handles one raw message: applies the note event it carries, if any,
    /// and returns what the held notes then show (see `display_label`).
    pub fn handle_message(&mut self, msg: &[u8]) -> (r: Option<String>)
        requires
            old(self).wf(),
        ensures
            final(self).wf(),
            final(self)@ == match message_event(msg@) {
                Some(ev) => apply_event(old(self)@, ev),
                None => old(self)@,
            },
            r is Some <==> display_text(final(self)@) is Some,
            r matches Some(t) ==> display_text(final(self)@) == Some(t@),
    {
        match parse_message(msg) {
            Some(ev) => self.apply(ev),
            None => {},
        }
        self.display_label()
    }
}

/// The note event that a raw message carries, if any.
pub fn parse_message(msg: &[u8]) -> (r: Option<NoteEvent>)
    ensures
        r == message_event(msg@),
{
    if msg.len() < 2 {
        None
    } else if msg[0] == MIDI_NOTE_ON {
        Some(NoteEvent::NoteOn(msg[1]))
    } else if msg[0] == MIDI_NOTE_OFF {
        Some(NoteEvent::NoteOff(msg[1]))
    } else {
        None
    }
}

/// Releasing a note keeps the held notes free of repeats.
proof fn lemma_release_keeps_unique(s: Seq<u8>, n: u8)
    requires
        s.no_duplicates(),
    ensures
        release(s, n).no_duplicates(),
    decreases s.len(),
{
    reveal(Seq::filter);
    if s.len() > 0 {
        lemma_release_keeps_unique(s.drop_last(), n);
        let t = release(s.drop_last(), n);
        assert forall|x: u8| t.contains(x) implies s.drop_last().contains(x) by {
            s.drop_last().lemma_filter_contains_rev(other_than(n), x);
        }
        assert(!s.drop_last().contains(s.last())) by {
            if s.drop_last().contains(s.last()) {
                let j = choose|j: int| 0 <= j < s.len() - 1 && s.drop_last()[j] == s.last();
                assert(s[j] == s[s.len() - 1]);
            }
        }
        assert(!t.contains(s.last()));
        if s.last() != n {
            assert(release(s, n) == t.push(s.last()));
            assert forall|j: int, k: int|
                0 <= j < t.len() + 1 && 0 <= k < t.len() + 1 && j != k implies t.push(
                s.last(),
            )[j] != t.push(s.last())[k] by {
                if j == t.len() {
                    assert(t.contains(t.push(s.last())[k]));
                } else if k == t.len() {
                    assert(t.contains(t.push(s.last())[j]));
                }
            }
        } else {
            assert(release(s, n) == t);
        }
    }
}

} // verus!
