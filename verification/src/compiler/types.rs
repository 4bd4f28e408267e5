//! The data of the compiler: pitches, notes, points in time, events, the
//! state that a compilation threads through the tree, and diagnostics.

use crate::rational::Rational32;
use crate::syntax::types::TextRange;
use vstd::prelude::*;
use vstd::string::StringSliceAdditionalSpecFns;
use vstd::utf8::encode_utf8_decode_utf8;

verus! {

/// A semitone number: 60 is C4, the C in the middle of the keyboard.
pub type PitchSpell = i16;

/// Pitch atoms from left to right; read from right to left, each atom is
/// taken relative to what the atoms to its right spell.
pub type PitchChain = Vec<Pitch>;

/// A decimal number with nine places behind the point, as a count of
/// billionths. Digits behind the ninth place are dropped.
#[derive(Debug, Clone, Copy, PartialEq, Eq, Structural)]
pub struct Decimal(pub i64);

/// One billion: the number of billionths in one.
pub open spec fn giga() -> int {
    1_000_000_000
}

#[derive(Debug, Clone, Copy, PartialEq)]
pub enum Pitch {
    /// A semitone number.
    SpellOctave(PitchSpell),
    /// A pitch class, the octave nearest to the base pitch.
    SpellSimple(PitchSpell),
    /// A frequency in Hz, above 1 and below 10^8.
    Frequency(Decimal),
    /// A factor on the base frequency.
    Ratio(Rational32),
    /// A step of an equal division of the octave: `step / divisions`.
    Edo(Rational32),
    /// An offset in cents.
    Cents(i32),
    Rest,
    Sustain,
}

impl Pitch {
    pub open spec fn is_formal(self) -> bool {
        self is Rest || self is Sustain
    }
}

/// A point in time: nanoseconds from the start, the number of bars
/// completed, and the place in the current bar in whole notes.
#[derive(Debug, Clone, Copy)]
pub struct TimeStamp {
    pub nanos: i64,
    pub bars: u32,
    pub ticks: Rational32,
}

/// How a base pitch was defined, relative to the one in force before it,
/// which is `under` in the list of base pitches. With a spelling, the base
/// note is the spelling; without one it is the semitone nearest to the new
/// base frequency under the old base. With a chain, the base frequency is
/// what the chain spells under the old base; without one it is what the
/// spelling spells there. The first base pitch has neither: it is C4 at
/// 261.63 Hz.
#[derive(Debug)]
pub struct BaseDef {
    pub spell: Option<Pitch>,
    pub chain: Option<Vec<Pitch>>,
    pub under: usize,
}

/// What the definition of a base pitch holds.
pub struct BaseDefView {
    pub spell: Option<Pitch>,
    pub chain: Option<Seq<Pitch>>,
    pub under: usize,
}

impl View for BaseDef {
    type V = BaseDefView;

    open spec fn view(&self) -> BaseDefView {
        BaseDefView {
            spell: self.spell,
            chain: match self.chain {
                Some(c) => Some(c@),
                None => None,
            },
            under: self.under,
        }
    }
}

/// What the base pitches of a list hold.
pub open spec fn base_views(bases: Seq<BaseDef>) -> Seq<BaseDefView> {
    bases.map_values(|b: BaseDef| b@)
}

/// A note: its pitch chain, the base pitch under which the chain is read
/// (a place in the compiler's list of base pitches), and its duration in
/// whole notes and in nanoseconds.
#[derive(Debug)]
pub struct Note {
    pub pitch_chain: PitchChain,
    pub base: usize,
    pub duration: Rational32,
    pub duration_nanos: i64,
}

pub struct NoteView {
    pub pitch_chain: Seq<Pitch>,
    pub base: usize,
    pub duration: Rational32,
    pub duration_nanos: i64,
}

impl View for Note {
    type V = NoteView;

    open spec fn view(&self) -> NoteView {
        NoteView {
            pitch_chain: self.pitch_chain@,
            base: self.base,
            duration: self.duration,
            duration_nanos: self.duration_nanos,
        }
    }
}

impl NoteView {
    pub open spec fn is_rest(self) -> bool {
        self.pitch_chain.len() == 1 && self.pitch_chain[0] is Rest
    }

    pub open spec fn is_sustain(self) -> bool {
        self.pitch_chain.len() == 1 && self.pitch_chain[0] is Sustain
    }
}

impl Note {
    /// A note of one atom, with no duration yet.
    pub fn from_pitch(pitch: Pitch, state: &CompileState) -> (n: Self)
        ensures
            n@ == (NoteView {
                pitch_chain: seq![pitch],
                base: state.base,
                duration: Rational32(0, 4),
                duration_nanos: 0,
            }),
    {
        let mut pitch_chain: Vec<Pitch> = Vec::new();
        pitch_chain.push(pitch);
        assert(pitch_chain@ =~= seq![pitch]);
        Note { pitch_chain, base: state.base, duration: Rational32(0, 4), duration_nanos: 0 }
    }

    /// The note with `pitch_chain` in place of its chain.
    pub fn with_pitch_chain(self, pitch_chain: PitchChain) -> (n: Self)
        ensures
            n@ == (NoteView { pitch_chain: pitch_chain@, ..self@ }),
    {
        Note {
            pitch_chain,
            base: self.base,
            duration: self.duration,
            duration_nanos: self.duration_nanos,
        }
    }

    pub fn is_rest(&self) -> (b: bool)
        ensures
            b == self@.is_rest(),
    {
        self.pitch_chain.len() == 1 && matches!(self.pitch_chain[0], Pitch::Rest)
    }

    pub fn is_sustain(&self) -> (b: bool)
        ensures
            b == self@.is_sustain(),
    {
        self.pitch_chain.len() == 1 && matches!(self.pitch_chain[0], Pitch::Sustain)
    }

    /// A copy of the note.
    pub fn copy(&self) -> (n: Self)
        ensures
            n@ == self@,
    {
        Note {
            pitch_chain: copy_chain(&self.pitch_chain),
            base: self.base,
            duration: self.duration,
            duration_nanos: self.duration_nanos,
        }
    }
}

/// A copy of a pitch chain.
pub fn copy_chain(chain: &Vec<Pitch>) -> (copy: Vec<Pitch>)
    ensures
        copy@ == chain@,
{
    let mut copy: Vec<Pitch> = Vec::new();
    let mut i: usize = 0;
    while i < chain.len()
        invariant
            0 <= i <= chain@.len(),
            copy@ == chain@.subrange(0, i as int),
        decreases chain@.len() - i,
    {
        copy.push(chain[i]);
        assert(copy@ =~= chain@.subrange(0, i + 1));
        i += 1;
    }
    assert(copy@ =~= chain@);
    copy
}

/// What an event says.
#[derive(Debug)]
pub enum EventBody {
    Note(Note),
    /// The base note changes; the value is the place of the new base pitch
    /// in the compiler's list.
    BaseNoteDef(usize),
    /// The base frequency changes; the value is the place of the new base
    /// pitch in the compiler's list.
    BaseFrequencyDef(usize),
    TimeSignatureDef(Rational32),
    BeatDurationDef(Rational32),
    BPMDef(Decimal),
    QuantizeDef(Rational32),
    NewMeasure(u32),
}

pub enum EventBodyView {
    Note(NoteView),
    BaseNoteDef(usize),
    BaseFrequencyDef(usize),
    TimeSignatureDef(Rational32),
    BeatDurationDef(Rational32),
    BPMDef(Decimal),
    QuantizeDef(Rational32),
    NewMeasure(u32),
}

impl View for EventBody {
    type V = EventBodyView;

    open spec fn view(&self) -> EventBodyView {
        match self {
            EventBody::Note(n) => EventBodyView::Note(n@),
            EventBody::BaseNoteDef(b) => EventBodyView::BaseNoteDef(*b),
            EventBody::BaseFrequencyDef(b) => EventBodyView::BaseFrequencyDef(*b),
            EventBody::TimeSignatureDef(r) => EventBodyView::TimeSignatureDef(*r),
            EventBody::BeatDurationDef(r) => EventBodyView::BeatDurationDef(*r),
            EventBody::BPMDef(d) => EventBodyView::BPMDef(*d),
            EventBody::QuantizeDef(r) => EventBodyView::QuantizeDef(*r),
            EventBody::NewMeasure(n) => EventBodyView::NewMeasure(*n),
        }
    }
}

impl EventBody {
    pub fn copy(&self) -> (b: Self)
        ensures
            b@ == self@,
    {
        match self {
            EventBody::Note(n) => EventBody::Note(n.copy()),
            EventBody::BaseNoteDef(b) => EventBody::BaseNoteDef(*b),
            EventBody::BaseFrequencyDef(b) => EventBody::BaseFrequencyDef(*b),
            EventBody::TimeSignatureDef(r) => EventBody::TimeSignatureDef(*r),
            EventBody::BeatDurationDef(r) => EventBody::BeatDurationDef(*r),
            EventBody::BPMDef(d) => EventBody::BPMDef(*d),
            EventBody::QuantizeDef(r) => EventBody::QuantizeDef(*r),
            EventBody::NewMeasure(n) => EventBody::NewMeasure(*n),
        }
    }
}

/// An event: what it says, when, and where in the source it comes from.
/// `range_invoked` is the place of the macro call that brought the event
/// about, if one did; `range` then lies in the macro's definition.
#[derive(Debug)]
pub struct CompileEvent {
    pub body: EventBody,
    pub start_time: TimeStamp,
    pub range: TextRange,
    pub range_invoked: Option<TextRange>,
}

pub struct CompileEventView {
    pub body: EventBodyView,
    pub start_time: TimeStamp,
    pub range: TextRange,
    pub range_invoked: Option<TextRange>,
}

impl View for CompileEvent {
    type V = CompileEventView;

    open spec fn view(&self) -> CompileEventView {
        CompileEventView {
            body: self.body@,
            start_time: self.start_time,
            range: self.range,
            range_invoked: self.range_invoked,
        }
    }
}

impl CompileEventView {
    /// The event is a note that holds on to the note before it.
    pub open spec fn is_sustain(self) -> bool {
        self.body matches EventBodyView::Note(n) && n.is_sustain()
    }

    /// The event is a note that sounds or rests.
    pub open spec fn is_plain_note(self) -> bool {
        self.body matches EventBodyView::Note(n) && !n.is_sustain()
    }
}

impl CompileEvent {
    pub fn copy(&self) -> (e: Self)
        ensures
            e@ == self@,
    {
        CompileEvent {
            body: self.body.copy(),
            start_time: self.start_time,
            range: self.range,
            range_invoked: self.range_invoked,
        }
    }
}

/// The views of `events`, in their order.
pub open spec fn event_views(events: Seq<CompileEvent>) -> Seq<CompileEventView> {
    events.map_values(|e: CompileEvent| e@)
}

/// What the notes of a list hold.
pub open spec fn note_views(notes: Seq<Note>) -> Seq<NoteView> {
    notes.map_values(|n: Note| n@)
}

/// Whether two texts are the same.
pub fn same_text(a: &str, b: &str) -> (same: bool)
    ensures
        same == (a@ == b@),
{
    let x = a.as_bytes();
    let y = b.as_bytes();
    proof {
        encode_utf8_decode_utf8(a@);
        encode_utf8_decode_utf8(b@);
    }
    if x.len() != y.len() {
        return false;
    }
    let mut i: usize = 0;
    while i < x.len()
        invariant
            x@.len() == y@.len(),
            x@ == a.spec_bytes(),
            y@ == b.spec_bytes(),
            0 <= i <= x@.len(),
            forall|j: int| 0 <= j < i ==> x@[j] == y@[j],
        decreases x@.len() - i,
    {
        if x[i] != y[i] {
            return false;
        }
        i += 1;
    }
    assert(x@ =~= y@);
    true
}

/// What a name stands for.
#[derive(Debug)]
pub enum MacroDef {
    /// A pitch chain.
    Alias(Vec<Pitch>),
    /// Notes without timing.
    Simple(Vec<Note>),
    /// Events, with their times counted from the start of the macro.
    Complex(Vec<CompileEvent>),
}

/// What a macro holds.
pub enum MacroDefView {
    Alias(Seq<Pitch>),
    Simple(Seq<NoteView>),
    Complex(Seq<CompileEventView>),
}

impl View for MacroDef {
    type V = MacroDefView;

    open spec fn view(&self) -> MacroDefView {
        match self {
            MacroDef::Alias(chain) => MacroDefView::Alias(chain@),
            MacroDef::Simple(notes) => MacroDefView::Simple(note_views(notes@)),
            MacroDef::Complex(events) => MacroDefView::Complex(event_views(events@)),
        }
    }
}

#[derive(Debug)]
pub struct MacroEntry {
    pub name: String,
    pub def: MacroDef,
}

/// A name and what it stands for.
pub struct MacroEntryView {
    pub name: Seq<char>,
    pub def: MacroDefView,
}

impl View for MacroEntry {
    type V = MacroEntryView;

    open spec fn view(&self) -> MacroEntryView {
        MacroEntryView { name: self.name@, def: self.def@ }
    }
}

/// The place of the last of the first `n` entries that defines `name`.
pub open spec fn last_named(entries: Seq<MacroEntryView>, name: Seq<char>, n: int) -> Option<int>
    decreases n,
{
    if n <= 0 {
        None
    } else if entries[n - 1].name == name {
        Some(n - 1)
    } else {
        last_named(entries, name, n - 1)
    }
}

/// The place of the definition of `name` in force: the last one made.
pub open spec fn defined_at(entries: Seq<MacroEntryView>, name: Seq<char>) -> Option<int> {
    last_named(entries, name, entries.len() as int)
}

pub proof fn lemma_last_named_bound(entries: Seq<MacroEntryView>, name: Seq<char>, n: int)
    ensures
        last_named(entries, name, n) matches Some(i) ==> 0 <= i < n && entries[i].name == name,
    decreases n,
{
    if n > 0 && entries[n - 1].name != name {
        lemma_last_named_bound(entries, name, n - 1);
    }
}

/// The macros defined so far. A name has one definition: a later
/// definition of the same name takes the place of the earlier one, of
/// whatever kind that was.
#[derive(Debug)]
pub struct MacroRegistry {
    pub entries: Vec<MacroEntry>,
}

impl View for MacroRegistry {
    type V = Seq<MacroEntryView>;

    open spec fn view(&self) -> Seq<MacroEntryView> {
        self.entries@.map_values(|e: MacroEntry| e@)
    }
}

impl MacroRegistry {
    /// The place of the definition of `name` in force: the last one made.
    pub open spec fn lookup(&self, name: Seq<char>) -> Option<int> {
        defined_at(self@, name)
    }

    /// The place of the definition of `name` in force.
    pub fn find(&self, name: &str) -> (r: Option<usize>)
        ensures
            match r {
                Some(i) => self.lookup(name@) == Some(i as int) && i < self.entries@.len(),
                None => self.lookup(name@) is None,
            },
    {
        let mut n = self.entries.len();
        while n > 0
            invariant
                0 <= n <= self.entries@.len(),
                self.lookup(name@) == last_named(self@, name@, n as int),
            decreases n,
        {
            proof {
                assert(self@[n - 1].name == self.entries@[n - 1].name@);
            }
            if same_text(self.entries[n - 1].name.as_str(), name) {
                return Some(n - 1);
            }
            n -= 1;
        }
        None
    }

    /// Defines `name`; the definition takes the place of any earlier one.
    pub fn define(&mut self, name: String, def: MacroDef)
        ensures
            final(self).entries@ == old(self).entries@.push(MacroEntry { name, def }),
            final(self)@ == old(self)@.push(MacroEntryView { name: name@, def: def@ }),
            final(self).lookup(name@) == Some(old(self).entries@.len() as int),
    {
        self.entries.push(MacroEntry { name, def });
        proof {
            assert(self@ =~= old(self)@.push(MacroEntryView { name: name@, def: def@ }));
        }
    }
}

impl Default for MacroRegistry {
    fn default() -> (r: Self)
        ensures
            r.entries@.len() == 0,
    {
        MacroRegistry { entries: Vec::new() }
    }
}

/// What a compilation carries from one construct to the next.
#[derive(Debug, Clone, Copy)]
pub struct CompileState {
    pub time: TimeStamp,
    /// The base pitch in force: a place in the compiler's list.
    pub base: usize,
    pub time_signature: Rational32,
    /// The part of a whole note that counts as one beat.
    pub beat_duration: Rational32,
    /// Beats per minute.
    pub bpm: Decimal,
    /// The duration of a note that names none, and of a comma.
    pub quantize: Rational32,
    /// The equal division that a bare whole number is a step of; 0 if a
    /// bare number is a frequency.
    pub edo_def: u16,
}

impl TimeStamp {
    pub open spec fn start() -> TimeStamp {
        TimeStamp { nanos: 0, bars: 0, ticks: Rational32(0, 4) }
    }
}

impl Default for TimeStamp {
    fn default() -> (t: Self)
        ensures
            t == TimeStamp::start(),
    {
        TimeStamp { nanos: 0, bars: 0, ticks: Rational32(0, 4) }
    }
}

impl CompileState {
    /// The state at the start of a score: C4 at 261.63 Hz as the base
    /// pitch, four quarters to the bar, 120 quarters a minute, and notes of
    /// a quarter.
    pub open spec fn initial() -> CompileState {
        CompileState {
            time: TimeStamp::start(),
            base: 0,
            time_signature: Rational32(4, 4),
            beat_duration: Rational32(1, 4),
            bpm: Decimal(120_000_000_000),
            quantize: Rational32(1, 4),
            edo_def: 0,
        }
    }

    pub fn new() -> (s: Self)
        ensures
            s == CompileState::initial(),
    {
        CompileState {
            time: TimeStamp::default(),
            base: 0,
            time_signature: Rational32(4, 4),
            beat_duration: Rational32(1, 4),
            bpm: Decimal(120_000_000_000),
            quantize: Rational32(1, 4),
            edo_def: 0,
        }
    }
}

#[derive(Debug, Clone, Copy, PartialEq, Eq, Structural)]
pub enum DiagnosticLevel {
    Warning,
    Error,
}

/// A message of the compiler about a place in the source.
#[derive(Debug)]
pub struct Diagnostic {
    pub level: DiagnosticLevel,
    pub message: String,
    pub span: TextRange,
}

impl View for Diagnostic {
    type V = (DiagnosticLevel, Seq<char>, TextRange);

    open spec fn view(&self) -> (DiagnosticLevel, Seq<char>, TextRange) {
        (self.level, self.message@, self.span)
    }
}

} // verus!
