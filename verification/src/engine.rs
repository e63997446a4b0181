//! The engine: the voice pool, the shared operators and the algorithm.
//!
//! Events are applied between buffers, in the order in which they were
//! queued. A note-on takes the first free voice of the pool, or steals the
//! first voice where none is free; a note-off releases every voice that
//! still sounds the note of that source. The pool keeps its size for the
//! whole life of the engine.

use crate::algorithm::{blank_matrix, default_carriers, with_connection, Algorithm};
use crate::config::{SynthConfig, DEFAULT_MAX_VOICES, DEFAULT_OPERATORS_PER_VOICE};
use crate::note::{NoteEvent, NoteSource};
use crate::operator::{Operator, OperatorEvent};
use crate::voice::Voice;
use crate::waveform::{lemma_cycled_composes, Waveform};
use vstd::prelude::*;

verus! {

/// Buffer length that the engine assumes until it is told another.
pub const DEFAULT_BUFFER_SIZE: usize = 1024;

/// Index of the first free voice at or after `start`, if there is one.
pub open spec fn first_free_from(voices: Seq<Voice>, start: int) -> Option<int>
    decreases voices.len() - start,
{
    if start < 0 || start >= voices.len() {
        None
    } else if voices[start].is_free() {
        Some(start)
    } else {
        first_free_from(voices, start + 1)
    }
}

/// Index of the first free voice of the pool, if there is one.
pub open spec fn first_free(voices: Seq<Voice>) -> Option<int> {
    first_free_from(voices, 0)
}

/// The voice that a new note gets: the first free voice, or the first voice
/// of the pool where none is free. An empty pool has no voice to give.
pub open spec fn slot_for_note(voices: Seq<Voice>) -> Option<int> {
    match first_free(voices) {
        Some(slot) => Some(slot),
        None => if voices.len() > 0 {
            Some(0)
        } else {
            None
        },
    }
}

/// The pool after a note-on: the voice that the note gets is activated for
/// it.
pub open spec fn after_note_on(voices: Seq<Voice>, note_number: u8, source: NoteSource) -> Seq<
    Voice,
> {
    match slot_for_note(voices) {
        Some(slot) => voices.update(slot, voices[slot].activated(note_number, Some(source))),
        None => voices,
    }
}

/// The voice still sounds the given note of the given source.
pub open spec fn sounds_note(voice: Voice, note_number: u8, source: NoteSource) -> bool {
    !voice.is_free() && voice.note_number == note_number && voice.note_source == Some(source)
}

/// The pool after a note-off: every voice that still sounds the note is
/// released.
pub open spec fn after_note_off(voices: Seq<Voice>, note_number: u8, source: NoteSource) -> Seq<
    Voice,
> {
    Seq::new(
        voices.len(),
        |i: int|
            if sounds_note(voices[i], note_number, source) {
                voices[i].released()
            } else {
                voices[i]
            },
    )
}

/// The pool after one note event.
pub open spec fn after_note_event(voices: Seq<Voice>, event: NoteEvent) -> Seq<Voice> {
    if event.is_on {
        after_note_on(voices, event.note_number, event.source)
    } else {
        after_note_off(voices, event.note_number, event.source)
    }
}

/// The pool after a run of note events, applied in order.
pub open spec fn after_note_events(voices: Seq<Voice>, events: Seq<NoteEvent>) -> Seq<Voice>
    decreases events.len(),
{
    if events.len() == 0 {
        voices
    } else {
        after_note_event(after_note_events(voices, events.drop_last()), events.last())
    }
}

/// Number of steps by which a run of operator events moves every waveform
/// along the cycle: steps forward less steps backward.
pub open spec fn total_steps(events: Seq<OperatorEvent>) -> int
    decreases events.len(),
{
    if events.len() == 0 {
        0
    } else {
        total_steps(events.drop_last()) + events.last().steps()
    }
}

/// Every operator of `after` plays the waveform that lies `steps` steps
/// along the cycle from the waveform of the same operator in `before`.
pub open spec fn cycled_by(before: Seq<Operator>, after: Seq<Operator>, steps: int) -> bool {
    &&& after.len() == before.len()
    &&& forall|i: int|
        0 <= i < after.len() ==> (#[trigger] after[i]).waveform() == before[i].waveform().cycled(
            steps,
        )
}

/// The voices of the pool that sound, by index and in order: those that are
/// not free among the first `upto`.
pub open spec fn sounding_upto(voices: Seq<Voice>, upto: int) -> Seq<int>
    decreases upto,
{
    if upto <= 0 {
        Seq::empty()
    } else if voices[upto - 1].is_free() {
        sounding_upto(voices, upto - 1)
    } else {
        sounding_upto(voices, upto - 1).push(upto - 1)
    }
}

/// The voices of the pool that sound, by index and in order.
pub open spec fn sounding(voices: Seq<Voice>) -> Seq<int> {
    sounding_upto(voices, voices.len() as int)
}

/// A list of indices as a list of integers.
pub open spec fn as_ints(indices: Seq<usize>) -> Seq<int> {
    Seq::new(indices.len(), |k: int| indices[k] as int)
}

/// A buffer that a voice has to fill.
#[derive(Debug, Clone, Copy, PartialEq, Eq, Structural)]
pub struct VoiceJob {
    /// Index of the voice in the pool.
    pub voice: usize,
    /// The note that the voice plays.
    pub note_number: u8,
    /// Number of samples that the voice has produced before this buffer.
    pub start_sample_index: u64,
}

/// The pool after every voice has accounted for a buffer of `buffer_len`
/// samples.
pub open spec fn after_buffer(voices: Seq<Voice>, buffer_len: usize) -> Seq<Voice> {
    Seq::new(voices.len(), |i: int| voices[i].after_buffer(buffer_len))
}

/// The buffers that a pool has to fill when `buffer_len` samples are asked
/// for: one for each sounding voice, in the order of the pool, and none at
/// all for an empty buffer.
pub open spec fn jobs_for_buffer(voices: Seq<Voice>, buffer_len: usize) -> Seq<VoiceJob> {
    if buffer_len == 0 {
        Seq::empty()
    } else {
        Seq::new(
            sounding(voices).len(),
            |k: int|
                VoiceJob {
                    voice: sounding(voices)[k] as usize,
                    note_number: voices[sounding(voices)[k]].note_number,
                    start_sample_index: voices[sounding(voices)[k]].samples_elapsed_since_trigger,
                },
        )
    }
}

/// What the search from `start` finds is free and at or after `start`, and
/// no voice between `start` and it is free; it finds nothing only where no
/// voice from `start` on is free.
pub proof fn lemma_first_free_from(voices: Seq<Voice>, start: int)
    requires
        0 <= start,
    ensures
        match first_free_from(voices, start) {
            Some(slot) => {
                &&& start <= slot < voices.len()
                &&& voices[slot].is_free()
                &&& forall|j: int| start <= j < slot ==> !(#[trigger] voices[j]).is_free()
            },
            None => forall|j: int| start <= j < voices.len() ==> !(#[trigger] voices[j]).is_free(),
        },
    decreases voices.len() - start,
{
    if start < voices.len() && !voices[start].is_free() {
        lemma_first_free_from(voices, start + 1);
    }
}

/// The voice that a new note gets is a voice of the pool; it is free
/// wherever the pool has a free voice, and then no voice before it is free;
/// it is the first voice where none is free. Only an empty pool gives none.
pub proof fn lemma_slot_for_note(voices: Seq<Voice>)
    ensures
        match slot_for_note(voices) {
            Some(slot) => {
                &&& 0 <= slot < voices.len()
                &&& voices[slot].is_free() || slot == 0
                &&& voices[slot].is_free() <==> exists|j: int|
                    0 <= j < voices.len() && (#[trigger] voices[j]).is_free()
                &&& forall|j: int| 0 <= j < slot ==> !(#[trigger] voices[j]).is_free()
            },
            None => voices.len() == 0,
        },
{
    lemma_first_free_from(voices, 0);
}

/// A voice that was just activated is not handed out as free: after a
/// note-on the voice that got the note is not free, and the search for a
/// free voice does not find it.
pub proof fn lemma_activated_voice_is_not_found(
    voices: Seq<Voice>,
    note_number: u8,
    source: NoteSource,
)
    ensures
        slot_for_note(voices) matches Some(slot) ==> {
            &&& !after_note_on(voices, note_number, source)[slot].is_free()
            &&& sounds_note(after_note_on(voices, note_number, source)[slot], note_number, source)
            &&& first_free(after_note_on(voices, note_number, source)) != Some(slot)
        },
{
    lemma_slot_for_note(voices);
    lemma_first_free_from(after_note_on(voices, note_number, source), 0);
}

/// A note-off that follows the note-on of the same note and source
/// releases the voice that the note got: it is no longer active, and it
/// goes on sounding until its envelope has ended.
pub proof fn lemma_note_off_releases_what_note_on_started(
    voices: Seq<Voice>,
    note_number: u8,
    source: NoteSource,
)
    ensures
        slot_for_note(voices) matches Some(slot) ==> {
            &&& after_note_on(voices, note_number, source)[slot].active
            &&& !after_note_off(
                after_note_on(voices, note_number, source),
                note_number,
                source,
            )[slot].active
            &&& !after_note_off(
                after_note_on(voices, note_number, source),
                note_number,
                source,
            )[slot].is_free()
        },
{
    lemma_slot_for_note(voices);
}

/// No note event changes the size of the pool.
pub proof fn lemma_pool_keeps_its_size(voices: Seq<Voice>, events: Seq<NoteEvent>)
    ensures
        after_note_events(voices, events).len() == voices.len(),
    decreases events.len(),
{
    if events.len() > 0 {
        lemma_pool_keeps_its_size(voices, events.drop_last());
        lemma_slot_for_note(after_note_events(voices, events.drop_last()));
    }
}

/// After a note-off no voice sounds the note as an active voice: every
/// voice of that note and source is released, and all other voices are as
/// they were.
pub proof fn lemma_note_off_releases_the_note(
    voices: Seq<Voice>,
    note_number: u8,
    source: NoteSource,
)
    ensures
        forall|i: int|
            0 <= i < voices.len() && sounds_note(
                #[trigger] after_note_off(voices, note_number, source)[i],
                note_number,
                source,
            ) ==> !after_note_off(voices, note_number, source)[i].active,
        forall|i: int|
            0 <= i < voices.len() && !sounds_note(voices[i], note_number, source)
                ==> #[trigger] after_note_off(voices, note_number, source)[i] == voices[i],
{
}

/// The list of sounding voices holds exactly the voices that are not free,
/// in increasing order.
pub proof fn lemma_sounding_voices(voices: Seq<Voice>, upto: int)
    requires
        0 <= upto <= voices.len(),
    ensures
        forall|k: int|
            0 <= k < sounding_upto(voices, upto).len() ==> {
                &&& 0 <= (#[trigger] sounding_upto(voices, upto)[k]) < upto
                &&& !voices[sounding_upto(voices, upto)[k]].is_free()
            },
        forall|k: int, l: int|
            0 <= k < l < sounding_upto(voices, upto).len() ==> sounding_upto(voices, upto)[k]
                < sounding_upto(voices, upto)[l],
        forall|i: int|
            0 <= i < upto && !(#[trigger] voices[i]).is_free() ==> sounding_upto(
                voices,
                upto,
            ).contains(i),
    decreases upto,
{
    if upto > 0 {
        lemma_sounding_voices(voices, upto - 1);
        let before = sounding_upto(voices, upto - 1);
        let now = sounding_upto(voices, upto);
        if !voices[upto - 1].is_free() {
            assert(now == before.push(upto - 1));
            assert(now[before.len() as int] == upto - 1);
        }
        assert forall|i: int| 0 <= i < upto && !(#[trigger] voices[i]).is_free() implies now.contains(
            i,
        ) by {
            if i < upto - 1 {
                let k = choose|k: int| 0 <= k < before.len() && before[k] == i;
                assert(now[k] == i);
            }
        }
    }
}

/// An empty buffer asks for nothing and changes no voice, whatever the
/// pool holds; and a pool without a sounding voice has no job, whatever the
/// length of the buffer.
pub proof fn lemma_buffers_without_work(voices: Seq<Voice>, buffer_len: usize)
    ensures
        jobs_for_buffer(voices, 0).len() == 0,
        after_buffer(voices, 0) == voices,
        (forall|i: int| 0 <= i < voices.len() ==> (#[trigger] voices[i]).is_free()) ==> {
            &&& jobs_for_buffer(voices, buffer_len).len() == 0
            &&& after_buffer(voices, buffer_len) == voices
        },
{
    assert(after_buffer(voices, 0) =~= voices);
    if forall|i: int| 0 <= i < voices.len() ==> (#[trigger] voices[i]).is_free() {
        assert(after_buffer(voices, buffer_len) =~= voices);
        lemma_sounding_voices(voices, voices.len() as int);
        if sounding(voices).len() > 0 {
            let first = sounding(voices)[0];
            assert(!voices[first].is_free());
        }
    }
}

/// The synthesizer engine: the pool of voices, and the operators and the
/// algorithm that all voices share.
#[derive(Debug)]
pub struct SynthEngine {
    pub voices: Vec<Voice>,
    pub config: SynthConfig,
    pub buffer_size: usize,
    pub algorithm: Algorithm,
    pub operators: Vec<Operator>,
}

/// The waveform that operator `index` of a new engine plays: a triangle for
/// the first operator, a sawtooth for the second, a sine for all others.
pub open spec fn initial_waveform(index: int) -> Waveform {
    if index == 0 {
        Waveform::Triangle
    } else if index == 1 {
        Waveform::Sawtooth
    } else {
        Waveform::Sine
    }
}

impl SynthEngine {
    /// The engine is as it is built: the default configuration and buffer
    /// length, all voices free, the operators with their initial waveforms,
    /// and the first operator feeding back into itself as the only carrier.
    pub open spec fn is_new(&self) -> bool {
        &&& self.config.max_voices == DEFAULT_MAX_VOICES
        &&& self.config.operators_per_voice == DEFAULT_OPERATORS_PER_VOICE
        &&& self.buffer_size == DEFAULT_BUFFER_SIZE
        &&& self.voices@ == Seq::new(DEFAULT_MAX_VOICES as nat, |i: int| Voice::fresh())
        &&& self.operators@.len() == DEFAULT_OPERATORS_PER_VOICE
        &&& forall|i: int|
            0 <= i < self.operators@.len() ==> (#[trigger] self.operators@[i]).waveform()
                == initial_waveform(i)
        &&& self.algorithm@.matrix == with_connection(
            blank_matrix(DEFAULT_OPERATORS_PER_VOICE as nat),
            0,
            0,
            2,
        )
        &&& self.algorithm@.carriers == default_carriers(DEFAULT_OPERATORS_PER_VOICE as nat)
        &&& self.algorithm@.well_formed()
    }

    /// A new engine.
    pub fn new() -> (engine: Self)
        ensures
            engine.is_new(),
    {
        let config = SynthConfig::default();
        let mut operators: Vec<Operator> = Vec::new();
        let mut i: usize = 0;
        while i < config.operators_per_voice
            invariant
                i <= config.operators_per_voice,
                operators@.len() == i,
                forall|j: int| 0 <= j < i ==> (#[trigger] operators@[j]).waveform() == Waveform::Sine,
            decreases config.operators_per_voice - i,
        {
            operators.push(Operator::new());
            i += 1;
        }
        operators[0].set_waveform(Waveform::Triangle);
        operators[1].set_waveform(Waveform::Sawtooth);
        let algorithm = Algorithm::default_feedback_1(operators.len()).unwrap();
        let mut voices: Vec<Voice> = Vec::new();
        let mut v: usize = 0;
        while v < config.max_voices
            invariant
                v <= config.max_voices,
                voices@ == Seq::new(v as nat, |i: int| Voice::fresh()),
            decreases config.max_voices - v,
        {
            voices.push(Voice::new());
            v += 1;
        }
        Self { voices, config, buffer_size: DEFAULT_BUFFER_SIZE, algorithm, operators }
    }

    /// Everything but the voices is as it was before.
    pub open spec fn same_setup(&self, before: &SynthEngine) -> bool {
        &&& self.config == before.config
        &&& self.buffer_size == before.buffer_size
        &&& self.algorithm == before.algorithm
        &&& self.operators == before.operators
    }

    /// Index of the first free voice, if there is one.
    pub fn find_free_voice(&self) -> (slot: Option<usize>)
        ensures
            match slot {
                Some(index) => first_free(self.voices@) == Some(index as int),
                None => first_free(self.voices@) is None,
            },
    {
        let mut i: usize = 0;
        while i < self.voices.len()
            invariant
                i <= self.voices.len(),
                first_free(self.voices@) == first_free_from(self.voices@, i as int),
            decreases self.voices.len() - i,
        {
            if self.voices[i].is_finished() {
                return Some(i);
            }
            i += 1;
        }
        None
    }

    /// The voice that is taken away from its note where no voice is free:
    /// the first of the pool.
    pub fn steal_voice(&self) -> (slot: Option<usize>)
        ensures
            slot == if self.voices@.len() > 0 {
                Some(0usize)
            } else {
                None
            },
    {
        if self.voices.len() > 0 {
            Some(0)
        } else {
            None
        }
    }

    /// Starts a note: the first free voice is activated for it, or the
    /// stolen voice where none is free. Returns the index of that voice; an
    /// empty pool gives none and is not changed.
    pub fn note_on(&mut self, note_number: u8, source: NoteSource) -> (slot: Option<usize>)
        ensures
            final(self).voices@ == after_note_on(old(self).voices@, note_number, source),
            final(self).same_setup(old(self)),
            match slot {
                Some(index) => slot_for_note(old(self).voices@) == Some(index as int),
                None => slot_for_note(old(self).voices@) is None,
            },
    {
        proof {
            lemma_slot_for_note(self.voices@);
        }
        let slot = match self.find_free_voice() {
            Some(index) => Some(index),
            None => self.steal_voice(),
        };
        match slot {
            Some(index) => {
                self.voices[index].activate(note_number, Some(source));
            },
            None => {},
        }
        slot
    }

    /// Stops a note: every voice that still sounds the note of that source
    /// is released.
    pub fn note_off(&mut self, note_number: u8, source: NoteSource)
        ensures
            final(self).voices@ == after_note_off(old(self).voices@, note_number, source),
            final(self).same_setup(old(self)),
    {
        let mut i: usize = 0;
        while i < self.voices.len()
            invariant
                i <= self.voices.len(),
                self.voices@.len() == old(self).voices@.len(),
                self.same_setup(old(self)),
                forall|j: int|
                    0 <= j < i ==> #[trigger] self.voices@[j] == after_note_off(
                        old(self).voices@,
                        note_number,
                        source,
                    )[j],
                forall|j: int|
                    i <= j < self.voices@.len() ==> #[trigger] self.voices@[j] == old(self).voices@[j],
            decreases self.voices.len() - i,
        {
            let voice = &self.voices[i];
            let same_source = match voice.note_source {
                Some(held) => held == source,
                None => false,
            };
            if !voice.is_finished() && voice.note_number == note_number && same_source {
                self.voices[i].release();
            }
            i += 1;
        }
        assert(self.voices@ =~= after_note_off(old(self).voices@, note_number, source));
    }

    /// Applies one note event.
    pub fn handle_note_event(&mut self, event: NoteEvent)
        ensures
            final(self).voices@ == after_note_event(old(self).voices@, event),
            final(self).same_setup(old(self)),
    {
        if event.is_on {
            self.note_on(event.note_number, event.source);
        } else {
            self.note_off(event.note_number, event.source);
        }
    }

    /// Applies the note events that were queued since the last buffer, in
    /// their order.
    pub fn process_note_events(&mut self, events: &Vec<NoteEvent>)
        ensures
            final(self).voices@ == after_note_events(old(self).voices@, events@),
            final(self).voices@.len() == old(self).voices@.len(),
            final(self).same_setup(old(self)),
    {
        let mut k: usize = 0;
        while k < events.len()
            invariant
                k <= events.len(),
                self.same_setup(old(self)),
                self.voices@ == after_note_events(old(self).voices@, events@.take(k as int)),
            decreases events.len() - k,
        {
            assert(events@.take(k + 1).drop_last() == events@.take(k as int));
            self.handle_note_event(events[k]);
            k += 1;
        }
        assert(events@.take(events.len() as int) == events@);
        proof {
            lemma_pool_keeps_its_size(old(self).voices@, events@);
        }
    }

    /// Applies the operator events that were queued since the last buffer:
    /// each of them to every operator.
    pub fn process_operator_events(&mut self, events: &Vec<OperatorEvent>)
        ensures
            cycled_by(old(self).operators@, final(self).operators@, total_steps(events@)),
            final(self).voices == old(self).voices,
            final(self).config == old(self).config,
            final(self).buffer_size == old(self).buffer_size,
            final(self).algorithm == old(self).algorithm,
    {
        let ghost before = self.operators@;
        proof {
            assert forall|i: int| 0 <= i < before.len() implies (#[trigger] before[i]).waveform()
                == before[i].waveform().cycled(0) by {
                lemma_cycled_composes(before[i].waveform(), 0, 0);
            }
        }
        let mut k: usize = 0;
        while k < events.len()
            invariant
                k <= events.len(),
                before == old(self).operators@,
                cycled_by(before, self.operators@, total_steps(events@.take(k as int))),
                self.voices == old(self).voices,
                self.config == old(self).config,
                self.buffer_size == old(self).buffer_size,
                self.algorithm == old(self).algorithm,
            decreases events.len() - k,
        {
            let event = events[k];
            let ghost done = total_steps(events@.take(k as int));
            assert(events@.take(k + 1).drop_last() == events@.take(k as int));
            assert(total_steps(events@.take(k + 1)) == done + event.steps());
            let mut i: usize = 0;
            while i < self.operators.len()
                invariant
                    i <= self.operators.len(),
                    self.operators@.len() == before.len(),
                    forall|j: int|
                        0 <= j < i ==> (#[trigger] self.operators@[j]).waveform()
                            == before[j].waveform().cycled(done + event.steps()),
                    forall|j: int|
                        i <= j < self.operators@.len() ==> (#[trigger] self.operators@[j]).waveform()
                            == before[j].waveform().cycled(done),
                    self.voices == old(self).voices,
                    self.config == old(self).config,
                    self.buffer_size == old(self).buffer_size,
                    self.algorithm == old(self).algorithm,
                decreases self.operators.len() - i,
            {
                proof {
                    lemma_cycled_composes(before[i as int].waveform(), done, event.steps());
                }
                self.operators[i].apply_event(event);
                i += 1;
            }
            k += 1;
        }
        assert(events@.take(events.len() as int) == events@);
    }

    /// The voices that have a buffer to fill, by index and in order: those
    /// that are not free.
    pub fn sounding_voices(&self) -> (indices: Vec<usize>)
        ensures
            as_ints(indices@) == sounding(self.voices@),
    {
        let mut indices: Vec<usize> = Vec::new();
        let mut i: usize = 0;
        while i < self.voices.len()
            invariant
                i <= self.voices.len(),
                as_ints(indices@) == sounding_upto(self.voices@, i as int),
            decreases self.voices.len() - i,
        {
            let ghost before = indices@;
            if !self.voices[i].is_finished() {
                indices.push(i);
                assert(as_ints(indices@) =~= as_ints(before).push(i as int));
            }
            i += 1;
        }
        indices
    }

    /// Opens a buffer of `buffer_len` samples: every sounding voice accounts
    /// for it and gets a job. An empty buffer gives no job and changes
    /// nothing.
    pub fn start_buffer(&mut self, buffer_len: usize) -> (jobs: Vec<VoiceJob>)
        ensures
            jobs@ == jobs_for_buffer(old(self).voices@, buffer_len),
            final(self).voices@ == after_buffer(old(self).voices@, buffer_len),
            buffer_len == 0 ==> final(self).voices@ == old(self).voices@,
            final(self).same_setup(old(self)),
    {
        let mut jobs: Vec<VoiceJob> = Vec::new();
        if buffer_len == 0 {
            assert(self.voices@ =~= after_buffer(self.voices@, buffer_len));
            return jobs;
        }
        let ghost before = self.voices@;
        let mut i: usize = 0;
        while i < self.voices.len()
            invariant
                buffer_len > 0,
                i <= self.voices.len(),
                before == old(self).voices@,
                self.voices@.len() == before.len(),
                self.same_setup(old(self)),
                forall|j: int|
                    0 <= j < i ==> #[trigger] self.voices@[j] == before[j].after_buffer(buffer_len),
                forall|j: int| i <= j < before.len() ==> #[trigger] self.voices@[j] == before[j],
                jobs@.len() == sounding_upto(before, i as int).len(),
                forall|k: int|
                    0 <= k < jobs@.len() ==> {
                        &&& 0 <= (#[trigger] sounding_upto(before, i as int)[k]) < i
                        &&& jobs@[k] == VoiceJob {
                            voice: sounding_upto(before, i as int)[k] as usize,
                            note_number: before[sounding_upto(before, i as int)[k]].note_number,
                            start_sample_index: before[sounding_upto(
                                before,
                                i as int,
                            )[k]].samples_elapsed_since_trigger,
                        }
                    },
            decreases self.voices.len() - i,
        {
            let note_number = self.voices[i].note_number;
            let ghost held = jobs@;
            let ghost listed = sounding_upto(before, i as int);
            match self.voices[i].start_buffer(buffer_len) {
                Some(start_sample_index) => {
                    jobs.push(VoiceJob { voice: i, note_number, start_sample_index });
                    assert(sounding_upto(before, i + 1) == listed.push(i as int));
                    assert forall|k: int| 0 <= k < jobs@.len() implies {
                        &&& 0 <= (#[trigger] sounding_upto(before, i + 1)[k]) < i + 1
                        &&& jobs@[k] == VoiceJob {
                            voice: sounding_upto(before, i + 1)[k] as usize,
                            note_number: before[sounding_upto(before, i + 1)[k]].note_number,
                            start_sample_index: before[sounding_upto(
                                before,
                                i + 1,
                            )[k]].samples_elapsed_since_trigger,
                        }
                    } by {
                        if k < held.len() {
                            assert(listed[k] == sounding_upto(before, i + 1)[k]);
                        }
                    }
                },
                None => {
                    assert(sounding_upto(before, i + 1) == listed);
                },
            }
            i += 1;
        }
        assert(self.voices@ =~= after_buffer(before, buffer_len));
        assert(jobs@ =~= jobs_for_buffer(before, buffer_len));
        jobs
    }

    /// Starts the next buffer: the queued note events are applied first,
    /// then the queued operator events, and then the buffer is opened for
    /// the voices that sound. Returns the jobs of those voices.
    pub fn next_buffer(
        &mut self,
        note_events: &Vec<NoteEvent>,
        operator_events: &Vec<OperatorEvent>,
        buffer_len: usize,
    ) -> (jobs: Vec<VoiceJob>)
        ensures
            jobs@ == jobs_for_buffer(
                after_note_events(old(self).voices@, note_events@),
                buffer_len,
            ),
            final(self).voices@ == after_buffer(
                after_note_events(old(self).voices@, note_events@),
                buffer_len,
            ),
            final(self).voices@.len() == old(self).voices@.len(),
            cycled_by(
                old(self).operators@,
                final(self).operators@,
                total_steps(operator_events@),
            ),
            final(self).config == old(self).config,
            final(self).buffer_size == old(self).buffer_size,
            final(self).algorithm == old(self).algorithm,
    {
        self.process_note_events(note_events);
        self.process_operator_events(operator_events);
        self.start_buffer(buffer_len)
    }

    /// Records the buffer length that the audio device has settled on.
    pub fn set_buffer_size(&mut self, buffer_size: usize)
        ensures
            final(self).buffer_size == buffer_size,
            final(self).voices == old(self).voices,
            final(self).config == old(self).config,
            final(self).algorithm == old(self).algorithm,
            final(self).operators == old(self).operators,
    {
        self.buffer_size = buffer_size;
    }
}

impl Default for SynthEngine {
    fn default() -> (engine: Self)
        ensures
            engine.is_new(),
    {
        SynthEngine::new()
    }
}

} // verus!
