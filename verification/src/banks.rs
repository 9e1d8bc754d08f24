//! Banks of slices, each cut from an audio file of its own.

use vstd::prelude::*;

use crate::analysis::slicer::{
    ascending, make_slices, slices_made, Slice, MAX_SLICES, SLICES_PER_BANK,
};
use crate::audio::buffer::{AudioBuffer, Sound};
use crate::text::{
    chars_of, comes_before, decimal, decimal_of, in_order, is_before, lemma_order_is_total,
    lemma_order_is_transitive, lines_of, part_of, spells,
};
use crate::ui::input::{lower, to_lower};

verus! {

/// The slices that were cut from one file.
#[verifier::ext_equal]
pub struct Bank {
    pub file_name: Seq<char>,
    pub start_slice: int,
    pub slice_count: int,
}

/// Tracks what audio file is loaded in a bank range.
#[derive(Debug)]
pub struct BankEntry {
    pub file_name: String,
    pub start_slice: usize,
    pub slice_count: usize,
}

impl View for BankEntry {
    type V = Bank;

    open spec fn view(&self) -> Bank {
        Bank {
            file_name: self.file_name@,
            start_slice: self.start_slice as int,
            slice_count: self.slice_count as int,
        }
    }
}

impl Clone for BankEntry {
    fn clone(&self) -> (r: Self)
        ensures
            r@ == self@,
    {
        BankEntry {
            file_name: self.file_name.clone(),
            start_slice: self.start_slice,
            slice_count: self.slice_count,
        }
    }
}

/// The banks of a list of entries.
pub open spec fn banks_of(v: Seq<BankEntry>) -> Seq<Bank> {
    v.map_values(|e: BankEntry| e@)
}

/// The position of the last `.`.
pub open spec fn last_dot(name: Seq<char>) -> Option<int>
    decreases name.len(),
{
    if name.len() == 0 {
        None
    } else if name.last() == '.' {
        Some(name.len() - 1)
    } else {
        last_dot(name.drop_last())
    }
}

/// The extension of a file name: what follows the last `.`, unless nothing precedes that.
pub open spec fn extension(name: Seq<char>) -> Option<Seq<char>> {
    if name == ".."@ {
        None
    } else {
        match last_dot(name) {
            Some(p) => if p > 0 {
                Some(name.skip(p + 1))
            } else {
                None
            },
            None => None,
        }
    }
}

fn extension_of(name: &[char]) -> (r: Option<Vec<char>>)
    ensures
        match r {
            Some(e) => extension(name@) == Some(e@),
            None => extension(name@) is None,
        },
{
    if spells(name, "..") {
        return None;
    }
    let n = name.len();
    let mut i: usize = n;
    assert(name@.take(n as int) =~= name@);
    while i > 0
        invariant
            i <= n,
            n == name@.len(),
            name@ != ".."@,
            last_dot(name@) == last_dot(name@.take(i as int)),
        decreases i,
    {
        if name[i - 1] == '.' {
            if i == 1 {
                return None;
            }
            let e = part_of(name, i, n);
            assert(e@ =~= name@.skip(i as int));
            return Some(e);
        }
        assert(name@.take(i as int).drop_last() =~= name@.take(i - 1));
        i = i - 1;
    }
    None
}

/// A text in lower case, as far as its letters are those of ASCII.
pub open spec fn lower_text(s: Seq<char>) -> Seq<char> {
    s.map_values(|c: char| lower(c))
}

/// Whether a file of this name is taken for audio.
pub open spec fn named_as_audio(name: Seq<char>) -> bool {
    match extension(name) {
        Some(e) => {
            let low = lower_text(e);
            ||| low == "wav"@
            ||| low == "mp3"@
            ||| low == "flac"@
            ||| low == "ogg"@
            ||| low == "aac"@
            ||| low == "m4a"@
        },
        None => false,
    }
}

/// Whether a file of this name is taken for a saved pattern.
pub open spec fn named_as_yaml(name: Seq<char>) -> bool {
    match extension(name) {
        Some(e) => e == "yaml"@ || e == "yml"@,
        None => false,
    }
}

/// Whether a file is audio by the extension of its name, in upper or lower case.
pub fn is_audio_file(file_name: &str) -> (r: bool)
    ensures
        r == named_as_audio(file_name@),
{
    let name = chars_of(file_name);
    match extension_of(&name) {
        Some(e) => {
            let mut low: Vec<char> = Vec::new();
            let n = e.len();
            for i in 0..n
                invariant
                    n == e@.len(),
                    low@ == lower_text(e@).take(i as int),
            {
                low.push(to_lower(e[i]));
                assert(low@ =~= lower_text(e@).take(i + 1));
            }
            assert(low@ =~= lower_text(e@));
            spells(&low, "wav") || spells(&low, "mp3") || spells(&low, "flac") || spells(
                &low,
                "ogg",
            ) || spells(&low, "aac") || spells(&low, "m4a")
        },
        None => false,
    }
}

/// Whether a file is a saved pattern by the extension of its name.
pub fn is_yaml_file(file_name: &str) -> (r: bool)
    ensures
        r == named_as_yaml(file_name@),
{
    let name = chars_of(file_name);
    match extension_of(&name) {
        Some(e) => spells(&e, "yaml") || spells(&e, "yml"),
        None => false,
    }
}

/// The names that are those of audio files.
pub open spec fn audio_names(names: Seq<Seq<char>>) -> Seq<Seq<char>>
    decreases names.len(),
{
    if names.len() == 0 {
        Seq::empty()
    } else {
        let before = audio_names(names.drop_last());
        if named_as_audio(names.last()) {
            before.push(names.last())
        } else {
            before
        }
    }
}

/// Put `name` where it belongs among names in order.
fn insert_in_order(files: &mut Vec<String>, name: &String)
    requires
        in_order(lines_of(old(files)@)),
    ensures
        in_order(lines_of(final(files)@)),
        lines_of(final(files)@).to_multiset() == lines_of(old(files)@).to_multiset().insert(name@),
{
    let ghost before = lines_of(files@);
    let key = chars_of(name.as_str());
    let mut p: usize = files.len();
    assert(before.len() == files@.len());
    while p > 0 && is_before(&key, &chars_of(files[p - 1].as_str()))
        invariant
            p <= files@.len(),
            before == lines_of(files@),
            before.len() == files@.len(),
            key@ == name@,
            forall|j: int| p <= j < before.len() ==> comes_before(name@, #[trigger] before[j]),
        decreases p,
    {
        assert(before[p - 1] == files@[p - 1]@);
        p = p - 1;
    }
    proof {
        assert(p > 0 ==> before[p - 1] == files@[p - 1]@);
    }
    let copy = name.clone();
    files.insert(p, copy);
    let ghost after = before.insert(p as int, name@);
    proof {
        assert(lines_of(files@) =~= after);
        vstd::seq_lib::to_multiset_insert(before, p as int, name@);
        assert forall|i: int, j: int| 0 <= i < j < after.len() implies !comes_before(
            #[trigger] after[j],
            #[trigger] after[i],
        ) by {
            if i == p {
                let b = before[j - 1];
                assert(after[j] == b);
                lemma_order_is_total(name@, b);
            } else if j == p {
                let b = before[i];
                assert(after[i] == b);
                if i < p - 1 {
                    if comes_before(name@, b) {
                        let q = before[p - 1];
                        lemma_order_is_total(q, b);
                        if q != b {
                            assert(comes_before(b, q));
                            lemma_order_is_transitive(name@, b, q);
                        }
                    }
                }
            } else {
                let bi = if i < p {
                    i
                } else {
                    i - 1
                };
                let bj = if j < p {
                    j
                } else {
                    j - 1
                };
                assert(after[i] == before[bi] && after[j] == before[bj]);
            }
        }
    }
}

/// The audio files among `names`, in alphabetical order.
pub fn list_audio_files(names: &[String]) -> (files: Vec<String>)
    ensures
        in_order(lines_of(files@)),
        lines_of(files@).to_multiset() == audio_names(lines_of(names@)).to_multiset(),
{
    let mut files: Vec<String> = Vec::new();
    let n = names.len();
    proof {
        assert(lines_of(files@) =~= Seq::empty());
        assert(lines_of(names@).take(0) =~= Seq::empty());
    }
    for i in 0..n
        invariant
            n == names@.len(),
            in_order(lines_of(files@)),
            lines_of(files@).to_multiset() == audio_names(
                lines_of(names@).take(i as int),
            ).to_multiset(),
    {
        let ghost sofar = lines_of(names@).take(i as int);
        proof {
            assert(lines_of(names@).take(i + 1).drop_last() =~= sofar);
            assert(lines_of(names@)[i as int] == names@[i as int]@);
            vstd::seq_lib::to_multiset_build(audio_names(sofar), names@[i as int]@);
        }
        if is_audio_file(names[i].as_str()) {
            insert_in_order(&mut files, &names[i]);
        }
    }
    assert(lines_of(names@).take(n as int) =~= lines_of(names@));
    files
}

/// Why a file was not loaded into a bank.
#[derive(Debug, Clone, Copy, PartialEq, Eq, Structural)]
pub enum BankError {
    NoFreeBanks,
    NoSlices,
}

impl BankError {
    /// The words that describe the error.
    pub open spec fn words(self) -> Seq<char> {
        match self {
            BankError::NoFreeBanks => "No free banks available (all 320 slices used)"@,
            BankError::NoSlices => "No slices could be created from the audio file"@,
        }
    }

    /// The words that describe the error.
    pub fn message(&self) -> (s: &'static str)
        ensures
            s@ == self.words(),
    {
        match self {
            BankError::NoFreeBanks => "No free banks available (all 320 slices used)",
            BankError::NoSlices => "No slices could be created from the audio file",
        }
    }
}

/// All that is loaded: the audio of all files, one behind the other, its slices and its banks.
#[verifier::ext_equal]
pub struct Library {
    pub sound: Sound,
    pub slices: Seq<Slice>,
    pub banks: Seq<Bank>,
}

/// A slice `offset` samples later.
pub open spec fn later(s: Slice, offset: int) -> Slice {
    Slice { start: (s.start + offset) as usize, end: (s.end + offset) as usize }
}

/// Slices `offset` samples later.
pub open spec fn all_later(slices: Seq<Slice>, offset: int) -> Seq<Slice> {
    slices.map_values(|s: Slice| later(s, offset))
}

/// The first `n` slices, or all of them.
pub open spec fn at_most(slices: Seq<Slice>, n: int) -> Seq<Slice> {
    if slices.len() > n {
        slices.take(n)
    } else {
        slices
    }
}

impl Library {
    /// The slices that a new file adds: one bank of them, as far as there is room.
    pub open spec fn added(self, new: Sound, onsets: Seq<usize>) -> Seq<Slice> {
        at_most(slices_made(onsets, new.samples, 1), MAX_SLICES - self.slices.len())
    }

    /// What loading a new file gives: the number of slices added, or why none was.
    pub open spec fn outcome(self, new: Sound, onsets: Seq<usize>) -> Result<usize, BankError> {
        if self.slices.len() >= MAX_SLICES {
            Err(BankError::NoFreeBanks)
        } else if self.added(new, onsets).len() == 0 {
            Err(BankError::NoSlices)
        } else {
            Ok(self.added(new, onsets).len() as usize)
        }
    }

    /// All that is loaded once a new file is.
    pub open spec fn with_file(self, new: Sound, onsets: Seq<usize>) -> Library {
        let added = self.added(new, onsets);
        if self.outcome(new, onsets) is Ok {
            let banks = self.banks.push(
                Bank {
                    file_name: new.file_name,
                    start_slice: self.slices.len() as int,
                    slice_count: added.len() as int,
                },
            );
            Library {
                sound: Sound {
                    samples: self.sound.samples + new.samples,
                    file_name: if banks.len() > 1 {
                        decimal(banks.len()) + " files"@
                    } else {
                        self.sound.file_name
                    },
                    ..self.sound
                },
                slices: self.slices + all_later(added, self.sound.samples.len() as int),
                banks,
            }
        } else {
            self
        }
    }

    /// The banks follow one another without a gap, and cover all slices.
    pub open spec fn banked(self) -> bool {
        &&& self.banks.len() > 0
        &&& self.banks[0].start_slice == 0
        &&& self.banks.last().start_slice + self.banks.last().slice_count == self.slices.len()
        &&& forall|k: int|
            #![trigger self.banks[k]]
            0 <= k < self.banks.len() - 1 ==> self.banks[k].start_slice + self.banks[k].slice_count
                == self.banks[k + 1].start_slice
        &&& forall|k: int| 0 <= k < self.banks.len() ==> (#[trigger] self.banks[k]).slice_count >= 1
    }

    /// Every slice lies in the audio and is not empty.
    pub open spec fn sound_enough(self) -> bool {
        forall|i: int|
            0 <= i < self.slices.len() ==> (#[trigger] self.slices[i]).start < self.slices[i].end
                <= self.sound.samples.len()
    }
}

/// Whether there is room for more slices.
pub fn has_room(slices: &[Slice]) -> (r: bool)
    ensures
        r == (slices@.len() < MAX_SLICES),
{
    slices.len() < MAX_SLICES
}

proof fn lemma_made_within(onsets: Seq<usize>, samples: Seq<u32>)
    requires
        samples.len() <= usize::MAX,
        forall|i: int| 0 <= i < onsets.len() ==> #[trigger] onsets[i] <= samples.len(),
    ensures
        forall|i: int|
            0 <= i < slices_made(onsets, samples, 1).len() ==> (#[trigger] slices_made(
                onsets,
                samples,
                1,
            )[i]).start < slices_made(onsets, samples, 1)[i].end <= samples.len(),
{
    if samples.len() > 0 {
        crate::analysis::slicer::lemma_slices_contiguous(onsets, samples, 1);
        crate::analysis::slicer::lemma_slices_cover(onsets, samples, 1);
    }
}

/// Load an audio file into the next available bank slots. `new_buf` is the file's audio, at the
/// sample rate of what is loaded already, and `onsets` are the onsets detected in it.
pub fn load_bank(
    new_buf: &AudioBuffer,
    onsets: &[usize],
    audio_buf: &mut AudioBuffer,
    slices: &mut Vec<Slice>,
    bank_entries: &mut Vec<BankEntry>,
) -> (r: Result<usize, BankError>)
    requires
        ascending(onsets@),
        forall|i: int| 0 <= i < onsets@.len() ==> #[trigger] onsets@[i] <= new_buf.samples@.len(),
        old(audio_buf).samples@.len() + new_buf.samples@.len() <= usize::MAX,
    ensures
        ({
            let before = Library {
                sound: old(audio_buf)@,
                slices: old(slices)@,
                banks: banks_of(old(bank_entries)@),
            };
            let after = Library {
                sound: final(audio_buf)@,
                slices: final(slices)@,
                banks: banks_of(final(bank_entries)@),
            };
            &&& r == before.outcome(new_buf@, onsets@)
            &&& after == before.with_file(new_buf@, onsets@)
        }),
        r matches Ok(n) ==> n <= SLICES_PER_BANK,
{
    let ghost before = Library {
        sound: audio_buf@,
        slices: slices@,
        banks: banks_of(bank_entries@),
    };
    // Check if there's room for more slices
    let current_slices = slices.len();
    if current_slices >= MAX_SLICES {
        return Err(BankError::NoFreeBanks);
    }
    // Create slices for the new audio
    let new_slices = make_slices(onsets, &new_buf.samples, 1);
    proof {
        lemma_made_within(onsets@, new_buf.samples@);
    }
    // Limit slices to available space
    let available_slots = MAX_SLICES - current_slices;
    let slices_to_add = if new_slices.len() > available_slots {
        available_slots
    } else {
        new_slices.len()
    };
    let ghost added = before.added(new_buf@, onsets@);
    assert(added =~= new_slices@.take(slices_to_add as int));
    if slices_to_add == 0 {
        return Err(BankError::NoSlices);
    }
    // Add new slices behind the samples that are there
    let sample_offset = audio_buf.samples.len();
    let ghost moved = all_later(added, sample_offset as int);
    for i in 0..slices_to_add
        invariant
            slices_to_add <= new_slices@.len(),
            added == new_slices@.take(slices_to_add as int),
            moved == all_later(added, sample_offset as int),
            slices@ == before.slices + moved.take(i as int),
            sample_offset + new_buf.samples@.len() <= usize::MAX,
            forall|j: int|
                0 <= j < new_slices@.len() ==> (#[trigger] new_slices@[j]).start < new_slices@[j].end
                    <= new_buf.samples@.len(),
    {
        let s = new_slices[i];
        slices.push(Slice { start: s.start + sample_offset, end: s.end + sample_offset });
        assert(moved[i as int] == later(added[i as int], sample_offset as int));
        assert(slices@ =~= before.slices + moved.take(i + 1));
    }
    assert(moved.take(slices_to_add as int) =~= moved);
    // Append new samples to the buffer
    let n = new_buf.samples.len();
    for i in 0..n
        invariant
            n == new_buf.samples@.len(),
            audio_buf.samples@ == before.sound.samples + new_buf.samples@.take(i as int),
            audio_buf.sample_rate == before.sound.sample_rate,
            audio_buf.file_name@ == before.sound.file_name,
    {
        audio_buf.samples.push(new_buf.samples[i]);
        assert(audio_buf.samples@ =~= before.sound.samples + new_buf.samples@.take(i + 1));
    }
    assert(new_buf.samples@.take(n as int) =~= new_buf.samples@);
    // Track this bank entry
    let entry = BankEntry {
        file_name: new_buf.file_name.clone(),
        start_slice: current_slices,
        slice_count: slices_to_add,
    };
    let ghost new_bank = entry@;
    bank_entries.push(entry);
    assert(banks_of(bank_entries@) =~= before.banks.push(new_bank));
    // Update file_name to show multiple files
    let count = bank_entries.len();
    assert(banks_of(bank_entries@).len() == count);
    if count > 1 {
        let mut name = decimal_of(count as u128);
        name.append(" files");
        audio_buf.file_name = name;
    }
    Ok(slices_to_add)
}

/// A file that was loaded leaves all that was there before it in its place, behind which it puts
/// its own; one that was not loaded changes nothing.
pub proof fn lemma_load_adds_behind(l: Library, new: Sound, onsets: Seq<usize>)
    ensures
        ({
            let after = l.with_file(new, onsets);
            &&& l.sound.samples.is_prefix_of(after.sound.samples)
            &&& l.slices.is_prefix_of(after.slices)
            &&& l.banks.is_prefix_of(after.banks)
            &&& after.sound.sample_rate == l.sound.sample_rate
            &&& match l.outcome(new, onsets) {
                Ok(n) => after.slices.len() == l.slices.len() + l.added(new, onsets).len()
                    && after.banks.len() == l.banks.len() + 1,
                Err(_) => after == l,
            }
        }),
{
}

/// There are never more slices than the banks hold.
pub proof fn lemma_load_keeps_limit(l: Library, new: Sound, onsets: Seq<usize>)
    requires
        l.slices.len() <= MAX_SLICES,
    ensures
        l.with_file(new, onsets).slices.len() <= MAX_SLICES,
{
}

/// Loading keeps the banks one behind the other and the slices inside the audio.
pub proof fn lemma_load_keeps_order(l: Library, new: Sound, onsets: Seq<usize>)
    requires
        l.banked(),
        l.sound_enough(),
        l.sound.samples.len() + new.samples.len() <= usize::MAX,
        forall|i: int| 0 <= i < onsets.len() ==> #[trigger] onsets[i] <= new.samples.len(),
    ensures
        l.with_file(new, onsets).banked(),
        l.with_file(new, onsets).sound_enough(),
{
    let after = l.with_file(new, onsets);
    if l.outcome(new, onsets) is Ok {
        lemma_made_within(onsets, new.samples);
        let added = l.added(new, onsets);
        let offset = l.sound.samples.len() as int;
        assert forall|k: int| 0 <= k < after.banks.len() implies (
        #[trigger] after.banks[k]).slice_count >= 1 by {
            if k < l.banks.len() {
                assert(after.banks[k] == l.banks[k]);
            }
        }
        assert forall|k: int| 0 <= k < after.banks.len() - 1 implies (
        #[trigger] after.banks[k]).start_slice + after.banks[k].slice_count == after.banks[k
            + 1].start_slice by {
            assert(after.banks[k] == l.banks[k]);
            if k + 1 < l.banks.len() {
                assert(after.banks[k + 1] == l.banks[k + 1]);
            }
        }
        assert forall|i: int| 0 <= i < after.slices.len() implies (#[trigger] after.slices[i]).start
            < after.slices[i].end <= after.sound.samples.len() by {
            if i < l.slices.len() {
                assert(after.slices[i] == l.slices[i]);
            } else {
                let j = i - l.slices.len();
                assert(after.slices[i] == later(added[j], offset));
                assert(added[j] == slices_made(onsets, new.samples, 1)[j]);
            }
        }
    }
}

/// The extension of a name is what follows its last dot, where something stands before that dot; a
/// name without a dot has none.
pub proof fn lemma_extensions(base: Seq<char>, ext: Seq<char>)
    requires
        !ext.contains('.'),
    ensures
        base.len() > 0 && base.push('.') + ext != ".."@ ==> extension(base.push('.') + ext) == Some(ext),
        extension(seq!['.'] + ext) is None,
        extension(ext) is None,
        extension(".."@) is None,
{
    reveal_strlit("..");
    lemma_last_dot_behind(base.push('.'), ext);
    assert(base.push('.').drop_last() =~= base);
    assert((base.push('.') + ext).skip(base.len() as int + 1) =~= ext);
    lemma_last_dot_behind(seq!['.'], ext);
    assert(seq!['.'].last() == '.');
    lemma_last_dot_behind(Seq::empty(), ext);
    assert(Seq::<char>::empty() + ext =~= ext);
}

proof fn lemma_last_dot_behind(head: Seq<char>, ext: Seq<char>)
    requires
        !ext.contains('.'),
    ensures
        last_dot(head + ext) == last_dot(head),
    decreases ext.len(),
{
    if ext.len() == 0 {
        assert(head + ext =~= head);
    } else {
        let init = ext.drop_last();
        assert(!init.contains('.')) by {
            if init.contains('.') {
                let i = choose|i: int| 0 <= i < init.len() && init[i] == '.';
                assert(ext[i] == '.');
            }
        }
        lemma_last_dot_behind(head, init);
        assert((head + ext).drop_last() =~= head + init);
        assert(ext.last() == ext[ext.len() - 1]);
        assert((head + ext).last() == ext.last());
    }
}

/// Whether a text is `word` but for the case of its letters.
pub open spec fn spelled_as(text: Seq<char>, word: Seq<char>) -> bool {
    &&& text.len() == word.len()
    &&& forall|i: int|
        0 <= i < text.len() ==> #[trigger] text[i] == word[i] || ('A' <= text[i] <= 'Z' && text[i] as int
            + 32 == word[i] as int)
}

/// A file is audio by one of six extensions, in letters of either case, and a saved pattern by one of
/// two, in small letters; no other file is either.
pub proof fn lemma_files_by_extension(name: Seq<char>)
    ensures
        named_as_audio(name) <==> (extension(name) matches Some(e) && (spelled_as(e, "wav"@)
            || spelled_as(e, "mp3"@) || spelled_as(e, "flac"@) || spelled_as(e, "ogg"@) || spelled_as(
            e,
            "aac"@,
        ) || spelled_as(e, "m4a"@))),
        named_as_yaml(name) <==> extension(name) == Some("yaml"@) || extension(name) == Some("yml"@),
{
    if let Some(e) = extension(name) {
        reveal_strlit("wav");
        reveal_strlit("mp3");
        reveal_strlit("flac");
        reveal_strlit("ogg");
        reveal_strlit("aac");
        reveal_strlit("m4a");
        lemma_small_letters(e, "wav"@);
        lemma_small_letters(e, "mp3"@);
        lemma_small_letters(e, "flac"@);
        lemma_small_letters(e, "ogg"@);
        lemma_small_letters(e, "aac"@);
        lemma_small_letters(e, "m4a"@);
    }
}

proof fn lemma_small_letters(text: Seq<char>, word: Seq<char>)
    requires
        forall|i: int| 0 <= i < word.len() ==> !('A' <= #[trigger] word[i] <= 'Z'),
    ensures
        lower_text(text) == word <==> spelled_as(text, word),
{
    let low = lower_text(text);
    if low == word {
        assert forall|i: int| 0 <= i < text.len() implies #[trigger] text[i] == word[i] || ('A' <= text[i]
            <= 'Z' && text[i] as int + 32 == word[i] as int) by {
            assert(low[i] == lower(text[i]));
        }
    }
    if spelled_as(text, word) {
        assert forall|i: int| 0 <= i < low.len() implies low[i] == word[i] by {
            assert(low[i] == lower(text[i]));
            assert(!('A' <= word[i] <= 'Z'));
            if text[i] as int + 32 == word[i] as int {
                assert(lower(text[i]) as int == word[i] as int);
            }
        }
        assert(low =~= word);
    }
}

/// The audio files of a folder are those of its files that are audio, each as often as it is there.
pub proof fn lemma_which_files_are_listed(names: Seq<Seq<char>>, name: Seq<char>)
    ensures
        audio_names(names).to_multiset().count(name) == if named_as_audio(name) {
            names.to_multiset().count(name)
        } else {
            0
        },
    decreases names.len(),
{
    broadcast use vstd::multiset::group_multiset_axioms;

    if names.len() == 0 {
        assert(names =~= Seq::empty());
        vstd::seq_lib::to_multiset_len(names);
        assert(audio_names(names).to_multiset() == names.to_multiset());
        assert(names.to_multiset().len() == 0);
        assert(names.to_multiset().count(name) == 0) by {
            vstd::seq_lib::to_multiset_contains(names, name);
        }
    } else {
        let init = names.drop_last();
        lemma_which_files_are_listed(init, name);
        vstd::seq_lib::to_multiset_build(init, names.last());
        assert(init.push(names.last()) =~= names);
        vstd::seq_lib::to_multiset_build(audio_names(init), names.last());
    }
}

/// What loading a file does: with 320 slices there is no room for it; without samples there is
/// nothing to cut; else it adds the slices that one bank of it is cut into, as many as there is room
/// for, each moved behind the samples that are there already, and the samples behind those.
pub proof fn lemma_what_a_file_adds(l: Library, new: Sound, onsets: Seq<usize>, i: int)
    requires
        l.slices.len() <= 320,
        l.sound.samples.len() + new.samples.len() <= usize::MAX,
        forall|k: int| 0 <= k < onsets.len() ==> #[trigger] onsets[k] <= new.samples.len(),
    ensures
        ({
            let made = slices_made(onsets, new.samples, 1);
            let after = l.with_file(new, onsets);
            let room = 320 - l.slices.len();
            let n = if made.len() < room {
                made.len() as int
            } else {
                room
            };
            &&& l.outcome(new, onsets) == if room == 0 {
                Err::<usize, BankError>(BankError::NoFreeBanks)
            } else if new.samples.len() == 0 {
                Err(BankError::NoSlices)
            } else {
                Ok(n as usize)
            }
            &&& room > 0 && new.samples.len() > 0 ==> {
                &&& 1 <= n <= 16
                &&& after.sound.samples == l.sound.samples + new.samples
                &&& after.slices.len() == l.slices.len() + n
                &&& 0 <= i < n ==> {
                    let s = after.slices[l.slices.len() + i];
                    &&& s.start == made[i].start + l.sound.samples.len()
                    &&& s.end == made[i].end + l.sound.samples.len()
                }
                &&& after.banks.last().file_name == new.file_name
                &&& after.banks.last().start_slice == l.slices.len()
                &&& after.banks.last().slice_count == n
                &&& after.sound.file_name == if l.banks.len() > 0 {
                    decimal(l.banks.len() + 1) + " files"@
                } else {
                    l.sound.file_name
                }
            }
        }),
{
    let made = slices_made(onsets, new.samples, 1);
    let after = l.with_file(new, onsets);
    if new.samples.len() > 0 {
        crate::analysis::slicer::lemma_slices_contiguous(onsets, new.samples, 1);
        crate::analysis::slicer::lemma_slices_fit_banks(onsets, new.samples, 1);
        lemma_made_within(onsets, new.samples);
        let added = l.added(new, onsets);
        if 0 <= i < added.len() {
            assert(added[i] == made[i]);
            assert(after.slices[l.slices.len() + i] == later(added[i], l.sound.samples.len() as int));
        }
    }
}

/// The words for each error.
pub proof fn lemma_words_of_bank_errors()
    ensures
        BankError::NoFreeBanks.words() == "No free banks available (all 320 slices used)"@,
        BankError::NoSlices.words() == "No slices could be created from the audio file"@,
{
}

/// What it is for banks to follow one another: the first begins with the first slice, each begins where
/// the one before ends, none is empty, and the last ends with the last slice.
pub proof fn lemma_what_banked_means(l: Library, k: int)
    requires
        l.banked(),
        0 <= k < l.banks.len(),
    ensures
        l.banks[0].start_slice == 0,
        l.banks[k].slice_count >= 1,
        k + 1 < l.banks.len() ==> l.banks[k + 1].start_slice == l.banks[k].start_slice
            + l.banks[k].slice_count,
        k + 1 == l.banks.len() ==> l.slices.len() == l.banks[k].start_slice + l.banks[k].slice_count,
{
}

/// Every slice of a sound library has samples, and they are there.
pub proof fn lemma_what_sound_means(l: Library, i: int)
    requires
        l.sound_enough(),
        0 <= i < l.slices.len(),
    ensures
        l.slices[i].start < l.slices[i].end,
        l.slices[i].end <= l.sound.samples.len(),
{
}

} // verus!
