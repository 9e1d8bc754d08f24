use breaky::analysis::slicer::{make_slices, Slice, MAX_SLICES};
use breaky::audio::buffer::AudioBuffer;
use breaky::banks::{
    has_room, is_audio_file, is_yaml_file, list_audio_files, load_bank, BankEntry, BankError,
};

fn buffer(name: &str, n: usize) -> AudioBuffer {
    AudioBuffer {
        samples: vec![1.0f32.to_bits(); n],
        sample_rate: 44100,
        file_name: name.to_string(),
    }
}

fn strings(v: &[&str]) -> Vec<String> {
    v.iter().map(|s| s.to_string()).collect()
}

#[test]
fn audio_files_by_extension() {
    for name in ["a.wav", "b.MP3", "c.Flac", "d.ogg", "e.aac", "f.m4a", "two.dots.wav", "..wav"] {
        assert!(is_audio_file(name), "{}", name);
    }
    for name in ["", "wav", ".wav", "a.wav.txt", "a.", "a.mp4", "a.wave", "..", "a.wavé"] {
        assert!(!is_audio_file(name), "{}", name);
    }
}

#[test]
fn extensions_agree_with_the_standard_library() {
    for name in ["a.wav", ".wav", "..wav", "..", "a.", "x.y.yaml", "yaml", "a.YAML", ".a.yml", "a b.wav"] {
        let ext = std::path::Path::new(name).extension().and_then(|e| e.to_str());
        assert_eq!(is_audio_file(name), ext.map(|e| e.to_lowercase()) == Some("wav".to_string()));
        assert_eq!(is_yaml_file(name), matches!(ext, Some("yaml" | "yml")), "{}", name);
    }
}

#[test]
fn saved_patterns_by_extension() {
    assert!(is_yaml_file("amen.yaml"));
    assert!(is_yaml_file("amen.yml"));
    assert!(!is_yaml_file("amen.YAML"));
    assert!(!is_yaml_file(".yaml"));
    assert!(!is_yaml_file("amen.wav"));
}

#[test]
fn audio_files_are_listed_in_order() {
    let names = strings(&["snare.wav", "notes.txt", "Amen.WAV", "kick.mp3", "kick.flac", ".ogg"]);
    let listed = list_audio_files(&names);
    assert_eq!(listed, strings(&["Amen.WAV", "kick.flac", "kick.mp3", "snare.wav"]));
    assert!(list_audio_files(&[]).is_empty());
    let twice = list_audio_files(&strings(&["b.wav", "a.wav", "b.wav"]));
    assert_eq!(twice, strings(&["a.wav", "b.wav", "b.wav"]));
}

#[test]
fn a_bank_is_loaded_behind_the_others() {
    let mut audio = buffer("amen.wav", 3200);
    let mut slices = make_slices(&[0], &audio.samples, 2);
    let mut entries = vec![BankEntry {
        file_name: "amen.wav".to_string(),
        start_slice: 0,
        slice_count: 32,
    }];
    let added = load_bank(&buffer("think.wav", 1600), &[0], &mut audio, &mut slices, &mut entries);
    assert_eq!(added, Ok(16));
    assert_eq!(slices.len(), 48);
    assert_eq!(slices[31], Slice { start: 3100, end: 3200 });
    assert_eq!(slices[32], Slice { start: 3200, end: 3300 });
    assert_eq!(slices[47], Slice { start: 4700, end: 4800 });
    assert_eq!(audio.samples.len(), 4800);
    assert_eq!(audio.file_name, "2 files");
    assert_eq!(audio.sample_rate, 44100);
    let entry = entries[1].clone();
    assert_eq!((entry.file_name.as_str(), entry.start_slice, entry.slice_count), ("think.wav", 32, 16));
}

#[test]
fn the_first_bank_keeps_the_name() {
    let mut audio = buffer("none", 0);
    let mut slices = Vec::new();
    let mut entries = Vec::new();
    assert_eq!(load_bank(&buffer("a.wav", 160), &[0], &mut audio, &mut slices, &mut entries), Ok(16));
    assert_eq!(audio.file_name, "none");
}

#[test]
fn slices_are_limited_to_the_room_there_is() {
    let mut audio = buffer("amen.wav", 1000);
    let mut slices = vec![Slice { start: 0, end: 10 }; MAX_SLICES - 5];
    let mut entries = Vec::new();
    assert!(has_room(&slices));
    assert_eq!(load_bank(&buffer("b.wav", 1600), &[0], &mut audio, &mut slices, &mut entries), Ok(5));
    assert_eq!(slices.len(), MAX_SLICES);
    assert_eq!(entries[0].slice_count, 5);
    assert_eq!(audio.samples.len(), 2600);
    assert!(!has_room(&slices));
}

#[test]
fn no_room_no_bank() {
    let mut audio = buffer("amen.wav", 10);
    let mut slices = vec![Slice { start: 0, end: 10 }; MAX_SLICES];
    let mut entries = Vec::new();
    let r = load_bank(&buffer("b.wav", 1600), &[0], &mut audio, &mut slices, &mut entries);
    assert_eq!(r, Err(BankError::NoFreeBanks));
    assert_eq!(BankError::NoFreeBanks.message(), "No free banks available (all 320 slices used)");
    assert_eq!((audio.samples.len(), slices.len(), entries.len()), (10, MAX_SLICES, 0));
}

#[test]
fn no_samples_no_bank() {
    let mut audio = buffer("amen.wav", 10);
    let mut slices = Vec::new();
    let mut entries = Vec::new();
    let r = load_bank(&buffer("b.wav", 0), &[0], &mut audio, &mut slices, &mut entries);
    assert_eq!(r, Err(BankError::NoSlices));
    assert_eq!(BankError::NoSlices.message(), "No slices could be created from the audio file");
    assert_eq!((audio.samples.len(), slices.len(), entries.len()), (10, 0, 0));
}

#[test]
fn a_file_fills_one_bank_at_most() {
    let mut audio = buffer("amen.wav", 0);
    let mut slices = Vec::new();
    let mut entries = Vec::new();
    let r = load_bank(&buffer("late.wav", 160), &[2, 30], &mut audio, &mut slices, &mut entries);
    assert_eq!(r, Ok(16));
    assert_eq!((slices.len(), entries[0].slice_count), (16, 16));
    assert_eq!(slices[0], Slice { start: 0, end: 10 });
}
