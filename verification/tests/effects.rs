use breaky::engine::effects::{
    compute_effect_sequence, find_next_occurrence, process_command_segment, Level, StepEffects,
};
use breaky::text::chars_of;

fn effects_of(line: &str) -> Vec<StepEffects> {
    compute_effect_sequence(&[line.to_string()])
}

fn level(l: Level) -> (usize, usize) {
    (l.num, l.den)
}

fn bytes_of(levels: Vec<Level>) -> Vec<u64> {
    levels.iter().map(|l| l.to_byte()).collect()
}

fn up(num: usize, den: usize) -> Level {
    Level { num, den, falls: false, of_span: false }
}

#[test]
fn no_commands_no_effects() {
    for e in effects_of("qwer") {
        assert_eq!(e, StepEffects::default());
    }
    assert_eq!(effects_of("").len(), 0);
}

#[test]
fn the_readme_line() {
    let e = effects_of("asdfghjk:--*-----:----R---");
    let distorted: Vec<bool> = e.iter().map(|e| e.distortion).collect();
    assert_eq!(distorted, vec![false, false, true, true, true, true, true, true]);
    let reversed: Vec<bool> = e.iter().map(|e| e.reverse).collect();
    assert_eq!(reversed, vec![false, false, false, false, true, false, false, false]);
}

#[test]
fn switches_last_one_step() {
    let e = effects_of("qwer:~R--");
    assert!(e[0].stutter && !e[1].stutter && !e[2].stutter);
    assert!(!e[0].reverse && e[1].reverse && !e[2].reverse);
}

#[test]
fn a_dash_repeats_a_toggle() {
    let e = effects_of("qwer:L---");
    assert!(e.iter().all(|e| e.lowpass && level(e.lowpass_mix) == (1, 1)));
    let h = effects_of("qwer:-H--");
    assert!(!h[0].highpass && h[1].highpass && h[3].highpass);
}

#[test]
fn a_cut_stops_a_toggle() {
    let e = effects_of("qwertyui:L--^----");
    let on: Vec<bool> = e.iter().map(|e| e.lowpass).collect();
    assert_eq!(on, vec![true, true, true, false, false, false, false, false]);
}

#[test]
fn a_toggle_fades_in() {
    let e = effects_of("qwertyui:L<------");
    let mixes: Vec<(usize, usize)> = e.iter().map(|e| level(e.lowpass_mix)).collect();
    assert_eq!(mixes, (0..8).map(|k| (k, 7)).collect::<Vec<_>>());
    assert!(e.iter().all(|e| e.lowpass));
}

#[test]
fn a_fade_in_ends_at_the_next_marker() {
    let e = effects_of("qwertyui:L<--L---");
    let bytes = bytes_of(e.iter().map(|e| e.lowpass_mix).collect());
    assert_eq!(bytes, vec![0, 63, 127, 191, 255, 255, 255, 255]);
}

#[test]
fn a_toggle_fades_out_to_its_marker() {
    let e = effects_of("qwertyui:*>-*----");
    let on: Vec<bool> = e.iter().map(|e| e.distortion).collect();
    assert_eq!(on, vec![true, true, true, true, false, false, false, false]);
    let bytes = bytes_of(e.iter().take(4).map(|e| e.distortion_mix).collect());
    // In single precision 1 - 1/3 and 1 - 2/3 lie just below two thirds and one third.
    assert_eq!(bytes, vec![255, 169, 84, 0]);
}

#[test]
fn falling_levels_are_those_of_single_precision() {
    for n in 1usize..300 {
        for k in 0..=n {
            let expected = ((1.0 - k as f32 / n as f32) * 255.0) as u64 & 0xFF;
            let l = Level { num: n - k, den: n, falls: true, of_span: false };
            assert_eq!(l.to_byte(), expected, "1 - {}/{}", k, n);
        }
    }
}

#[test]
fn rising_levels_are_those_of_single_precision() {
    for n in 1usize..300 {
        for k in 0..=n {
            let expected = ((k as f32 / n as f32) * 255.0) as u64 & 0xFF;
            assert_eq!(up(k, n).to_byte(), expected, "{}/{}", k, n);
        }
    }
}

#[test]
fn long_ramps_have_the_levels_of_single_precision() {
    // The fraction lies below 254 of 255, and is rounded to it.
    assert_eq!(up(152653, 153254).to_byte(), 254);
    for n in [32768usize, 153254, 1_000_003, 16_777_215, 16_777_217, 123_456_789, usize::MAX - 1] {
        for part in 0..=1000usize {
            for k in [(n / 1000) * part, n - (n / 1000) * part] {
                let rise = ((k as f32 / n as f32) * 255.0) as u64 & 0xFF;
                assert_eq!(up(k, n).to_byte(), rise, "{}/{}", k, n);
                let fall = ((1.0 - k as f32 / n as f32) * 255.0) as u64 & 0xFF;
                let l = Level { num: n - k, den: n, falls: true, of_span: false };
                assert_eq!(l.to_byte(), fall, "1 - {}/{}", k, n);
            }
        }
    }
}

#[test]
fn ramps_of_a_rounded_span_have_the_levels_of_single_precision() {
    for n in [1usize, 2, 3, 100, 16_777_215, 16_777_216, 16_777_217, 50_000_001, usize::MAX] {
        let last = (n as f64 + 1.0) as f32 - 1.0;
        for part in 0..=50usize {
            let k = (n / 50) * part;
            let rise = ((k as f32 / last) * 255.0) as u64 & 0xFF;
            let l = Level { num: k, den: n, falls: false, of_span: true };
            assert_eq!(l.to_byte(), rise, "{}/{}", k, n);
            let fall = ((1.0 - k as f32 / last) * 255.0) as u64 & 0xFF;
            let l = Level { num: n - k, den: n, falls: true, of_span: true };
            assert_eq!(l.to_byte(), fall, "1 - {}/{}", k, n);
        }
    }
}

#[test]
fn a_byte_is_the_byte_of_its_level() {
    for b in 0..256usize {
        assert_eq!(up(b, 255).to_byte(), b as u64);
        assert_eq!(up(b, 255).is_positive(), b > 0);
    }
}

#[test]
fn volume_fades_to_the_end_of_the_line() {
    let out = effects_of("qwer:\\---");
    assert_eq!(bytes_of(out.iter().map(|e| e.fade_out).collect()), vec![255, 169, 84, 0]);
    let inn = effects_of("qwer:-/--");
    assert_eq!(bytes_of(inn.iter().map(|e| e.fade_in).collect()), vec![0, 0, 127, 255]);
}

#[test]
fn a_fade_on_the_last_step_is_full() {
    assert_eq!(level(effects_of("qw:-\\")[1].fade_out), (1, 1));
    assert_eq!(level(effects_of("qw:-/")[1].fade_in), (1, 1));
    assert!(effects_of("qw:-/")[1].fade_in.is_positive());
    assert!(!effects_of("qw:-/")[0].fade_in.is_positive());
}

#[test]
fn speed_between_markers() {
    let e = effects_of("qwertyui:-(--)-[-");
    let half: Vec<bool> = e.iter().map(|e| e.half_speed).collect();
    assert_eq!(half, vec![false, true, true, true, false, false, false, false]);
    let double: Vec<bool> = e.iter().map(|e| e.double_speed).collect();
    assert_eq!(double, vec![false, false, false, false, false, false, true, true]);
}

#[test]
fn pitch_and_bank() {
    let e = effects_of("qwer:qa3-");
    assert_eq!(e.iter().map(|e| e.pitch_cents).collect::<Vec<_>>(), vec![100, -100, 0, 0]);
    assert_eq!(e.iter().map(|e| e.bank).collect::<Vec<_>>(), vec![0, 0, 3, 0]);
}

#[test]
fn effects_reset_on_every_line() {
    let lines = ["qwer:L---".to_string(), "asdf".to_string()];
    let e = compute_effect_sequence(&lines);
    assert_eq!(e.len(), 8);
    assert!(e[3].lowpass);
    assert!(e[4..].iter().all(|e| *e == StepEffects::default()));
}

#[test]
fn segments_of_other_lengths() {
    let short = effects_of("qwer:L-");
    assert_eq!(short.iter().map(|e| e.lowpass).collect::<Vec<_>>(), vec![true, true, false, false]);
    let long = effects_of("qw:---R");
    assert!(long.iter().all(|e| !e.reverse));
}

#[test]
fn dashes_alone_do_nothing() {
    assert_eq!(effects_of("qwer:R-L-:----"), effects_of("qwer:R-L-"));
    let mut e = effects_of("qwer:R-L-");
    let before = e.clone();
    process_command_segment(&chars_of("----"), &mut e);
    assert_eq!(e, before);
}

#[test]
fn occurrences_from_a_place_on() {
    let cmd = chars_of("L--L-H");
    assert_eq!(find_next_occurrence(&cmd, 'L', 0), Some(0));
    assert_eq!(find_next_occurrence(&cmd, 'L', 1), Some(3));
    assert_eq!(find_next_occurrence(&cmd, 'L', 4), None);
    assert_eq!(find_next_occurrence(&cmd, 'H', 99), None);
}

#[test]
fn packed_effects_have_their_bits() {
    let mut e = StepEffects::default();
    assert_eq!(e.pack(), 0);
    e.reverse = true;
    e.double_speed = true;
    assert_eq!(e.pack(), 1 | 1 << 6);
    e.lowpass_mix = up(1, 1);
    e.fade_out = up(1, 2);
    assert_eq!(e.pack(), 1 | 1 << 6 | 255 << 15 | 127 << 39);
    let shifted = StepEffects { pitch_cents: -300, ..StepEffects::default() };
    assert_eq!(shifted.pack(), (65536 - 300) << 47);
}

#[test]
fn effects_survive_packing() {
    let e = StepEffects {
        reverse: true,
        stutter: true,
        highpass: true,
        highpass_mix: up(100, 255),
        fade_in: up(3, 255),
        pitch_cents: 1000,
        ..StepEffects::default()
    };
    let back = StepEffects::unpack(e.pack());
    assert!(back.reverse && back.stutter && back.highpass && !back.lowpass);
    assert_eq!(level(back.highpass_mix), (100, 255));
    assert_eq!(level(back.fade_in), (3, 255));
    assert_eq!(back.pitch_cents, 1000);
    assert_eq!(back.pack(), e.pack());
}

#[test]
fn every_pitch_survives_packing() {
    for cents in (-900..=1000).step_by(100) {
        let e = StepEffects { pitch_cents: cents, ..StepEffects::default() };
        assert_eq!(StepEffects::unpack(e.pack()).pitch_cents, cents);
    }
}

#[test]
fn packing_keeps_every_word() {
    for v in [0u64, 1, 0x7F, 0x1234_5678_9ABC_DEF0 >> 1, 0x7FFF_FFFF_FFFF_FFFF] {
        assert_eq!(StepEffects::unpack(v).pack(), v);
    }
}
