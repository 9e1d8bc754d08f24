use breaky::config::BreakConfig;
use breaky::engine::state::PlaybackState;
use breaky::number::{Num32, Num64, Range32, Range64};
use breaky::text::chars_of;
use breaky::variables::{
    set_var_f32, set_var_f64, try_variable_command, variable_value, Reading, VarResult, Variables,
};

fn num32(v: f32) -> Num32 {
    Num32 { bits: v.to_bits(), text: v.to_string() }
}

fn num64(v: f64) -> Num64 {
    Num64 { bits: v.to_bits(), single: (v as f32).to_bits(), text: v.to_string() }
}

fn config() -> BreakConfig {
    BreakConfig::default_for("amen.wav", num64(136.5))
}

fn reading(text: &str) -> Reading {
    Reading {
        single: text.parse::<f32>().map(num32).map_err(|e| e.to_string()),
        double: text.parse::<f64>().map(num64).map_err(|e| e.to_string()),
    }
}

/// Run a command, and say what comes back: the kind of answer, and its words.
fn run(cmd: &str, vars: &mut Variables) -> (char, String) {
    let chars = chars_of(cmd);
    let value: String = variable_value(&chars).unwrap_or_default().into_iter().collect();
    match try_variable_command(&chars, &reading(&value), vars) {
        Some(VarResult::Show(m)) => ('?', m),
        Some(VarResult::Assigned(m)) => ('=', m),
        Some(VarResult::Error(m)) => ('!', m),
        None => ('-', String::new()),
    }
}

fn answer(kind: char, words: &str) -> (char, String) {
    (kind, words.to_string())
}

#[test]
fn defaults() {
    let v = Variables::from_config(&config());
    assert_eq!(v.bpm.bits, 136.5f64.to_bits());
    assert_eq!((v.lp.bits, v.lp.text.as_str()), (800.0f32.to_bits(), "800"));
    assert_eq!((v.hp.bits, v.hp.text.as_str()), (2000.0f32.to_bits(), "2000"));
    assert_eq!((v.dist.bits, v.dist.text.as_str()), (0.2f32.to_bits(), "0.2"));
    assert_eq!((v.fade.bits, v.fade.text.as_str()), (0.5f32.to_bits(), "0.5"));
    assert_eq!((v.slow.bits, v.slow.single), (0.5f64.to_bits(), 0.5f32.to_bits()));
    assert_eq!((v.fast.bits, v.fast.single), (2.0f64.to_bits(), 2.0f32.to_bits()));
    assert_eq!((v.slow.text.as_str(), v.fast.text.as_str(), v.stutter), ("0.5", "2", 16));
}

#[test]
fn given_values_are_taken() {
    let mut c = config();
    c.lp = Some(num32(440.0));
    c.fast = Some(num64(3.0));
    c.stutter = Some(4);
    let v = Variables::from_config(&c);
    assert_eq!(v.lp.bits, 440.0f32.to_bits());
    assert_eq!(v.fast.bits, 3.0f64.to_bits());
    assert_eq!(v.stutter, 4);
}

#[test]
fn variables_tune_the_playback_state() {
    let v = Variables::from_config(&config());
    let mut s = PlaybackState::new();
    v.sync_to_state(&mut s);
    assert_eq!(s.lp_cutoff, 800.0f32.to_bits());
    assert_eq!(s.hp_cutoff, 2000.0f32.to_bits());
    assert_eq!(s.dist_amount, 0.2f32.to_bits());
    assert_eq!(s.fade_point, 0.5f32.to_bits());
    assert_eq!((s.slow_ratio, s.fast_ratio), (0.5f32.to_bits(), 2.0f32.to_bits()));
    assert!(!s.playing);
}

#[test]
fn defaults_are_not_saved() {
    let v = Variables::from_config(&config());
    let mut c = config();
    c.lp = Some(num32(1.0));
    c.stutter = Some(3);
    v.apply_to_config(&mut c);
    assert!(c.lp.is_none() && c.hp.is_none() && c.dist.is_none() && c.fade.is_none());
    assert!(c.slow.is_none() && c.fast.is_none() && c.stutter.is_none());
}

#[test]
fn changes_are_saved_and_come_back() {
    let mut v = Variables::from_config(&config());
    v.lp = num32(440.0);
    v.dist = num32(0.7);
    v.slow = num64(0.25);
    v.stutter = 8;
    v.bpm = num64(90.0);
    let mut c = config();
    v.apply_to_config(&mut c);
    let back = Variables::from_config(&c);
    assert_eq!(back.bpm.bits, 90.0f64.to_bits());
    assert_eq!(back.lp.bits, 440.0f32.to_bits());
    assert_eq!(back.dist.bits, 0.7f32.to_bits());
    assert_eq!(back.slow.bits, 0.25f64.to_bits());
    assert_eq!(back.stutter, 8);
    assert!(c.hp.is_none() && c.fade.is_none() && c.fast.is_none());
}

#[test]
fn what_differs_is_what_the_epsilon_says() {
    let around32 = |mid: f32| {
        (-20i32..=20).map(move |d| f32::from_bits((mid.to_bits() as i32 + d) as u32))
    };
    let mut c = config();
    let mut v = Variables::from_config(&c);
    for x in around32(0.2).chain([0.0, -0.2, f32::NAN, f32::INFINITY]) {
        v.dist = num32(x);
        v.apply_to_config(&mut c);
        assert_eq!(c.dist.is_some(), (x - 0.2f32).abs() > f32::EPSILON, "{}", x);
    }
    for x in around32(0.5).chain([1.0, f32::NAN]) {
        v.fade = num32(x);
        v.apply_to_config(&mut c);
        assert_eq!(c.fade.is_some(), (x - 0.5f32).abs() > f32::EPSILON, "{}", x);
    }
    for x in around32(800.0) {
        v.lp = num32(x);
        v.apply_to_config(&mut c);
        assert_eq!(c.lp.is_some(), (x - 800.0f32).abs() > f32::EPSILON, "{}", x);
    }
    for d in -20i64..=20 {
        let x = f64::from_bits((0.5f64.to_bits() as i64 + d) as u64);
        v.slow = num64(x);
        let y = f64::from_bits((2.0f64.to_bits() as i64 + d) as u64);
        v.fast = num64(y);
        v.apply_to_config(&mut c);
        assert_eq!(c.slow.is_some(), (x - 0.5).abs() > f64::EPSILON, "{}", x);
        assert_eq!(c.fast.is_some(), (y - 2.0).abs() > f64::EPSILON, "{}", y);
    }
}

#[test]
fn variables_are_shown() {
    let mut v = Variables::from_config(&config());
    assert_eq!(run("bpm", &mut v), answer('?', "bpm = 136.5"));
    assert_eq!(run("lp", &mut v), answer('?', "lp = 800 Hz"));
    assert_eq!(run(" hp ", &mut v), answer('?', "hp = 2000 Hz"));
    assert_eq!(run("dist", &mut v), answer('?', "dist = 0.2"));
    assert_eq!(run("fade", &mut v), answer('?', "fade = 0.5"));
    assert_eq!(run("slow", &mut v), answer('?', "slow = 0.5"));
    assert_eq!(run("fast", &mut v), answer('?', "fast = 2"));
    assert_eq!(run("stutter", &mut v), answer('?', "stutter = 16"));
}

#[test]
fn variables_are_set() {
    let mut v = Variables::from_config(&config());
    assert_eq!(run("bpm= 90.5 ", &mut v), answer('=', "bpm = 90.5"));
    assert_eq!(v.bpm.bits, 90.5f64.to_bits());
    assert_eq!(run("lp=440", &mut v), answer('=', "lp = 440 Hz"));
    assert_eq!(v.lp.bits, 440.0f32.to_bits());
    assert_eq!(run("dist=1", &mut v), answer('=', "dist = 1"));
    assert_eq!(run("fade=1", &mut v), answer('=', "fade = 1"));
    assert_eq!(run("slow=0.75", &mut v), answer('=', "slow = 0.75"));
    assert_eq!(run("fast=10", &mut v), answer('=', "fast = 10"));
    assert_eq!(run("stutter=2", &mut v), answer('=', "stutter = 2"));
    assert_eq!(v.stutter, 2);
}

#[test]
fn values_out_of_range_are_refused() {
    let mut v = Variables::from_config(&config());
    assert_eq!(run("bpm=0.99", &mut v), answer('!', "bpm: must be >= 1.0"));
    assert_eq!(run("lp=0", &mut v), answer('!', "lp: must be > 0.0"));
    assert_eq!(run("hp=-1", &mut v), answer('!', "hp: must be > 0.0"));
    assert_eq!(run("dist=1.5", &mut v), answer('!', "dist: must be 0.0-1.0"));
    assert_eq!(run("fade=0", &mut v), answer('!', "fade: must be > 0.0 and <= 1.0"));
    assert_eq!(run("slow=1", &mut v), answer('!', "slow: must be > 0.0 and < 1.0"));
    assert_eq!(run("fast=0.5", &mut v), answer('!', "fast: must be 1.0-10.0"));
    assert_eq!(run("stutter=17", &mut v), answer('!', "stutter: must be 2-16"));
    assert_eq!(run("bpm=NaN", &mut v), answer('!', "bpm: must be >= 1.0"));
    assert_eq!(v.bpm.bits, 136.5f64.to_bits());
    assert_eq!(v.stutter, 16);
}

#[test]
fn values_that_are_no_numbers_are_refused() {
    let mut v = Variables::from_config(&config());
    assert_eq!(run("bpm=fast", &mut v), answer('!', "bpm: invalid float literal"));
    assert_eq!(run("lp=", &mut v), answer('!', "lp: cannot parse float from empty string"));
    assert_eq!(run("stutter=x", &mut v), answer('!', "stutter: invalid digit found in string"));
    assert_eq!(
        run("stutter=", &mut v),
        answer('!', "stutter: cannot parse integer from empty string")
    );
    assert_eq!(
        run("stutter=99999999999", &mut v),
        answer('!', "stutter: number too large to fit in target type")
    );
}

#[test]
fn other_names_are_no_variables() {
    let mut v = Variables::from_config(&config());
    assert_eq!(run("bpm =90", &mut v), answer('-', ""));
    assert_eq!(run("tempo", &mut v), answer('-', ""));
    assert_eq!(run("", &mut v), answer('-', ""));
    assert_eq!(v.bpm.bits, 136.5f64.to_bits());
}

#[test]
fn the_value_is_behind_the_first_equals_sign() {
    assert_eq!(variable_value(&chars_of("a= b=c ")), Some(chars_of("b=c")));
    assert_eq!(variable_value(&chars_of("a=")), Some(Vec::new()));
    assert_eq!(variable_value(&chars_of("a")), None);
}

#[test]
fn one_variable_at_a_time() {
    let range = Range32 { least: 0, with_least: false, greatest: None };
    let mut field = num32(3.0);
    let shown = set_var_f32("x", None, &mut field, range, "no", " u");
    assert_eq!(shown.into_message(), "x = 3 u");
    let bad = set_var_f32("x", Some(&Ok(num32(-1.0))), &mut field, range, "no", " u");
    assert_eq!(bad.into_message(), "x: no");
    let worse = set_var_f32("x", Some(&Err("why".to_string())), &mut field, range, "no", " u");
    assert_eq!(worse.into_message(), "x: why");
    assert_eq!(field.bits, 3.0f32.to_bits());
    let good = set_var_f32("x", Some(&Ok(num32(4.0))), &mut field, range, "no", " u");
    assert_eq!(good.into_message(), "x = 4 u");
    assert_eq!(field.bits, 4.0f32.to_bits());
    let wide = Range64 { least: 0, with_least: true, greatest: None, with_greatest: false };
    let mut double = num64(1.0);
    let set = set_var_f64("y", Some(&Ok(num64(2.5))), &mut double, wide, "no");
    assert_eq!(set.into_message(), "y = 2.5");
    assert_eq!(double.bits, 2.5f64.to_bits());
}
