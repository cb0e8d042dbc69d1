use flute_well::{
    input_for_midi, keys_for_midi, mapped_inputs, press_steps, Input, PressError, Step, PLAY_KEY,
    SETTLE_US, WHOLE,
};

fn to_us(ms: f64) -> u64 {
    (ms * 1000.0).round() as u64
}

fn to_share(articulation: f64) -> u32 {
    (articulation * WHOLE as f64).round() as u32
}

fn key_press(_input: &Input, hold_ms: f64, articulation: f64) -> Result<Vec<Step>, PressError> {
    press_steps(to_us(hold_ms), to_share(articulation))
}

#[test]
fn press_play_key() {
    let art = 1.0;

    let input = Input { keys: &[PLAY_KEY], note_label: "test_play" };

    assert!(key_press(&input, 2000.0, art).is_ok());
}

#[test]
fn play_full_range() {
    let art = 0.95;

    let mut delay_ms = 840.0;
    for n in 0..5 {
        if n > 0 {
            delay_ms /= 2.0;
        }
        for entry in mapped_inputs() {
            assert!(key_press(&entry.1, delay_ms, art).is_ok());
        }
        for entry in mapped_inputs().iter().rev() {
            assert!(key_press(&entry.1, delay_ms, art).is_ok());
        }
    }
}

#[test]
fn play_teleport_tune() {
    let art = 0.69;
    let mut inputs: Vec<Input> = Vec::new();

    for n in 0..8 {
        let midi = match n {
            0..=1 => 69,
            2..=3 => 76,
            4..=5 => 73,
            6..=7 => 80,
            _ => unreachable!(),
        };

        inputs.push(
            input_for_midi(midi)
                .expect("Midi values should be in range..!")
                .to_owned(),
        );
    }

    for input in inputs {
        assert!(key_press(&input, 150.0, art).is_ok());
    }
}

#[test]
fn full_articulation_holds_the_whole_note() {
    assert_eq!(
        press_steps(2_000_000, WHOLE).unwrap(),
        vec![
            Step::NoteDown,
            Step::Wait(1_000),
            Step::PlayDown,
            Step::Wait(2_000_000),
            Step::PlayUp,
            Step::Wait(1_000),
            Step::NoteUp,
        ]
    );
    assert_eq!(SETTLE_US, 1_000);
}

#[test]
fn articulation_splits_the_note_into_hold_and_gap() {
    assert_eq!(
        press_steps(150_000, 690_000).unwrap(),
        vec![
            Step::NoteDown,
            Step::Wait(1_000),
            Step::PlayDown,
            Step::Wait(103_500),
            Step::PlayUp,
            Step::Wait(1_000),
            Step::NoteUp,
            Step::Wait(46_500),
        ]
    );
}

#[test]
fn hold_is_rounded_down_and_the_gap_takes_the_rest() {
    let steps = press_steps(10, 333_333).unwrap();
    assert_eq!(steps[3], Step::Wait(3));
    assert_eq!(steps[7], Step::Wait(7));
    let steps = press_steps(u64::MAX, 999_999).unwrap();
    let hold = (u64::MAX as u128 * 999_999 / 1_000_000) as u64;
    assert_eq!(steps[3], Step::Wait(hold));
    assert_eq!(steps[7], Step::Wait(u64::MAX - hold));
}

#[test]
fn articulation_outside_the_open_interval_holds_everything() {
    for articulation in [0, WHOLE, WHOLE + 1, u32::MAX] {
        let steps = press_steps(500_000, articulation).unwrap();
        assert_eq!(steps.len(), 7);
        assert_eq!(steps[3], Step::Wait(500_000));
    }
}

#[test]
fn share_below_a_microsecond_holds_one() {
    let steps = press_steps(3, 250_000).unwrap();
    assert_eq!(steps.len(), 8);
    assert_eq!(steps[3], Step::Wait(1));
    assert_eq!(steps[7], Step::Wait(2));

    assert_eq!(
        press_steps(2_001, 1).unwrap(),
        vec![
            Step::NoteDown,
            Step::Wait(1_000),
            Step::PlayDown,
            Step::Wait(1),
            Step::PlayUp,
            Step::Wait(1_000),
            Step::NoteUp,
            Step::Wait(2_000),
        ]
    );
}

#[test]
fn articulation_in_between_always_gives_eight_steps() {
    for (hold, articulation) in [(1u64, 1u32), (1, 999_999), (2, 500_000), (7, 1), (u64::MAX, 1)] {
        let steps = press_steps(hold, articulation).unwrap();
        assert_eq!(steps.len(), 8);
        let (Step::Wait(held), Step::Wait(gap)) = (steps[3], steps[7]) else {
            panic!("hold and gap are waits");
        };
        assert!(held >= 1);
        assert_eq!(held + gap, hold);
    }
    assert_eq!(press_steps(1, 500_000).unwrap()[7], Step::Wait(0));
}

#[test]
fn note_without_length_is_refused() {
    assert_eq!(press_steps(0, WHOLE), Err(PressError::NoHold));
    assert_eq!(press_steps(0, 500_000), Err(PressError::NoHold));
    assert_eq!(PressError::NoHold.message(), "hold_us must be greater than 0..!");
}

#[test]
fn play_key_goes_down_after_the_note_and_up_before_it() {
    for (hold, articulation) in [(1u64, 0u32), (2_000, 750_000), (999_999, 1), (5, WHOLE)] {
        let steps = press_steps(hold, articulation).unwrap();
        let at = |wanted: Step| steps.iter().position(|s| *s == wanted).unwrap();
        let times = |wanted: Step| steps.iter().filter(|s| **s == wanted).count();
        assert!(at(Step::NoteDown) < at(Step::PlayDown));
        assert!(at(Step::PlayDown) < at(Step::PlayUp));
        assert!(at(Step::PlayUp) < at(Step::NoteUp));
        assert_eq!(times(Step::NoteDown), 1);
        assert_eq!(times(Step::PlayDown), 1);
        assert_eq!(times(Step::PlayUp), 1);
        assert_eq!(times(Step::NoteUp), 1);
        let mut waited = 0;
        for s in &steps {
            if let Step::Wait(us) = s {
                waited += us;
            }
        }
        assert_eq!(waited, hold + 2 * SETTLE_US);
    }
}

#[test]
fn table_covers_a4_to_a6() {
    for midi in 0..=255u8 {
        let expected = (69..=93).contains(&midi);
        assert_eq!(input_for_midi(midi).is_some(), expected);
        assert_eq!(keys_for_midi(midi).is_some(), expected);
    }
}

#[test]
fn table_entries() {
    let a4 = input_for_midi(69).unwrap();
    assert_eq!(a4.note_label, "A4 (69)");
    assert_eq!(a4.keys, [0x31, 0x66]);
    let d_sharp = input_for_midi(75).unwrap();
    assert_eq!(d_sharp.note_label, "D#5 (75)");
    assert_eq!(d_sharp.keys, [0x31, 0x61, 0x33]);
    let g_sharp = input_for_midi(80).unwrap();
    assert_eq!(g_sharp.note_label, "G#5 (80)");
    assert_eq!(g_sharp.keys, [0x31, 0x68]);
    let a5 = input_for_midi(81).unwrap();
    assert_eq!(a5.note_label, "A5 (81)");
    assert_eq!(a5.keys, [0x66]);
    let c6 = input_for_midi(84).unwrap();
    assert_eq!(c6.note_label, "C6 (84)");
    assert_eq!(c6.keys, [0x63, 0x33]);
    let a6 = input_for_midi(93).unwrap();
    assert_eq!(a6.note_label, "A6 (93)");
    assert_eq!(a6.keys, [0x69]);
    assert_eq!(keys_for_midi(88), Some(&[0x64u16][..]));
    assert_eq!(keys_for_midi(94), None);
    assert_eq!(PLAY_KEY, 0x65);
}

#[test]
fn no_two_pitches_share_their_keys() {
    let all = mapped_inputs();
    assert_eq!(all.len(), 25);
    for (i, (midi, input)) in all.iter().enumerate() {
        assert_eq!(*midi as usize, 69 + i);
        assert_eq!(input.keys, input_for_midi(*midi).unwrap().keys);
        assert!(!input.keys.is_empty() && input.keys.len() <= 3);
        assert!(!input.keys.contains(&PLAY_KEY));
        assert_eq!(input.keys[0] == 0x31, *midi <= 80);
        for (other, theirs) in &all[i + 1..] {
            assert!(other != midi);
            assert!(theirs.keys != input.keys);
        }
    }
}
