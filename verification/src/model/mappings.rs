//! Which keys stand for which pitch.
//!
//! The instrument takes a direction, one of eight, for the step of the
//! scale; a modifier key lowers the note by an octave and another raises it
//! by a semitone. The table covers the pitches from A4 to A6.

use vstd::prelude::*;

verus! {

/// A combination of keys that stands for a note.
#[derive(Debug, Clone, Copy)]
pub struct Input {
    pub note_label: &'static str,
    pub keys: &'static [u16],
}

pub const DIR_1_RIGHT: u16 = 0x66;

pub const DIR_2_DOWNRIGHT: u16 = 0x63;

pub const DIR_3_DOWN: u16 = 0x62;

pub const DIR_4_DOWNLEFT: u16 = 0x61;

pub const DIR_5_LEFT: u16 = 0x64;

pub const DIR_6_UPLEFT: u16 = 0x67;

pub const DIR_7_UP: u16 = 0x68;

pub const DIR_8_UPRIGHT: u16 = 0x69;

/// The key that makes the selected note sound.
pub const PLAY_KEY: u16 = 0x65;

pub const OCTAVE_MODIFIER: u16 = 0x31;

pub const SEMITONE_MODIFIER: u16 = 0x33;

/// The lowest pitch of the table.
pub const LOWEST_MIDI: u8 = 69;

/// The highest pitch of the table.
pub const HIGHEST_MIDI: u8 = 93;

/// The pitch has an entry in the table.
pub open spec fn mapped(midi: u8) -> bool {
    LOWEST_MIDI <= midi <= HIGHEST_MIDI
}

/// The keys of each pitch of the table, from the lowest pitch up.
pub open spec fn combinations() -> Seq<Seq<u16>> {
    seq![
        seq![OCTAVE_MODIFIER, DIR_1_RIGHT],
        seq![OCTAVE_MODIFIER, DIR_1_RIGHT, SEMITONE_MODIFIER],
        seq![OCTAVE_MODIFIER, DIR_2_DOWNRIGHT],
        seq![OCTAVE_MODIFIER, DIR_2_DOWNRIGHT, SEMITONE_MODIFIER],
        seq![OCTAVE_MODIFIER, DIR_3_DOWN],
        seq![OCTAVE_MODIFIER, DIR_3_DOWN, SEMITONE_MODIFIER],
        seq![OCTAVE_MODIFIER, DIR_4_DOWNLEFT, SEMITONE_MODIFIER],
        seq![OCTAVE_MODIFIER, DIR_5_LEFT],
        seq![OCTAVE_MODIFIER, DIR_5_LEFT, SEMITONE_MODIFIER],
        seq![OCTAVE_MODIFIER, DIR_6_UPLEFT],
        seq![OCTAVE_MODIFIER, DIR_6_UPLEFT, SEMITONE_MODIFIER],
        seq![OCTAVE_MODIFIER, DIR_7_UP],
        seq![DIR_1_RIGHT],
        seq![DIR_1_RIGHT, SEMITONE_MODIFIER],
        seq![DIR_2_DOWNRIGHT],
        seq![DIR_2_DOWNRIGHT, SEMITONE_MODIFIER],
        seq![DIR_3_DOWN],
        seq![DIR_3_DOWN, SEMITONE_MODIFIER],
        seq![DIR_4_DOWNLEFT, SEMITONE_MODIFIER],
        seq![DIR_5_LEFT],
        seq![DIR_5_LEFT, SEMITONE_MODIFIER],
        seq![DIR_6_UPLEFT],
        seq![DIR_6_UPLEFT, SEMITONE_MODIFIER],
        seq![DIR_7_UP],
        seq![DIR_8_UPRIGHT],
    ]
}

/// The label of each pitch of the table, from the lowest pitch up.
pub open spec fn labels() -> Seq<Seq<char>> {
    seq![
        "A4 (69)"@,
        "A#4 (70)"@,
        "B4 (71)"@,
        "C5 (72)"@,
        "C#5 (73)"@,
        "D5 (74)"@,
        "D#5 (75)"@,
        "E5 (76)"@,
        "F5 (77)"@,
        "F#5 (78)"@,
        "G5 (79)"@,
        "G#5 (80)"@,
        "A5 (81)"@,
        "A#5 (82)"@,
        "B5 (83)"@,
        "C6 (84)"@,
        "C#6 (85)"@,
        "D6 (86)"@,
        "D#6 (87)"@,
        "E6 (88)"@,
        "F6 (89)"@,
        "F#6 (90)"@,
        "G6 (91)"@,
        "G#6 (92)"@,
        "A6 (93)"@,
    ]
}

/// The keys that stand for `midi`, where the table has it.
pub open spec fn keys_of(midi: u8) -> Option<Seq<u16>> {
    if mapped(midi) {
        Some(combinations()[midi - LOWEST_MIDI])
    } else {
        None
    }
}

/// The label of `midi`, where the table has it.
pub open spec fn label_of(midi: u8) -> Option<Seq<char>> {
    if mapped(midi) {
        Some(labels()[midi - LOWEST_MIDI])
    } else {
        None
    }
}

/// `input` is the entry of the table for `midi`.
pub open spec fn is_entry(input: Input, midi: u8) -> bool {
    Some(input.keys@) == keys_of(midi) && Some(input.note_label@) == label_of(midi)
}

/// What the combination for a pitch is made of: whether it holds the octave
/// modifier, its direction key, and whether it holds the semitone modifier.
pub open spec fn parts(keys: Seq<u16>) -> (bool, u16, bool) {
    let low = keys[0] == OCTAVE_MODIFIER;
    let direction = if low { keys[1] } else { keys[0] };
    (low, direction, keys.last() == SEMITONE_MODIFIER)
}

proof fn lemma_parts(midi: u8)
    requires
        mapped(midi),
    ensures
        keys_of(midi).unwrap().len() >= 1,
        keys_of(midi).unwrap().len() <= 3,
        forall|i: int|
            0 <= i < keys_of(midi).unwrap().len() ==> #[trigger] keys_of(midi).unwrap()[i]
                != PLAY_KEY,
        parts(keys_of(midi).unwrap()).0 == (midi <= 80),
        midi == 69 ==> parts(keys_of(midi).unwrap()).1 == DIR_1_RIGHT && parts(keys_of(midi).unwrap()).2 == false,
        midi == 70 ==> parts(keys_of(midi).unwrap()).1 == DIR_1_RIGHT && parts(keys_of(midi).unwrap()).2 == true,
        midi == 71 ==> parts(keys_of(midi).unwrap()).1 == DIR_2_DOWNRIGHT && parts(keys_of(midi).unwrap()).2 == false,
        midi == 72 ==> parts(keys_of(midi).unwrap()).1 == DIR_2_DOWNRIGHT && parts(keys_of(midi).unwrap()).2 == true,
        midi == 73 ==> parts(keys_of(midi).unwrap()).1 == DIR_3_DOWN && parts(keys_of(midi).unwrap()).2 == false,
        midi == 74 ==> parts(keys_of(midi).unwrap()).1 == DIR_3_DOWN && parts(keys_of(midi).unwrap()).2 == true,
        midi == 75 ==> parts(keys_of(midi).unwrap()).1 == DIR_4_DOWNLEFT && parts(keys_of(midi).unwrap()).2 == true,
        midi == 76 ==> parts(keys_of(midi).unwrap()).1 == DIR_5_LEFT && parts(keys_of(midi).unwrap()).2 == false,
        midi == 77 ==> parts(keys_of(midi).unwrap()).1 == DIR_5_LEFT && parts(keys_of(midi).unwrap()).2 == true,
        midi == 78 ==> parts(keys_of(midi).unwrap()).1 == DIR_6_UPLEFT && parts(keys_of(midi).unwrap()).2 == false,
        midi == 79 ==> parts(keys_of(midi).unwrap()).1 == DIR_6_UPLEFT && parts(keys_of(midi).unwrap()).2 == true,
        midi == 80 ==> parts(keys_of(midi).unwrap()).1 == DIR_7_UP && parts(keys_of(midi).unwrap()).2 == false,
        midi == 81 ==> parts(keys_of(midi).unwrap()).1 == DIR_1_RIGHT && parts(keys_of(midi).unwrap()).2 == false,
        midi == 82 ==> parts(keys_of(midi).unwrap()).1 == DIR_1_RIGHT && parts(keys_of(midi).unwrap()).2 == true,
        midi == 83 ==> parts(keys_of(midi).unwrap()).1 == DIR_2_DOWNRIGHT && parts(keys_of(midi).unwrap()).2 == false,
        midi == 84 ==> parts(keys_of(midi).unwrap()).1 == DIR_2_DOWNRIGHT && parts(keys_of(midi).unwrap()).2 == true,
        midi == 85 ==> parts(keys_of(midi).unwrap()).1 == DIR_3_DOWN && parts(keys_of(midi).unwrap()).2 == false,
        midi == 86 ==> parts(keys_of(midi).unwrap()).1 == DIR_3_DOWN && parts(keys_of(midi).unwrap()).2 == true,
        midi == 87 ==> parts(keys_of(midi).unwrap()).1 == DIR_4_DOWNLEFT && parts(keys_of(midi).unwrap()).2 == true,
        midi == 88 ==> parts(keys_of(midi).unwrap()).1 == DIR_5_LEFT && parts(keys_of(midi).unwrap()).2 == false,
        midi == 89 ==> parts(keys_of(midi).unwrap()).1 == DIR_5_LEFT && parts(keys_of(midi).unwrap()).2 == true,
        midi == 90 ==> parts(keys_of(midi).unwrap()).1 == DIR_6_UPLEFT && parts(keys_of(midi).unwrap()).2 == false,
        midi == 91 ==> parts(keys_of(midi).unwrap()).1 == DIR_6_UPLEFT && parts(keys_of(midi).unwrap()).2 == true,
        midi == 92 ==> parts(keys_of(midi).unwrap()).1 == DIR_7_UP && parts(keys_of(midi).unwrap()).2 == false,
        midi == 93 ==> parts(keys_of(midi).unwrap()).1 == DIR_8_UPRIGHT && parts(keys_of(midi).unwrap()).2 == false,
{
    let all = combinations();
    assert(all[0] =~= seq![OCTAVE_MODIFIER, DIR_1_RIGHT]);
    assert(all[1] =~= seq![OCTAVE_MODIFIER, DIR_1_RIGHT, SEMITONE_MODIFIER]);
    assert(all[2] =~= seq![OCTAVE_MODIFIER, DIR_2_DOWNRIGHT]);
    assert(all[3] =~= seq![OCTAVE_MODIFIER, DIR_2_DOWNRIGHT, SEMITONE_MODIFIER]);
    assert(all[4] =~= seq![OCTAVE_MODIFIER, DIR_3_DOWN]);
    assert(all[5] =~= seq![OCTAVE_MODIFIER, DIR_3_DOWN, SEMITONE_MODIFIER]);
    assert(all[6] =~= seq![OCTAVE_MODIFIER, DIR_4_DOWNLEFT, SEMITONE_MODIFIER]);
    assert(all[7] =~= seq![OCTAVE_MODIFIER, DIR_5_LEFT]);
    assert(all[8] =~= seq![OCTAVE_MODIFIER, DIR_5_LEFT, SEMITONE_MODIFIER]);
    assert(all[9] =~= seq![OCTAVE_MODIFIER, DIR_6_UPLEFT]);
    assert(all[10] =~= seq![OCTAVE_MODIFIER, DIR_6_UPLEFT, SEMITONE_MODIFIER]);
    assert(all[11] =~= seq![OCTAVE_MODIFIER, DIR_7_UP]);
    assert(all[12] =~= seq![DIR_1_RIGHT]);
    assert(all[13] =~= seq![DIR_1_RIGHT, SEMITONE_MODIFIER]);
    assert(all[14] =~= seq![DIR_2_DOWNRIGHT]);
    assert(all[15] =~= seq![DIR_2_DOWNRIGHT, SEMITONE_MODIFIER]);
    assert(all[16] =~= seq![DIR_3_DOWN]);
    assert(all[17] =~= seq![DIR_3_DOWN, SEMITONE_MODIFIER]);
    assert(all[18] =~= seq![DIR_4_DOWNLEFT, SEMITONE_MODIFIER]);
    assert(all[19] =~= seq![DIR_5_LEFT]);
    assert(all[20] =~= seq![DIR_5_LEFT, SEMITONE_MODIFIER]);
    assert(all[21] =~= seq![DIR_6_UPLEFT]);
    assert(all[22] =~= seq![DIR_6_UPLEFT, SEMITONE_MODIFIER]);
    assert(all[23] =~= seq![DIR_7_UP]);
    assert(all[24] =~= seq![DIR_8_UPRIGHT]);
}

/// Every pitch from A4 to A6 has a combination of one to three keys, none
/// of them the play key, and no two pitches share a combination. The octave
/// modifier is part of it exactly for the pitches up to G#5.
pub proof fn lemma_table(a: u8, b: u8)
    requires
        mapped(a),
        mapped(b),
    ensures
        1 <= keys_of(a).unwrap().len() <= 3,
        forall|i: int|
            0 <= i < keys_of(a).unwrap().len() ==> #[trigger] keys_of(a).unwrap()[i] != PLAY_KEY,
        (keys_of(a).unwrap()[0] == OCTAVE_MODIFIER) == (a <= 80),
        a != b ==> keys_of(a) != keys_of(b),
{
    lemma_parts(a);
    lemma_parts(b);
}

/// The entry of the table for `midi`, if it has one.
pub fn input_for_midi(midi: u8) -> (r: Option<Input>)
    ensures
        r is Some <==> mapped(midi),
        r matches Some(input) ==> is_entry(input, midi),
{
    let all = Ghost(combinations());
    let names = Ghost(labels());
    match midi {
        69 => {
            let keys: &'static [u16] = &[OCTAVE_MODIFIER, DIR_1_RIGHT];
            assert(keys@ =~= all@[0]);
            assert("A4 (69)"@ == names@[0]);
            Some(Input { note_label: "A4 (69)", keys })
        },
        70 => {
            let keys: &'static [u16] = &[OCTAVE_MODIFIER, DIR_1_RIGHT, SEMITONE_MODIFIER];
            assert(keys@ =~= all@[1]);
            assert("A#4 (70)"@ == names@[1]);
            Some(Input { note_label: "A#4 (70)", keys })
        },
        71 => {
            let keys: &'static [u16] = &[OCTAVE_MODIFIER, DIR_2_DOWNRIGHT];
            assert(keys@ =~= all@[2]);
            assert("B4 (71)"@ == names@[2]);
            Some(Input { note_label: "B4 (71)", keys })
        },
        72 => {
            let keys: &'static [u16] = &[OCTAVE_MODIFIER, DIR_2_DOWNRIGHT, SEMITONE_MODIFIER];
            assert(keys@ =~= all@[3]);
            assert("C5 (72)"@ == names@[3]);
            Some(Input { note_label: "C5 (72)", keys })
        },
        73 => {
            let keys: &'static [u16] = &[OCTAVE_MODIFIER, DIR_3_DOWN];
            assert(keys@ =~= all@[4]);
            assert("C#5 (73)"@ == names@[4]);
            Some(Input { note_label: "C#5 (73)", keys })
        },
        74 => {
            let keys: &'static [u16] = &[OCTAVE_MODIFIER, DIR_3_DOWN, SEMITONE_MODIFIER];
            assert(keys@ =~= all@[5]);
            assert("D5 (74)"@ == names@[5]);
            Some(Input { note_label: "D5 (74)", keys })
        },
        75 => {
            let keys: &'static [u16] = &[OCTAVE_MODIFIER, DIR_4_DOWNLEFT, SEMITONE_MODIFIER];
            assert(keys@ =~= all@[6]);
            assert("D#5 (75)"@ == names@[6]);
            Some(Input { note_label: "D#5 (75)", keys })
        },
        76 => {
            let keys: &'static [u16] = &[OCTAVE_MODIFIER, DIR_5_LEFT];
            assert(keys@ =~= all@[7]);
            assert("E5 (76)"@ == names@[7]);
            Some(Input { note_label: "E5 (76)", keys })
        },
        77 => {
            let keys: &'static [u16] = &[OCTAVE_MODIFIER, DIR_5_LEFT, SEMITONE_MODIFIER];
            assert(keys@ =~= all@[8]);
            assert("F5 (77)"@ == names@[8]);
            Some(Input { note_label: "F5 (77)", keys })
        },
        78 => {
            let keys: &'static [u16] = &[OCTAVE_MODIFIER, DIR_6_UPLEFT];
            assert(keys@ =~= all@[9]);
            assert("F#5 (78)"@ == names@[9]);
            Some(Input { note_label: "F#5 (78)", keys })
        },
        79 => {
            let keys: &'static [u16] = &[OCTAVE_MODIFIER, DIR_6_UPLEFT, SEMITONE_MODIFIER];
            assert(keys@ =~= all@[10]);
            assert("G5 (79)"@ == names@[10]);
            Some(Input { note_label: "G5 (79)", keys })
        },
        80 => {
            let keys: &'static [u16] = &[OCTAVE_MODIFIER, DIR_7_UP];
            assert(keys@ =~= all@[11]);
            assert("G#5 (80)"@ == names@[11]);
            Some(Input { note_label: "G#5 (80)", keys })
        },
        81 => {
            let keys: &'static [u16] = &[DIR_1_RIGHT];
            assert(keys@ =~= all@[12]);
            assert("A5 (81)"@ == names@[12]);
            Some(Input { note_label: "A5 (81)", keys })
        },
        82 => {
            let keys: &'static [u16] = &[DIR_1_RIGHT, SEMITONE_MODIFIER];
            assert(keys@ =~= all@[13]);
            assert("A#5 (82)"@ == names@[13]);
            Some(Input { note_label: "A#5 (82)", keys })
        },
        83 => {
            let keys: &'static [u16] = &[DIR_2_DOWNRIGHT];
            assert(keys@ =~= all@[14]);
            assert("B5 (83)"@ == names@[14]);
            Some(Input { note_label: "B5 (83)", keys })
        },
        84 => {
            let keys: &'static [u16] = &[DIR_2_DOWNRIGHT, SEMITONE_MODIFIER];
            assert(keys@ =~= all@[15]);
            assert("C6 (84)"@ == names@[15]);
            Some(Input { note_label: "C6 (84)", keys })
        },
        85 => {
            let keys: &'static [u16] = &[DIR_3_DOWN];
            assert(keys@ =~= all@[16]);
            assert("C#6 (85)"@ == names@[16]);
            Some(Input { note_label: "C#6 (85)", keys })
        },
        86 => {
            let keys: &'static [u16] = &[DIR_3_DOWN, SEMITONE_MODIFIER];
            assert(keys@ =~= all@[17]);
            assert("D6 (86)"@ == names@[17]);
            Some(Input { note_label: "D6 (86)", keys })
        },
        87 => {
            let keys: &'static [u16] = &[DIR_4_DOWNLEFT, SEMITONE_MODIFIER];
            assert(keys@ =~= all@[18]);
            assert("D#6 (87)"@ == names@[18]);
            Some(Input { note_label: "D#6 (87)", keys })
        },
        88 => {
            let keys: &'static [u16] = &[DIR_5_LEFT];
            assert(keys@ =~= all@[19]);
            assert("E6 (88)"@ == names@[19]);
            Some(Input { note_label: "E6 (88)", keys })
        },
        89 => {
            let keys: &'static [u16] = &[DIR_5_LEFT, SEMITONE_MODIFIER];
            assert(keys@ =~= all@[20]);
            assert("F6 (89)"@ == names@[20]);
            Some(Input { note_label: "F6 (89)", keys })
        },
        90 => {
            let keys: &'static [u16] = &[DIR_6_UPLEFT];
            assert(keys@ =~= all@[21]);
            assert("F#6 (90)"@ == names@[21]);
            Some(Input { note_label: "F#6 (90)", keys })
        },
        91 => {
            let keys: &'static [u16] = &[DIR_6_UPLEFT, SEMITONE_MODIFIER];
            assert(keys@ =~= all@[22]);
            assert("G6 (91)"@ == names@[22]);
            Some(Input { note_label: "G6 (91)", keys })
        },
        92 => {
            let keys: &'static [u16] = &[DIR_7_UP];
            assert(keys@ =~= all@[23]);
            assert("G#6 (92)"@ == names@[23]);
            Some(Input { note_label: "G#6 (92)", keys })
        },
        93 => {
            let keys: &'static [u16] = &[DIR_8_UPRIGHT];
            assert(keys@ =~= all@[24]);
            assert("A6 (93)"@ == names@[24]);
            Some(Input { note_label: "A6 (93)", keys })
        },
        _ => None,
    }
}

/// The keys that stand for `midi`, if the table has it.
pub fn keys_for_midi(midi: u8) -> (r: Option<&'static [u16]>)
    ensures
        r is Some <==> mapped(midi),
        r matches Some(keys) ==> Some(keys@) == keys_of(midi),
{
    match input_for_midi(midi) {
        Some(input) => Some(input.keys),
        None => None,
    }
}

/// The entries of the table, from the lowest pitch up.
pub fn mapped_inputs() -> (all: Vec<(u8, Input)>)
    ensures
        all.len() == HIGHEST_MIDI - LOWEST_MIDI + 1,
        forall|i: int|
            0 <= i < all.len() ==> (#[trigger] all@[i]).0 == LOWEST_MIDI + i && is_entry(
                all@[i].1,
                all@[i].0,
            ),
{
    let mut all: Vec<(u8, Input)> = Vec::new();
    let mut midi: u8 = LOWEST_MIDI;
    while midi <= HIGHEST_MIDI
        invariant
            LOWEST_MIDI <= midi <= HIGHEST_MIDI + 1,
            all.len() == midi - LOWEST_MIDI,
            forall|i: int|
                0 <= i < all.len() ==> (#[trigger] all@[i]).0 == LOWEST_MIDI + i && is_entry(
                    all@[i].1,
                    all@[i].0,
                ),
        decreases HIGHEST_MIDI + 1 - midi,
    {
        match input_for_midi(midi) {
            Some(input) => {
                all.push((midi, input));
            },
            None => {},
        }
        midi += 1;
    }
    all
}

} // verus!
