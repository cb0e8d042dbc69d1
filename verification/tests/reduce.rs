use flute_well::{
    merge_events, reduce_to_monophonic, Event, ImportError, Note, PolyPolicy, EPSILON_US,
};

const EPSILON_MS: f64 = 2.0;

fn approx_eq(a: f64, b: f64) -> bool {
    (a - b).abs() <= EPSILON_MS
}

fn to_us(ms: f64) -> u64 {
    (ms * 1000.0).round() as u64
}

fn to_ms(us: u64) -> f64 {
    us as f64 / 1000.0
}

fn create_event(midi: u8, velocity: u8, start: f64, dur: f64) -> Event {
    Event {
        note: Note { midi, velocity },
        time_us: to_us(start),
        duration_us: to_us(dur),
    }
}

fn plain(events: &[Event]) -> Vec<(u8, u8, u64, u64)> {
    let mut out = Vec::new();
    for e in events {
        out.push((e.note.midi, e.note.velocity, e.time_us, e.duration_us));
    }
    out
}

#[test]
fn highest_policy_overlap() {
    let input = vec![
        create_event(69, 255, 0.0, 1000.0),
        create_event(77, 255, 500.0, 1000.0),
    ];

    let out = reduce_to_monophonic(input, PolyPolicy::Highest, false).unwrap();
    assert_eq!(out.len(), 2);

    assert_eq!(out[0].note.midi, 69);
    assert!(approx_eq(to_ms(out[0].time_us), 0.0));
    assert!(approx_eq(to_ms(out[0].duration_us), 500.0));

    assert_eq!(out[1].note.midi, 77);
    assert!(approx_eq(to_ms(out[1].time_us), 500.0));
    assert!(approx_eq(to_ms(out[1].duration_us), 1000.0));
}

#[test]
fn lowest_policy_overlap() {
    let input = vec![
        create_event(77, 255, 0.0, 1000.0),
        create_event(69, 255, 500.0, 1000.0),
    ];

    let out = reduce_to_monophonic(input, PolyPolicy::Lowest, false).unwrap();
    assert_eq!(out.len(), 2);

    assert_eq!(out[0].note.midi, 77);
    assert!(approx_eq(to_ms(out[0].time_us), 0.0));
    assert!(approx_eq(to_ms(out[0].duration_us), 500.0));

    assert_eq!(out[1].note.midi, 69);
    assert!(approx_eq(to_ms(out[1].time_us), 500.0));
    assert!(approx_eq(to_ms(out[1].duration_us), 1000.0));
}

#[test]
fn loudest_policy_overlap() {
    let input = vec![
        create_event(77, 128, 0.0, 1000.0),
        create_event(69, 255, 500.0, 1000.0),
    ];

    let out = reduce_to_monophonic(input, PolyPolicy::Loudest, false).unwrap();
    assert_eq!(out.len(), 2);

    assert_eq!(out[0].note.midi, 77);
    assert!(approx_eq(to_ms(out[0].time_us), 0.0));
    assert!(approx_eq(to_ms(out[0].duration_us), 500.0));

    assert_eq!(out[1].note.midi, 69);
    assert!(approx_eq(to_ms(out[1].time_us), 500.0));
    assert!(approx_eq(to_ms(out[1].duration_us), 1000.0));
}

#[test]
fn densest_policy_overlap() {
    let input = vec![
        create_event(69, 255, 0.0, 1000.0),
        create_event(77, 255, 500.0, 1000.0),
    ];

    let out = reduce_to_monophonic(input, PolyPolicy::Densest, false);
    assert_eq!(out.err(), Some(ImportError::UnsupportedPolicy));
}

#[test]
fn densest_policy_without_events() {
    let out = reduce_to_monophonic(Vec::new(), PolyPolicy::Densest, true);
    assert_eq!(out.unwrap().len(), 0);
}

#[test]
fn merge_adjacent_within_epsilon() {
    let input = vec![
        create_event(60, 255, 0.0, 500.0),
        create_event(60, 255, 501.0, 500.0),
    ];

    let out = reduce_to_monophonic(input, PolyPolicy::Lowest, true).unwrap();
    assert_eq!(out.len(), 1);
    assert_eq!(out[0].note.midi, 60);

    assert!(approx_eq(to_ms(out[0].time_us), 0.0));
    assert!((to_ms(out[0].duration_us) - 1001.0).abs() <= EPSILON_MS);
}

#[test]
fn cull_insufficient_length() {
    let input = vec![
        create_event(61, 255, 0.0, 150.0),
        create_event(61, 255, 150.0, 1.337),
        create_event(61, 255, 155.0, 1.937),
        create_event(61, 255, 160.0, EPSILON_MS),
    ];

    let out = reduce_to_monophonic(input, PolyPolicy::Highest, true).unwrap();
    assert!(out
        .iter()
        .all(|e| !(e.note.midi == 61 && to_ms(e.duration_us).abs() <= EPSILON_MS)));
}

#[test]
fn cull_keeps_only_the_long_event() {
    let input = vec![
        create_event(61, 255, 0.0, 150.0),
        create_event(61, 255, 150.0, 1.337),
        create_event(61, 255, 155.0, 1.937),
        create_event(61, 255, 160.0, EPSILON_MS),
    ];

    let out = reduce_to_monophonic(input, PolyPolicy::Highest, false).unwrap();
    assert_eq!(plain(&out), vec![(61, 255, 0, 150_000)]);
}

#[test]
fn highest_policy_exact_values() {
    let input = vec![
        create_event(69, 255, 0.0, 1000.0),
        create_event(77, 255, 500.0, 1000.0),
    ];
    let out = reduce_to_monophonic(input, PolyPolicy::Highest, false).unwrap();
    assert_eq!(
        plain(&out),
        vec![(69, 255, 0, 500_000), (77, 255, 500_000, 1_000_000)]
    );
}

#[test]
fn lowest_policy_exact_values() {
    let input = vec![
        create_event(77, 255, 0.0, 1000.0),
        create_event(69, 255, 500.0, 1000.0),
    ];
    let out = reduce_to_monophonic(input, PolyPolicy::Lowest, false).unwrap();
    assert_eq!(
        plain(&out),
        vec![(77, 255, 0, 500_000), (69, 255, 500_000, 1_000_000)]
    );
}

#[test]
fn lower_note_resumes_after_higher_one_ends() {
    let input = vec![
        create_event(60, 100, 0.0, 3000.0),
        create_event(72, 90, 1000.0, 1000.0),
    ];
    let out = reduce_to_monophonic(input, PolyPolicy::Highest, false).unwrap();
    assert_eq!(
        plain(&out),
        vec![
            (60, 90, 0, 1_000_000),
            (72, 90, 1_000_000, 1_000_000),
            (60, 100, 2_000_000, 1_000_000),
        ]
    );
}

#[test]
fn loudest_picks_by_velocity_not_pitch() {
    let low_loud = vec![
        create_event(60, 120, 0.0, 1000.0),
        create_event(72, 30, 0.0, 1000.0),
    ];
    let out = reduce_to_monophonic(low_loud, PolyPolicy::Loudest, false).unwrap();
    assert_eq!(plain(&out), vec![(60, 120, 0, 1_000_000)]);

    let high_loud = vec![
        create_event(60, 30, 0.0, 1000.0),
        create_event(72, 120, 0.0, 1000.0),
    ];
    let out = reduce_to_monophonic(high_loud, PolyPolicy::Loudest, false).unwrap();
    assert_eq!(plain(&out), vec![(72, 120, 0, 1_000_000)]);
}

#[test]
fn loudest_tie_goes_to_the_higher_pitch() {
    let input = vec![
        create_event(60, 80, 0.0, 1000.0),
        create_event(72, 80, 0.0, 1000.0),
        create_event(66, 80, 0.0, 1000.0),
    ];
    let out = reduce_to_monophonic(input, PolyPolicy::Loudest, false).unwrap();
    assert_eq!(out.len(), 1);
    assert_eq!(out[0].note.midi, 72);
}

#[test]
fn end_is_handled_before_start_at_the_same_instant() {
    let input = vec![
        create_event(80, 100, 0.0, 500.0),
        create_event(70, 100, 500.0, 500.0),
    ];
    let out = reduce_to_monophonic(input, PolyPolicy::Highest, false).unwrap();
    assert_eq!(
        plain(&out),
        vec![(80, 100, 0, 500_000), (70, 100, 500_000, 500_000)]
    );
}

#[test]
fn unsorted_input_is_ordered_by_the_sweep() {
    let input = vec![
        create_event(77, 255, 500.0, 1000.0),
        create_event(69, 255, 0.0, 1000.0),
    ];
    let out = reduce_to_monophonic(input, PolyPolicy::Highest, false).unwrap();
    assert_eq!(
        plain(&out),
        vec![(69, 255, 0, 500_000), (77, 255, 500_000, 1_000_000)]
    );
}

#[test]
fn reduced_lines_never_overlap() {
    let input = vec![
        create_event(60, 10, 0.0, 900.0),
        create_event(64, 90, 100.0, 300.0),
        create_event(67, 50, 250.0, 1000.0),
        create_event(62, 70, 260.0, 50.0),
        create_event(72, 20, 1200.0, 100.0),
        create_event(60, 10, 1250.0, 400.0),
        create_event(59, 99, 1249.0, 3.0),
    ];
    for policy in [PolyPolicy::Highest, PolyPolicy::Lowest, PolyPolicy::Loudest] {
        for merge in [false, true] {
            let out = reduce_to_monophonic(input.clone(), policy, merge).unwrap();
            assert!(!out.is_empty());
            for pair in out.windows(2) {
                assert!(pair[0].time_us + pair[0].duration_us <= pair[1].time_us);
            }
            for e in &out {
                assert!(e.duration_us > EPSILON_US);
            }
        }
    }
}

#[test]
fn short_event_is_culled_under_every_policy() {
    for policy in [PolyPolicy::Highest, PolyPolicy::Lowest, PolyPolicy::Loudest] {
        let input = vec![
            create_event(70, 100, 0.0, 1.999),
            create_event(71, 100, 10.0, 2.0),
            create_event(72, 100, 20.0, 2.001),
        ];
        let out = reduce_to_monophonic(input, policy, false).unwrap();
        assert_eq!(plain(&out), vec![(72, 100, 20_000, 2_001)]);
    }
}

#[test]
fn merge_joins_two_events_across_a_small_gap() {
    let a = create_event(60, 255, 0.0, 500.0);
    let b = create_event(60, 255, 501.5, 400.0);
    let out = merge_events(&vec![a, b]);
    assert_eq!(plain(&out), vec![(60, 255, 0, 500_000 + 1_500 + 400_000)]);
}

#[test]
fn merge_leaves_a_wide_gap_alone() {
    let a = create_event(60, 255, 0.0, 500.0);
    let b = create_event(60, 255, 502.001, 400.0);
    let out = merge_events(&vec![a, b]);
    assert_eq!(plain(&out), plain(&[a, b]));
}

#[test]
fn merge_needs_the_same_pitch() {
    let a = create_event(60, 255, 0.0, 500.0);
    let other_pitch = create_event(61, 255, 500.0, 400.0);
    assert_eq!(merge_events(&vec![a, other_pitch]).len(), 2);
}

#[test]
fn merge_does_not_ask_for_the_same_velocity() {
    let a = create_event(60, 100, 0.0, 500.0);
    let b = create_event(60, 90, 501.0, 400.0);
    assert_eq!(plain(&merge_events(&vec![a, b])), vec![(60, 100, 0, 901_000)]);
    let out = reduce_to_monophonic(vec![a, b], PolyPolicy::Highest, true).unwrap();
    assert_eq!(plain(&out), vec![(60, 100, 0, 901_000)]);
}

#[test]
fn reducing_a_reduced_line_gives_it_back() {
    let input = vec![
        create_event(60, 10, 0.0, 900.0),
        create_event(64, 90, 100.0, 300.0),
        create_event(67, 50, 250.0, 1000.0),
        create_event(62, 70, 260.0, 50.0),
        create_event(72, 20, 1200.0, 100.0),
        create_event(60, 10, 1250.0, 400.0),
        create_event(60, 30, 1651.0, 400.0),
    ];
    for policy in [PolyPolicy::Highest, PolyPolicy::Lowest, PolyPolicy::Loudest] {
        let once = reduce_to_monophonic(input.clone(), policy, true).unwrap();
        let twice = reduce_to_monophonic(once.clone(), policy, true).unwrap();
        assert_eq!(plain(&once), plain(&twice));
        for pair in once.windows(2) {
            let gap = pair[1].time_us - (pair[0].time_us + pair[0].duration_us);
            assert!(pair[0].note.midi != pair[1].note.midi || gap > EPSILON_US);
        }
    }
}

#[test]
fn merging_twice_changes_nothing() {
    let input = vec![
        create_event(60, 255, 0.0, 500.0),
        create_event(60, 255, 501.0, 500.0),
        create_event(60, 255, 1002.0, 500.0),
        create_event(62, 255, 1503.0, 500.0),
        create_event(62, 255, 2010.0, 500.0),
    ];
    let once = merge_events(&input);
    let twice = merge_events(&once);
    assert_eq!(plain(&once), plain(&twice));
    assert_eq!(
        plain(&once),
        vec![
            (60, 255, 0, 1_502_000),
            (62, 255, 1_503_000, 500_000),
            (62, 255, 2_010_000, 500_000),
        ]
    );
}

#[test]
fn merge_flag_off_leaves_the_line_alone() {
    let input = vec![
        create_event(60, 255, 0.0, 500.0),
        create_event(60, 255, 501.0, 500.0),
    ];
    let out = reduce_to_monophonic(input, PolyPolicy::Lowest, false).unwrap();
    assert_eq!(
        plain(&out),
        vec![(60, 255, 0, 500_000), (60, 255, 501_000, 500_000)]
    );
}

fn sounding_at(events: &[Event], t: u64) -> Vec<&Event> {
    events
        .iter()
        .filter(|e| e.time_us <= t && t < e.time_us + e.duration_us)
        .collect()
}

fn apart_by_pitch() -> Vec<Event> {
    vec![
        create_event(60, 10, 0.0, 900.0),
        create_event(64, 90, 100.0, 300.0),
        create_event(67, 50, 250.0, 1000.0),
        create_event(62, 70, 260.0, 50.0),
        create_event(64, 20, 400.0, 600.0),
        create_event(72, 20, 1200.0, 100.0),
        create_event(60, 99, 1250.0, 400.0),
        create_event(59, 99, 1249.0, 3.0),
        create_event(72, 5, 1300.0, 10.0),
    ]
}

#[test]
fn line_plays_the_pick_among_the_notes_that_sound() {
    let input = apart_by_pitch();
    for policy in [PolyPolicy::Highest, PolyPolicy::Lowest, PolyPolicy::Loudest] {
        let out = reduce_to_monophonic(input.clone(), policy, false).unwrap();
        assert!(out.len() >= 2);
        for e in &out {
            let inside = [
                e.time_us + 1,
                e.time_us + e.duration_us / 2,
                e.time_us + e.duration_us - 1,
            ];
            for t in inside {
                let notes = sounding_at(&input, t);
                let played: Vec<&&Event> =
                    notes.iter().filter(|n| n.note.midi == e.note.midi).collect();
                assert_eq!(played.len(), 1);
                for n in &notes {
                    match policy {
                        PolyPolicy::Highest => assert!(n.note.midi <= e.note.midi),
                        PolyPolicy::Lowest => assert!(n.note.midi >= e.note.midi),
                        _ => assert!(
                            (n.note.velocity, n.note.midi)
                                <= (played[0].note.velocity, e.note.midi)
                        ),
                    }
                }
            }
        }
    }
}
