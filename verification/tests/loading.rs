use rhythm_core::chart::BpmChange;
use rhythm_core::chart::Lane;
use rhythm_core::chart::PositionCalculator;
use rhythm_core::chart::SectionLenChange;
use rhythm_core::chart::WavObj;
use rhythm_core::chart::build_section_table;
use rhythm_core::chart::build_timeline;
use rhythm_core::chart::closest_note;
use rhythm_core::chart::compute_position;
use rhythm_core::chart::is_bgm_channel;
use rhythm_core::chart::judge_hit;
use rhythm_core::chart::lane_of_channel;
use rhythm_core::chart::matches_audio_file;
use rhythm_core::chart::prepare_notes;
use rhythm_core::chart::scroll_offset;
use rhythm_core::chart::should_retire;
use rhythm_core::measure::Crotchet;
use rhythm_core::rat::Rat;
use rhythm_core::timeline::ChartError;

#[test]
fn cumulative_beat_with_default_measures() {
    // with no overrides: 2 * 4 + 0.5 * 4 = 10
    let crotchet = Crotchet::new(vec![]).unwrap();
    let pos = Rat::new(1, 2).unwrap();
    assert_eq!(crotchet.get_crotchet(2, &pos).unwrap(), Rat::from_int(10));
    assert_eq!(crotchet.get_crotchet(0, &Rat::from_int(0)).unwrap(), Rat::from_int(0));
}

#[test]
fn cumulative_beat_with_overrides() {
    // measure 1 spans 2 beats instead of 4
    let crotchet = Crotchet::new(vec![(1, Rat::from_int(2))]).unwrap();
    let pos = Rat::new(1, 4).unwrap();
    // 4 + 2 + 0.25 * 4 = 7
    assert_eq!(crotchet.get_crotchet(2, &pos).unwrap(), Rat::from_int(7));
    // inside the short measure: 4 + 0.25 * 2 = 4.5
    assert_eq!(crotchet.get_crotchet(1, &pos).unwrap(), Rat::new(9, 2).unwrap());
}

#[test]
fn crotchet_rejects_bad_beat_counts() {
    assert_eq!(
        Crotchet::new(vec![(0, Rat::from_int(0))]).unwrap_err(),
        ChartError::NonPositiveBeats
    );
    assert_eq!(
        Crotchet::new(vec![(0, Rat::from_int(-2))]).unwrap_err(),
        ChartError::NonPositiveBeats
    );
    assert_eq!(
        Crotchet::new(vec![(0, Rat { num: 1, den: 0 })]).unwrap_err(),
        ChartError::InvalidNumber
    );
}

#[test]
fn section_table_scales_lengths_to_beats() {
    // a 0.75 measure spans 3 beats
    let changes = vec![SectionLenChange { track: 2, length: Rat::new(3, 4).unwrap() }];
    let crotchet = build_section_table(&changes).unwrap();
    let zero = Rat::from_int(0);
    // measures 0..3: 4 + 4 + 3 = 11
    assert_eq!(crotchet.get_crotchet(3, &zero).unwrap(), Rat::from_int(11));
}

#[test]
fn timeline_from_tempo_changes() {
    let crotchet = Crotchet::new(vec![]).unwrap();
    let changes = vec![
        BpmChange { track: 1, numerator: 1, denominator: 2, bpm: Rat::from_int(240) },
    ];
    let timeline = build_timeline(&Rat::from_int(120), &changes, &crotchet).unwrap();
    // the change sits at beat 4 + 0.5 * 4 = 6
    assert_eq!(timeline.intervals.len(), 2);
    assert_eq!(timeline.intervals[0].start, Rat::from_int(0));
    assert_eq!(timeline.intervals[0].end, Some(Rat::from_int(6)));
    assert_eq!(timeline.intervals[0].value, Rat::from_int(120));
    assert_eq!(timeline.intervals[1].start, Rat::from_int(6));
    assert_eq!(timeline.intervals[1].end, None);
    assert_eq!(timeline.intervals[1].value, Rat::from_int(240));
    // 6 beats at 120, then 6 beats at 240: 3 + 1.5 seconds
    let t = timeline.crotchet_time_function(&Rat::from_int(12)).unwrap();
    assert_eq!(t, Rat::new(9, 2).unwrap());
}

#[test]
fn timeline_rejects_bad_changes() {
    let crotchet = Crotchet::new(vec![]).unwrap();
    assert_eq!(
        build_timeline(&Rat::from_int(0), &vec![], &crotchet).unwrap_err(),
        ChartError::NonPositiveRate
    );
    let zero_div = vec![BpmChange { track: 0, numerator: 1, denominator: 0, bpm: Rat::from_int(1) }];
    assert_eq!(
        build_timeline(&Rat::from_int(120), &zero_div, &crotchet).unwrap_err(),
        ChartError::InvalidFraction
    );
    let backwards = vec![
        BpmChange { track: 1, numerator: 0, denominator: 1, bpm: Rat::from_int(100) },
        BpmChange { track: 0, numerator: 0, denominator: 1, bpm: Rat::from_int(90) },
    ];
    assert_eq!(
        build_timeline(&Rat::from_int(120), &backwards, &crotchet).unwrap_err(),
        ChartError::NonMonotonic
    );
    let at_zero = vec![BpmChange { track: 0, numerator: 0, denominator: 1, bpm: Rat::from_int(90) }];
    assert_eq!(
        build_timeline(&Rat::from_int(120), &at_zero, &crotchet).unwrap_err(),
        ChartError::NonMonotonic
    );
}

fn simple_calculator() -> PositionCalculator {
    let crotchet = Crotchet::new(vec![]).unwrap();
    let timeline = build_timeline(&Rat::from_int(120), &vec![], &crotchet).unwrap();
    PositionCalculator { crotchet_calculator: crotchet, time_calculator: timeline }
}

#[test]
fn notes_and_background_events_are_prepared() {
    let calc = simple_calculator();
    let objs = vec![
        // channel 63 is the first key lane; measure 1, halfway
        WavObj { track: 1, numerator: 1, denominator: 2, channel: 63, wav_id: 7 },
        // channel 1 is background music at measure 0, start
        WavObj { track: 0, numerator: 0, denominator: 1, channel: 1, wav_id: 9 },
        // an unused channel is dropped
        WavObj { track: 0, numerator: 0, denominator: 1, channel: 99, wav_id: 3 },
    ];
    let (notes, bgms) = prepare_notes(&objs, &calc).unwrap();
    assert_eq!(notes.len(), 1);
    assert_eq!(bgms.len(), 1);
    assert_eq!(notes[0].lane, Lane::L1);
    assert_eq!(notes[0].wav_file, 7);
    // beat 6 at 120 beats per minute arrives after 3 seconds
    assert_eq!(notes[0].real_crotchet, Rat::from_int(6));
    assert_eq!(notes[0].time, Rat::from_int(3));
    assert_eq!(bgms[0].time, Rat::from_int(0));
    assert_eq!(bgms[0].wav_file, 9);
}

#[test]
fn channels_map_to_lanes() {
    assert_eq!(lane_of_channel(68), Some(Lane::LS));
    assert_eq!(lane_of_channel(63), Some(Lane::L1));
    assert_eq!(lane_of_channel(64), Some(Lane::L2));
    assert_eq!(lane_of_channel(65), Some(Lane::L3));
    assert_eq!(lane_of_channel(66), Some(Lane::L4));
    assert_eq!(lane_of_channel(67), Some(Lane::L5));
    assert_eq!(lane_of_channel(70), Some(Lane::L6));
    assert_eq!(lane_of_channel(71), Some(Lane::L7));
    assert_eq!(lane_of_channel(1), None);
    assert_eq!(lane_of_channel(69), None);
    assert!(is_bgm_channel(1));
    assert!(!is_bgm_channel(68));
    assert_eq!(Lane::all().len(), 8);
    assert_eq!(Lane::all()[0], Lane::LS);
    assert_eq!(Lane::all()[7], Lane::L7);
}

#[test]
fn retirement_window() {
    // a note at T = 10 with tolerance 2 retires exactly at 12
    let t = Rat::from_int(10);
    let tol = Rat::from_int(2);
    assert_eq!(should_retire(&t, &Rat::new(119, 10).unwrap(), &tol).unwrap(), false);
    assert_eq!(should_retire(&t, &Rat::from_int(12), &tol).unwrap(), true);
    assert_eq!(should_retire(&t, &Rat::new(121, 10).unwrap(), &tol).unwrap(), true);
    assert_eq!(should_retire(&t, &Rat::from_int(0), &tol).unwrap(), false);
}

#[test]
fn judgement_window() {
    let t = Rat::from_int(10);
    let w = Rat::new(1, 2).unwrap();
    assert_eq!(judge_hit(&t, &Rat::new(19, 2).unwrap(), &w).unwrap(), true);
    assert_eq!(judge_hit(&t, &Rat::new(21, 2).unwrap(), &w).unwrap(), true);
    assert_eq!(judge_hit(&t, &Rat::from_int(10), &w).unwrap(), true);
    assert_eq!(judge_hit(&t, &Rat::new(94, 10).unwrap(), &w).unwrap(), false);
    assert_eq!(judge_hit(&t, &Rat::from_int(11), &w).unwrap(), false);
}

#[test]
fn closest_note_prefers_the_first_of_ties() {
    let times = vec![
        Rat::from_int(8),
        Rat::from_int(12),
        Rat::from_int(12),
        Rat::from_int(9),
    ];
    // at 10, notes at 8 and 12 are both 2 away; 9 is closer
    assert_eq!(closest_note(&times, &Rat::from_int(10)).unwrap(), 3);
    // at 10.5 the two notes at 12 tie with 9: 1.5 each; the earliest
    // of all minima is the note at 12 (index 1)... the distances are
    // |8-10.5|=2.5, |12-10.5|=1.5, |12-10.5|=1.5, |9-10.5|=1.5
    assert_eq!(closest_note(&times, &Rat::new(21, 2).unwrap()).unwrap(), 1);
    assert_eq!(closest_note(&vec![], &Rat::from_int(0)), None);
}

#[test]
fn scroll_offset_reports_distance_and_side() {
    let calc = simple_calculator();
    // constant rate 120: distance between times a and b is 120*|b-a|
    let (d, passed) = scroll_offset(
        &calc.time_calculator,
        &Rat::from_int(1),
        &Rat::from_int(3),
    ).unwrap();
    assert_eq!(d, Rat::from_int(240));
    assert!(!passed);
    let (d2, passed2) = scroll_offset(
        &calc.time_calculator,
        &Rat::from_int(3),
        &Rat::from_int(1),
    ).unwrap();
    assert_eq!(d2, Rat::from_int(240));
    assert!(passed2);
}

#[test]
fn position_integrates_velocity_changes() {
    // changes given out of order: sorted to (0,1), (10,2)
    let changes = vec![
        (Rat::from_int(10), Rat::from_int(2)),
        (Rat::from_int(0), Rat::from_int(1)),
    ];
    // segments (0,10)@1 and (10,20)@2, clock at 15: 10*1 + 5*2 = 20
    let p = compute_position(&Rat::from_int(20), &Rat::from_int(15), changes).unwrap();
    assert_eq!(p, Rat::from_int(20));

    // the clock before every change contributes nothing
    let early = compute_position(
        &Rat::from_int(20),
        &Rat::from_int(-1),
        vec![(Rat::from_int(0), Rat::from_int(1))],
    ).unwrap();
    assert_eq!(early, Rat::from_int(0));

    // no changes at all: nothing accumulates
    assert_eq!(
        compute_position(&Rat::from_int(20), &Rat::from_int(15), vec![]).unwrap(),
        Rat::from_int(0)
    );

    // a clock past the note: every segment is counted in full
    let full = compute_position(
        &Rat::from_int(20),
        &Rat::from_int(50),
        vec![(Rat::from_int(0), Rat::from_int(1)), (Rat::from_int(10), Rat::from_int(2))],
    ).unwrap();
    assert_eq!(full, Rat::from_int(30));
}

#[test]
fn audio_file_matching() {
    assert!(matches_audio_file(b"piano01.WAV", b"piano01"));
    assert!(matches_audio_file(b"piano01.ogg", b"piano01"));
    assert!(matches_audio_file(b"piano01.Ogg", b"piano01"));
    assert!(matches_audio_file(b"piano01x.wav", b"piano01"));
    assert!(!matches_audio_file(b"piano01.mp3", b"piano01"));
    assert!(!matches_audio_file(b"drum.wav", b"piano01"));
    assert!(!matches_audio_file(b"piano01wav", b"piano01"));
    assert!(!matches_audio_file(b"piano01.wave", b"piano01"));
    assert!(!matches_audio_file(b"", b"piano01"));
    assert!(matches_audio_file(b"a.b.wav", b"a.b"));
}

#[test]
fn position_keeps_the_order_of_simultaneous_changes() {
    // two changes at t = 5: the later-listed one wins from 5 on
    let changes = vec![
        (Rat::from_int(5), Rat::from_int(10)),
        (Rat::from_int(5), Rat::from_int(3)),
    ];
    let p = compute_position(&Rat::from_int(9), &Rat::from_int(7), changes).unwrap();
    // the first segment (5,5) is empty, the second runs 5..9 at 3
    assert_eq!(p, Rat::from_int(6));
}
