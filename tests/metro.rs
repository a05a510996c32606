use sample_accurate::{Event, EventPayload, Level, Metro, Phase};

fn transport(offset: usize, bpm: Option<u32>, speed: Option<i32>, beat: Option<u64>) -> Event {
    Event { offset, payload: EventPayload::TransportInfo { bpm, speed, beat_position: beat } }
}

#[test]
fn metro_refuses_low_rates() {
    assert!(Metro::new(0).is_none());
    assert!(Metro::new(879).is_none());
    assert!(Metro::new(880).is_some());
}

#[test]
fn metro_configuration_at_48k() {
    let m = Metro::new(48000).unwrap();
    assert_eq!(m.frames_per_beat(), 24000);
    assert_eq!(m.attack_len(), 240);
    assert_eq!(m.decay_len(), 3600);
    assert_eq!(m.wave_len(), 54);
    assert_eq!(m.bpm(), 120_000);
    assert_eq!(m.speed(), 0);
    assert_eq!(m.phase(), Phase::Off);
    assert_eq!(m.elapsed_len(), 0);
}

#[test]
fn metro_frames_per_beat_rounds() {
    let mut m = Metro::new(44100).unwrap();
    m.update_position(Some(140_000), None, None);
    // 60 * 44100 / 140 = 18900
    assert_eq!(m.frames_per_beat(), 18900);
    m.update_position(Some(7_000), None, None);
    // 60 * 44100 / 7 = 378000
    assert_eq!(m.frames_per_beat(), 378000);
    m.update_position(Some(130_000), None, None);
    // 20353.846... rounds to 20354
    assert_eq!(m.frames_per_beat(), 20354);
    m.update_position(Some(0), None, None);
    assert_eq!(m.bpm(), 130_000);
}

#[test]
fn metro_beat_cycle() {
    let mut m = Metro::new(48000).unwrap();
    let mut out = vec![Level::Silent; 24001];
    m.run(&vec![transport(0, None, Some(1000), None)], &mut out);
    for (i, level) in out.iter().enumerate() {
        let cursor = i % 54;
        let expected = if i < 240 {
            Level::Scaled { cursor, num: i as u64, den: 240 }
        } else if i < 3840 {
            Level::Scaled { cursor, num: (3840 - i) as u64, den: 3600 }
        } else if i < 24000 {
            Level::Silent
        } else {
            Level::Scaled { cursor, num: 0, den: 240 }
        };
        assert_eq!(*level, expected, "frame {}", i);
    }
    assert_eq!(m.elapsed_len(), 1);
    assert_eq!(m.phase(), Phase::Attack);
}

#[test]
fn metro_phase_after_each_frame() {
    let mut m = Metro::new(48000).unwrap();
    m.update_position(None, Some(1000), None);
    let mut out = vec![Level::Silent; 1];
    for f in 0..24000usize {
        m.run(&vec![], &mut out);
        let expected = if f < 240 {
            Phase::Attack
        } else if f < 3840 {
            Phase::Decay
        } else if f < 23999 {
            Phase::Off
        } else {
            Phase::Attack
        };
        assert_eq!(m.phase(), expected, "frame {}", f);
    }
    assert_eq!(m.elapsed_len(), 0);
}

#[test]
fn metro_stopped_is_silent() {
    let mut m = Metro::new(48000).unwrap();
    m.update_position(None, Some(1000), Some(100));
    let mut out = vec![Level::Silent; 16];
    m.run(&vec![], &mut out);
    assert!(out.iter().any(|l| *l != Level::Silent));
    let elapsed = m.elapsed_len();
    let cursor = m.wave_offset();
    m.update_position(None, Some(0), None);
    let mut out = vec![Level::Scaled { cursor: 1, num: 1, den: 1 }; 64];
    m.run(&vec![transport(10, Some(90_000), None, None)], &mut out);
    assert!(out.iter().all(|l| *l == Level::Silent));
    assert_eq!(m.elapsed_len(), elapsed);
    assert_eq!(m.wave_offset(), cursor);
}

#[test]
fn metro_starts_mid_block() {
    let mut m = Metro::new(48000).unwrap();
    let mut out = vec![Level::Scaled { cursor: 1, num: 1, den: 1 }; 8];
    m.run(&vec![transport(5, None, Some(1000), None)], &mut out);
    assert_eq!(&out[..5], &[Level::Silent; 5]);
    assert_eq!(out[5], Level::Scaled { cursor: 0, num: 0, den: 240 });
    assert_eq!(out[7], Level::Scaled { cursor: 2, num: 2, den: 240 });
}

#[test]
fn metro_beat_position_resyncs() {
    let mut m = Metro::new(48000).unwrap();
    m.update_position(None, Some(1000), Some(2_500_000));
    assert_eq!(m.elapsed_len(), 12000);
    assert_eq!(m.phase(), Phase::Off);
    m.update_position(None, None, Some(3_005_000));
    assert_eq!(m.elapsed_len(), 120);
    assert_eq!(m.phase(), Phase::Attack);
    m.update_position(None, None, Some(10_000));
    assert_eq!(m.elapsed_len(), 240);
    assert_eq!(m.phase(), Phase::Decay);
    let mut out = vec![Level::Silent; 2];
    m.run(&vec![], &mut out);
    assert_eq!(out[0], Level::Scaled { cursor: 0, num: 3600, den: 3600 });
    assert_eq!(out[1], Level::Scaled { cursor: 1, num: 3599, den: 3600 });
}

#[test]
fn metro_resync_uses_new_tempo() {
    let mut m = Metro::new(48000).unwrap();
    m.update_position(Some(60_000), Some(1000), Some(500_000));
    assert_eq!(m.frames_per_beat(), 48000);
    assert_eq!(m.elapsed_len(), 24000);
}

#[test]
fn metro_tempo_change_restarts_overdue_beat() {
    let mut m = Metro::new(48000).unwrap();
    m.update_position(None, Some(1000), Some(900_000));
    assert_eq!(m.elapsed_len(), 21600);
    let mut out = vec![Level::Silent; 2];
    m.run(&vec![transport(0, Some(240_000), None, None)], &mut out);
    assert_eq!(out[0], Level::Silent);
    assert_eq!(out[1], Level::Scaled { cursor: 1, num: 0, den: 240 });
}

#[test]
fn metro_play_clamps() {
    let mut m = Metro::new(48000).unwrap();
    m.update_position(None, Some(1000), None);
    let mut out = vec![Level::Silent; 4];
    m.play(2, 100, &mut out);
    assert_eq!(out[0], Level::Silent);
    assert_eq!(out[2], Level::Scaled { cursor: 0, num: 0, den: 240 });
    assert_eq!(out[3], Level::Scaled { cursor: 1, num: 1, den: 240 });
    assert_eq!(m.elapsed_len(), 2);
    m.play(9, 1, &mut out);
    assert_eq!(m.elapsed_len(), 2);
}
