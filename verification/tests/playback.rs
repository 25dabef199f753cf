use wavepack::Player;
use wavepack::TimedWave;
use wavepack::TimedWavePacker;
use wavepack::Wave;

fn poly_eval(coeffs: &[u32], t: f32) -> f32 {
    if coeffs.len() == 1 {
        return f32::from_bits(coeffs[0]);
    }
    let mut term = 1.0f32;
    let mut sum = 0.0f32;
    for &bits in coeffs {
        sum += f32::from_bits(bits) * term;
        term *= t;
    }
    sum
}

fn wave_eval(tw: &TimedWave, time: i64) -> f32 {
    let adjusted = (time - tw.start) as f32;
    let freq = poly_eval(&tw.wave.freq, adjusted);
    let amp = poly_eval(&tw.wave.amp, adjusted);
    let phase = f32::from_bits(tw.wave.phase);
    amp * (std::f32::consts::TAU * (adjusted + phase) * freq).sin()
}

fn render(segs: &[wavepack::PlaySegment], out: &mut Vec<f32>) {
    for seg in segs {
        for j in 0..seg.count {
            let t = seg.start_time + j as i64;
            out.push(seg.waves.iter().map(|tw| wave_eval(tw, t)).sum());
        }
    }
}

fn four_waves() -> TimedWavePacker {
    let wave = Wave {
        freq: vec![1.0f32.to_bits()],
        amp: vec![0.25f32.to_bits()],
        phase: 0.25f32.to_bits(),
    };
    TimedWavePacker::from_waves(vec![
        TimedWave { start: 0, end: 6, wave: wave.clone() },
        TimedWave { start: 5, end: 8, wave: wave.clone() },
        TimedWave { start: 7, end: 9, wave: wave.clone() },
        TimedWave { start: 8, end: 12, wave: wave.clone() },
    ])
}

#[test]
fn wakeup_is_next_death_or_birth() {
    // Disjoint windows: the first pause is the death of the live wave, the
    // next one is the birth of the far wave, then its own death.
    let packer = TimedWavePacker::from_waves(vec![timed(0, 2), timed(10, 12)]);
    let mut view = packer.get_pack().unwrap();
    let (live, pause) = view.deposit_current(Vec::new(), 0, 100).unwrap();
    assert_eq!(pause, 2);
    assert_eq!(live.len(), 1);
    let (live, pause) = view.deposit_current(live, 2, 100).unwrap();
    assert_eq!(pause, 10);
    assert!(live.is_empty());
    let (live, pause) = view.deposit_current(live, 10, 100).unwrap();
    assert_eq!(pause, 12);
    assert_eq!(live.len(), 1);
    let (live, pause) = view.deposit_current(live, 12, 100).unwrap();
    assert_eq!(pause, 100);
    assert!(live.is_empty());
}

fn timed(start: i64, end: i64) -> TimedWave {
    TimedWave { start, end, wave: Wave::default() }
}

#[test]
fn exhaustion_round_trip_matches_uninterrupted() {
    // Uninterrupted: one session whose horizon covers the whole schedule.
    let mut uninterrupted = Player::new(four_waves().get_pack().unwrap(), 0, 100);
    let segs = uninterrupted.play(12).unwrap();
    let mut full = Vec::new();
    render(&segs, &mut full);

    // Interrupted at horizon 8, then resumed from the returned packer.
    let mut first = Player::new(four_waves().get_pack().unwrap(), 0, 8);
    let (packer, segs) = match first.play(12) {
        Err(pair) => pair,
        Ok(_) => panic!("horizon 8 cannot cover 12 samples"),
    };
    let mut stitched = Vec::new();
    render(&segs, &mut stitched);
    assert_eq!(stitched.len(), 8);
    let mut second = Player::new(packer.get_pack().unwrap(), 8, 100);
    let segs = second.play(4).unwrap();
    render(&segs, &mut stitched);

    assert_eq!(stitched, full);
}

#[test]
fn play_stores_live_set_between_calls() {
    // Two calls over the same schedule give the same samples as one call.
    let mut whole = Player::new(four_waves().get_pack().unwrap(), 0, 12);
    let segs = whole.play(12).unwrap();
    let mut full = Vec::new();
    render(&segs, &mut full);
    assert_eq!(full.len(), 12);

    let mut split = Player::new(four_waves().get_pack().unwrap(), 0, 12);
    let mut parts = Vec::new();
    let segs = split.play(5).unwrap();
    render(&segs, &mut parts);
    assert_eq!(split.current_time(), 5);
    let segs = split.play(7).unwrap();
    render(&segs, &mut parts);
    assert_eq!(split.current_time(), 12);
    assert_eq!(parts, full);
}

#[test]
fn silence_when_nothing_scheduled() {
    let mut player = Player::new(TimedWavePacker::new().get_pack().unwrap(), 0, 10);
    let segs = player.play(3).unwrap();
    let total: usize = segs.iter().map(|s| s.count).sum();
    assert_eq!(total, 3);
    assert!(segs.iter().all(|s| s.waves.is_empty()));
    assert_eq!(player.current_time(), 3);
}

#[test]
fn equal_starts_keep_insertion_order() {
    let packer = TimedWavePacker::from_waves(vec![timed(0, 4), timed(0, 7)]);
    let mut view = packer.get_pack().unwrap();
    let (live, pause) = view.deposit_current(Vec::new(), 0, 100).unwrap();
    assert_eq!(live, vec![timed(0, 4), timed(0, 7)]);
    assert_eq!(pause, 4);
}

#[test]
fn exhausted_player_is_empty() {
    let mut player = Player::new(four_waves().get_pack().unwrap(), 0, 8);
    assert!(player.play(12).is_err());
    // The session was consumed: nothing more can be played from it.
    assert_eq!(player.current_time(), 8);
    match player.play(1) {
        Err((packer, segs)) => {
            assert!(segs.is_empty());
            assert_eq!(packer, TimedWavePacker::new());
        },
        Ok(_) => panic!("an exhausted session cannot play on"),
    }
}
