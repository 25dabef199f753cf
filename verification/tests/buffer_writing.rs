use wavepack::Player;
use wavepack::TimedWave;
use wavepack::TimedWavePacker;
use wavepack::Wave;

fn poly_eval(coeffs: &[u32], t: f32) -> f32 {
    if coeffs.len() == 1 {
        return f32::from_bits(coeffs[0]);
    }
    let mut term = 1.0f32;
    let mut sum = 0.0f32;
    for &bits in coeffs {
        sum += f32::from_bits(bits) * term;
        term *= t;
    }
    sum
}

fn wave_eval(tw: &TimedWave, time: i64) -> f32 {
    let adjusted = (time - tw.start) as f32;
    let freq = poly_eval(&tw.wave.freq, adjusted);
    let amp = poly_eval(&tw.wave.amp, adjusted);
    let phase = f32::from_bits(tw.wave.phase);
    amp * (std::f32::consts::TAU * (adjusted + phase) * freq).sin()
}

#[test]
fn buffer_writing() {
    let wave = Wave {
        freq: vec![1.0f32.to_bits()],
        amp: vec![0.25f32.to_bits()],
        phase: 0.25f32.to_bits(),
    };
    let waves: TimedWavePacker = TimedWavePacker::from_waves(vec![
        TimedWave { start: 0, end: 6, wave: wave.clone() },
        TimedWave { start: 5, end: 8, wave: wave.clone() },
        TimedWave { start: 7, end: 9, wave: wave.clone() },
        TimedWave { start: 8, end: 12, wave: wave.clone() },
    ]);
    let waves = waves.get_pack().unwrap();
    let mut player = Player::new(waves, 0, 11);
    let mut playback = [0.0f32; 7];
    let segs = player.play(playback.len()).unwrap();
    let mut idx = 0usize;
    for seg in &segs {
        for j in 0..seg.count {
            let t = seg.start_time + j as i64;
            let sample: f32 = seg.waves.iter().map(|tw| wave_eval(tw, t)).sum();
            playback[idx] = sample;
            idx += 1;
        }
    }
    assert_eq!(idx, 7);
    assert_eq!(playback, [0.25, 0.25, 0.25, 0.25, 0.25, 0.5, 0.25]);
    assert_eq!(player.current_time(), 7);
}
