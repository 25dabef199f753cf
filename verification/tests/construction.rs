use wavepack::MultiPoly;
use wavepack::PackedTimedWaves;
use wavepack::TimedWave;
use wavepack::TimedWavePacker;
use wavepack::Wave;

fn timed(start: i64, end: i64) -> TimedWave {
    TimedWave { start, end, wave: Wave::default() }
}

#[test]
fn unsorted_timings_refused() {
    let packer = TimedWavePacker::from_waves(vec![timed(5, 8), timed(0, 6)]);
    assert!(packer.get_pack().is_none());
}

#[test]
fn sorted_timings_accepted() {
    let packer = TimedWavePacker::from_waves(vec![timed(0, 6), timed(0, 3), timed(5, 8)]);
    assert!(packer.get_pack().is_some());
}

#[test]
fn empty_pack_accepted() {
    let packer = TimedWavePacker::new();
    assert!(packer.get_pack().is_some());
}

#[test]
fn mismatched_lengths_refused() {
    // One window, but no run lengths or phases at all.
    let view = PackedTimedWaves::new(vec![(0, 4)], Vec::new(), Vec::new(), Vec::new(), Vec::new(), Vec::new());
    assert!(view.is_none());
}

#[test]
fn run_sum_mismatch_refused() {
    // The run byte claims two coefficients; only one is there.
    let view = PackedTimedWaves::new(
        vec![(0, 4)],
        vec![1.5f32.to_bits()],
        vec![2],
        vec![0.5f32.to_bits()],
        vec![1],
        vec![0],
    );
    assert!(view.is_none());
}

#[test]
fn view_construction_checks_order() {
    let view = PackedTimedWaves::new(
        vec![(3, 5), (1, 2)],
        Vec::new(),
        vec![0, 0],
        Vec::new(),
        vec![0, 0],
        vec![0, 0],
    );
    assert!(view.is_none());
}

#[test]
fn multipoly_decodes_runs() {
    let coeffs: Vec<u32> = vec![10, 20, 30, 40, 50, 60];
    let mut poly = MultiPoly::new(coeffs, vec![2, 0, 3, 1]).unwrap();
    assert_eq!(poly.next(), Some(vec![10, 20]));
    assert_eq!(poly.next(), Some(Vec::new()));
    assert_eq!(poly.next(), Some(vec![30, 40, 50]));
    assert_eq!(poly.next(), Some(vec![60]));
    assert_eq!(poly.next(), None);
}

#[test]
fn multipoly_rejects_wrong_total() {
    assert!(MultiPoly::new(vec![1, 2, 3], vec![2, 2]).is_none());
    assert!(MultiPoly::new(vec![1, 2, 3], vec![2]).is_none());
}

#[test]
fn bulk_generate_matches_extend() {
    let mut by_waves = TimedWavePacker::new();
    by_waves.extend(vec![
        TimedWave {
            start: 2,
            end: 9,
            wave: Wave { freq: vec![7, 8], amp: vec![9], phase: 4 },
        },
        TimedWave {
            start: 3,
            end: 5,
            wave: Wave { freq: vec![1], amp: Vec::new(), phase: 6 },
        },
    ]);
    let mut by_groups = TimedWavePacker::new();
    by_groups.bulk_generate(
        vec![(2, 9), (3, 5)],
        vec![vec![7, 8], vec![1]],
        vec![vec![9], Vec::new()],
        vec![4, 6],
    );
    assert_eq!(by_waves, by_groups);
}
