use wavepack::TimedWave;
use wavepack::TimedWavePacker;
use wavepack::Wave;

fn timed(start: i64, end: i64) -> TimedWave {
    TimedWave { start, end, wave: Wave::default() }
}

#[test]
fn depositing() {
    let waves: TimedWavePacker = TimedWavePacker::from_waves(vec![
        timed(0, 6),
        timed(5, 8),
        timed(7, 9),
        timed(8, 12),
    ]);
    let mut waves = waves.get_pack().unwrap();
    let deposit = match waves.deposit_current(Vec::new(), 0, 8) {
        Ok((d, 5)) => d,
        Ok((_, n)) => panic!("next pause was {} insead of 5", n),
        Err(_) => panic!("failed to deposit"),
    };
    assert_eq!(deposit, vec![timed(0, 6)]);

    let deposit = match waves.deposit_current(deposit, 5, 8) {
        Ok((d, 6)) => d,
        Ok((_, n)) => panic!("next pause was {} insead of 6", n),
        Err(_) => panic!("failed to deposit"),
    };
    assert_eq!(deposit, vec![timed(0, 6), timed(5, 8)]);

    let deposit = match waves.deposit_current(deposit, 6, 8) {
        Ok((d, 7)) => d,
        Ok((_, n)) => panic!("next pause was {} insead of 7", n),
        Err(_) => panic!("failed to deposit"),
    };
    assert_eq!(deposit, vec![timed(5, 8)]);

    let deposit = match waves.deposit_current(deposit, 7, 8) {
        Ok((d, 8)) => d,
        Ok((_, n)) => panic!("next pause was {} insead of 8", n),
        Err(_) => panic!("failed to deposit"),
    };
    assert_eq!(deposit, vec![timed(5, 8), timed(7, 9)]);

    let packer = match waves.deposit_current(deposit, 8, 8) {
        Err(p) => p,
        Ok(_) => panic!("deposit failed to abort"),
    };
    let correct_packer: TimedWavePacker = TimedWavePacker::from_waves(vec![
        timed(7, 9),
        timed(8, 12),
    ]);
    assert_eq!(packer, correct_packer);
}
