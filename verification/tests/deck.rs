use rand::SeedableRng;
use rand_pcg::Pcg32;
use threes::deck::Deck;

#[test]
fn next() {
    let mut rng = Pcg32::seed_from_u64(7);
    let mut d = Deck::new(&mut rng);
    let mut got = Vec::new();
    for _ in 0..12 {
        got.push(d.next(&mut rng));
    }
    assert_eq!(got.iter().filter(|&x| *x == 1).count(), 4);
    assert_eq!(got.iter().filter(|&x| *x == 2).count(), 4);
    assert_eq!(got.iter().filter(|&x| *x == 3).count(), 4);
    assert_eq!(got.len(), 12);

    got.clear();
    for _ in 0..12 {
        got.push(d.next(&mut rng));
    }
    assert_eq!(got.iter().filter(|&x| *x == 1).count(), 4);
    assert_eq!(got.iter().filter(|&x| *x == 2).count(), 4);
    assert_eq!(got.iter().filter(|&x| *x == 3).count(), 4);
    assert_eq!(got.len(), 12);
}

#[test]
fn twelve_draw_windows_for_many_seeds() {
    for seed in 0..20u64 {
        let mut rng = Pcg32::seed_from_u64(seed);
        let mut d = Deck::new(&mut rng);
        for _ in 0..3 {
            let mut got = Vec::new();
            for _ in 0..12 {
                got.push(d.next(&mut rng));
            }
            assert_eq!(got.iter().filter(|&x| *x == 1).count(), 4);
            assert_eq!(got.iter().filter(|&x| *x == 2).count(), 4);
            assert_eq!(got.iter().filter(|&x| *x == 3).count(), 4);
        }
    }
}

#[test]
fn counts_full_and_after_draws() {
    let mut rng = Pcg32::seed_from_u64(11);
    let mut d = Deck::new(&mut rng);
    assert_eq!(d.counts(), [4, 4, 4]);
    let first = d.next(&mut rng);
    let c = d.counts();
    assert_eq!(c[0] + c[1] + c[2], 11);
    assert_eq!(c[(first - 1) as usize], 3);
}
