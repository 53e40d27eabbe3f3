use pathtrace::gf2::matrix_rank;
use pathtrace::rng::Pcg64Si;

fn draws(seed: u64, n: usize) -> Vec<u64> {
    let mut rng = Pcg64Si::new(seed);
    let mut out = Vec::new();
    for _ in 0..n {
        out.push(rng.next_u64());
    }
    out
}

#[test]
fn next_u64_reference_sequence_seed_zero() {
    assert_eq!(
        draws(0, 5),
        vec![
            0,
            7804475297823432871,
            5248727431820822368,
            8252840206086834016,
            5039375897653862762,
        ]
    );
}

#[test]
fn next_u64_reference_sequence_seed_42() {
    assert_eq!(
        draws(42, 5),
        vec![
            7101797662165212071,
            11966180113123457027,
            9748002374138552784,
            5621211096809186896,
            10541179914080870245,
        ]
    );
}

#[test]
fn next_u64_advances_state() {
    let mut rng = Pcg64Si::new(0);
    rng.next_u64();
    assert_eq!(rng.state(), 1442695040888963407);
    let mut rng = Pcg64Si::new(42);
    for _ in 0..5 {
        rng.next_u64();
    }
    assert_eq!(rng.state(), 12546512532490043765);
}

#[test]
fn same_seed_gives_same_sequence() {
    assert_eq!(draws(123456789, 1000), draws(123456789, 1000));
    assert_ne!(draws(1, 8), draws(2, 8));
}

#[test]
fn continuing_a_generator_matches_a_longer_run() {
    let mut rng = Pcg64Si::new(77);
    let first = rng.next_u64();
    let mut rest = Vec::new();
    let mut resumed = Pcg64Si::new(rng.state());
    for _ in 0..10 {
        rest.push(resumed.next_u64());
    }
    let mut expected = vec![first];
    expected.extend(rest);
    assert_eq!(draws(77, 11), expected);
}

#[test]
fn top_bits_are_roughly_uniform() {
    let n = 160_000;
    let mut buckets = [0usize; 16];
    for x in draws(2024, n) {
        buckets[(x >> 60) as usize] += 1;
    }
    for count in buckets {
        assert!(count > 9_000 && count < 11_000, "bucket count {}", count);
    }
}

#[test]
fn every_bit_is_set_about_half_the_time() {
    let n = 20_000;
    let mut ones = [0usize; 64];
    for x in draws(99, n) {
        for (bit, count) in ones.iter_mut().enumerate() {
            if (x >> bit) & 1 == 1 {
                *count += 1;
            }
        }
    }
    for count in ones {
        assert!(count > 9_400 && count < 10_600, "ones count {}", count);
    }
}

#[test]
fn random_bit_matrices_have_expected_rank_distribution() {
    let mut rng = Pcg64Si::new(5);
    let trials = 2000;
    let mut counts = [0usize; 33];
    for _ in 0..trials {
        let mut rows = [0u32; 32];
        for row in rows.iter_mut() {
            *row = (rng.next_u64() >> 32) as u32;
        }
        counts[matrix_rank(&mut rows)] += 1;
    }
    // Full rank about 28.9%, rank 31 about 57.8%, rank 30 about 12.8%.
    assert!(counts[32] > 480 && counts[32] < 680, "{:?}", counts);
    assert!(counts[31] > 1050 && counts[31] < 1260, "{:?}", counts);
    assert!(counts[30] > 180 && counts[30] < 340, "{:?}", counts);
}

#[test]
fn fraction_bits_are_the_top_24_bits() {
    let mut a = Pcg64Si::new(42);
    let mut b = Pcg64Si::new(42);
    for _ in 0..100 {
        let bits = a.next_fraction_bits();
        assert!(bits < 1 << 24);
        assert_eq!(bits as u64, b.next_u64() >> 40);
    }
    let mut c = Pcg64Si::new(42);
    assert_eq!(c.next_fraction_bits() as u64, 7101797662165212071u64 >> 40);
}
