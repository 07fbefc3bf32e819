use frand::Rand;
use micro_bloom::MicroBloom;

fn gen_rand_nonce(rand: &mut Rand) -> [u8; 12] {
    let mut result: [u8; 12] = [0u8; 12];
    for i in 0..3 {
        let rnum = rand.gen::<u32>().to_le_bytes();
        result[i * 4] = rnum[0];
        result[i * 4 + 1] = rnum[1];
        result[i * 4 + 2] = rnum[2];
        result[i * 4 + 3] = rnum[3];
    }
    result
}

// Statistical characteristics of the filter, against the theoretical
// false-positive estimate for 8192 bits and 3 probes.
#[test]
fn test_statistical() {
    let mut bloom = MicroBloom::new(256, 3).unwrap();
    let mut rand = Rand::with_seed(0);

    for _ in 0..3000u32 {
        bloom.insert(&gen_rand_nonce(&mut rand));
    }
    let mut false_positives: u32 = 0;
    for _ in 0..1000u32 {
        if bloom.check(&gen_rand_nonce(&mut rand)) {
            false_positives += 1;
        }
    }
    let false_positives_percentage: f32 = false_positives as f32 / 1000.0;
    assert!(0.27 < false_positives_percentage && false_positives_percentage < 0.31);

    for _ in 0..13000u32 {
        bloom.insert(&gen_rand_nonce(&mut rand));
    }
    let mut false_positives: u32 = 0;
    for _ in 0..1000u32 {
        if bloom.check(&gen_rand_nonce(&mut rand)) {
            false_positives += 1;
        }
    }
    let false_positives_percentage: f32 = false_positives as f32 / 1000.0;
    assert!(0.97 < false_positives_percentage && false_positives_percentage < 1.00);
}
