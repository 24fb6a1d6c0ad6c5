use nanorand::{Rng, WyRand};
use rand::{Rng as _, SeedableRng, StdRng};
use rollsum::{Bup, Engine};

const WINDOW_SIZE: usize = 1 << 6;

fn sum(buf: &[u8]) -> u32 {
    let mut e = Bup::new();
    e.roll(buf);
    e.digest()
}

fn stream(len: usize, seed: u64) -> Vec<u8> {
    let mut x = seed;
    let mut data = Vec::with_capacity(len);
    for _ in 0..len {
        x = x
            .wrapping_mul(6364136223846793005)
            .wrapping_add(1442695040888963407);
        data.push((x >> 56) as u8);
    }
    data
}

#[test]
fn bup_bup_selftest() {
    const SELFTEST_SIZE: usize = 100000;
    let mut buf = vec![0u8; SELFTEST_SIZE];

    let mut rng = WyRand::new_seed(0x01020304);
    rng.fill_bytes(&mut buf);

    let sum1a: u32 = sum(&buf[0..]);
    let sum1b: u32 = sum(&buf[1..]);

    let sum2a: u32 = sum(&buf[SELFTEST_SIZE - WINDOW_SIZE * 5 / 2..SELFTEST_SIZE - WINDOW_SIZE]);
    let sum2b: u32 = sum(&buf[0..SELFTEST_SIZE - WINDOW_SIZE]);

    let sum3a: u32 = sum(&buf[0..WINDOW_SIZE + 4]);
    let sum3b: u32 = sum(&buf[3..WINDOW_SIZE + 4]);

    assert_eq!(sum1a, sum1b);
    assert_eq!(sum2a, sum2b);
    assert_eq!(sum3a, sum3b);
}

#[test]
fn tests_bup_selftest() {
    const SELFTEST_SIZE: usize = 100000;
    let mut buf = vec![0u8; SELFTEST_SIZE];

    let seed: &[_] = &[1, 2, 3, 4];
    let mut rng: StdRng = SeedableRng::from_seed(seed);
    for count in 0..SELFTEST_SIZE {
        buf[count] = rng.gen();
    }

    let sum1a: u32 = sum(&buf[0..]);
    let sum1b: u32 = sum(&buf[1..]);

    let sum2a: u32 = sum(&buf[SELFTEST_SIZE - WINDOW_SIZE * 5 / 2..SELFTEST_SIZE - WINDOW_SIZE]);
    let sum2b: u32 = sum(&buf[0..SELFTEST_SIZE - WINDOW_SIZE]);

    let sum3a: u32 = sum(&buf[0..WINDOW_SIZE + 4]);
    let sum3b: u32 = sum(&buf[3..WINDOW_SIZE + 4]);

    assert_eq!(sum1a, sum1b);
    assert_eq!(sum2a, sum2b);
    assert_eq!(sum3a, sum3b);
}

#[test]
fn short_no_chunk_keeps_window() {
    let data = [1, 2, 3];
    let mut bup = Bup::new();
    let edge = bup.find_chunk_edge(&data);
    assert_eq!(edge, None);
    let window = bup.window_ordered();
    assert_eq!(&window[window.len() - 3..], &[1, 2, 3]);
    assert!(window[..window.len() - 3].iter().all(|&b| b == 0));
}

#[test]
fn long_no_chunk_keeps_window() {
    let mut data = [0; 65];
    for (i, dst) in data.iter_mut().enumerate() {
        *dst = i as u8;
    }
    let mut bup = Bup::new();
    let edge = bup.find_chunk_edge(&data);
    assert_eq!(edge, None);
    let mut expected_window = [0; 64];
    for (i, dst) in expected_window.iter_mut().enumerate() {
        // Rolled over >64 bytes, will copy them starting from the beginning
        *dst = (i + 1) as u8;
    }
    assert_eq!(expected_window, bup.window_ordered());
}

#[test]
fn count_bits() {
    let bup = Bup::new_with_chunk_bits(1);
    // Ignores `chunk_bits + 1`th bit
    assert_eq!(bup.count_bits(0b001), 1);
    assert_eq!(bup.count_bits(0b011), 1);
    assert_eq!(bup.count_bits(0b101), 2);
    assert_eq!(bup.count_bits(0b111), 2);
    assert_eq!(bup.count_bits(0xFFFFFFFF), 31);

    let bup = Bup::new_with_chunk_bits(5);
    assert_eq!(bup.count_bits(0b0001011111), 6);
    assert_eq!(bup.count_bits(0b1011011111), 7);
    assert_eq!(bup.count_bits(0xFFFFFFFF), 31);
}

#[test]
fn bup_digest_values() {
    assert_eq!(Bup::new().digest(), 0x7c0e840);
    assert_eq!(sum(&[1, 2, 3]), 0x7c6e84a);
    assert_eq!(sum(&stream(1000, 42)), 0x2bab9e32);
    assert_eq!(Bup::default().digest(), 0x7c0e840);
}

#[test]
fn bup_roll_byte_same_as_roll() {
    let data = stream(1024, 7);
    let mut engine1 = Bup::new();
    let mut engine2 = Bup::new();
    for (i, &b) in data.iter().enumerate() {
        engine1.roll_byte(b);

        engine2.reset();
        engine2.roll(&data[..=i]);
        assert_eq!(engine1.digest(), engine2.digest());

        let mut engine3 = Bup::new();
        engine3.roll(&data[..=i]);
        assert_eq!(engine1.digest(), engine3.digest());
        assert_eq!(engine1.window_ordered(), engine3.window_ordered());
    }
}

#[test]
fn bup_reset_keeps_chunk_bits() {
    let mut bup = Bup::new_with_chunk_bits(5);
    bup.roll(&stream(300, 1));
    bup.reset();
    assert_eq!(bup.digest(), Bup::new().digest());
    assert_eq!(bup.window_ordered(), [0u8; 64]);
    assert_eq!(bup.count_bits(0b1011011111), 7);
}

#[test]
fn bup_find_chunk_edge_values() {
    let data = stream(200000, 42);
    for (bits, count, total, xor, first) in [
        (6u32, 3127usize, 199971usize, 0x2414d5bfu32, [(104usize, 661441087u32), (288, 712789887), (88, 666633599)]),
        (10, 216, 199998, 0x22ff7800, [(1184, 684923903), (250, 643372031), (50, 587297791)]),
    ] {
        let mut bup = Bup::new_with_chunk_bits(bits);
        let mut remaining = &data[..];
        let mut edges = Vec::new();
        while let Some((i, digest)) = bup.find_chunk_edge(remaining) {
            edges.push((i, digest));
            remaining = &remaining[i..];
        }
        assert_eq!(edges.len(), count);
        assert_eq!(edges.iter().map(|e| e.0).sum::<usize>(), total);
        assert_eq!(edges.iter().fold(0, |acc, e| acc ^ e.1), xor);
        assert_eq!(&edges[..3], &first);
    }
}

#[test]
fn bup_zero_chunk_bits_cuts_every_byte() {
    let mut bup = Bup::new_with_chunk_bits(0);
    assert_eq!(bup.find_chunk_edge(&[5, 6, 7]), Some((1, 130410565)));
    assert_eq!(bup.find_chunk_edge(&[6, 7]), Some((1, 130476102)));
    assert_eq!(bup.find_chunk_edge(&[]), None);
}

#[test]
fn bup_chunk_edge_correct_digest() {
    let mut engine1 = Bup::new();
    let data = stream(512 * 1024, 3);
    let mut remaining = &data[..];
    let mask = 0x0FFFu32;
    while let Some((i, digest)) =
        engine1.find_chunk_edge_cond(remaining, |e: &Bup| e.digest() & mask == mask)
    {
        assert_eq!(digest & mask, mask);
        let mut engine2 = Bup::new();
        engine2.roll(&remaining[..i]);
        assert_eq!(engine2.digest(), digest);

        engine2.reset();
        for &b in &remaining[..i - 1] {
            engine2.roll_byte(b);
            assert_ne!(engine2.digest() & mask, mask)
        }
        engine2.roll_byte(remaining[i - 1]);
        assert_eq!(engine2.digest() & mask, mask);
        assert_eq!(engine2.digest(), digest);

        remaining = &remaining[i..];
        engine2.reset();
        assert_eq!(engine2.digest(), engine1.digest());
    }
    let mut engine2 = Bup::new();
    engine2.roll(&data);
    assert_eq!(engine1.digest(), engine2.digest());
}

#[test]
fn bup_chunk_edge_incremental() {
    const INCREMENTAL_SIZE: usize = 307;
    let data = stream(1024 * 1024, 11);
    let mask = 0x0FFFu32;
    let f = |e: &Bup| e.digest() & mask == mask;

    let mut engine1 = Bup::new();
    let mut last_edge = 0;
    for (frame_i, frame) in data.chunks(INCREMENTAL_SIZE).enumerate() {
        let mut engine2 = Bup::new();
        let mut consumed = 0;
        while let Some((off, digest)) = engine1.find_chunk_edge_cond(&frame[consumed..], f) {
            consumed += off;
            let actual_edge = frame_i * INCREMENTAL_SIZE + consumed;
            assert_eq!(
                engine2.find_chunk_edge_cond(&data[last_edge..], f),
                Some((actual_edge - last_edge, digest)),
            );
            last_edge = actual_edge;
        }
        assert_eq!(
            engine2.find_chunk_edge_cond(
                &data[last_edge..frame_i * INCREMENTAL_SIZE + frame.len()],
                f
            ),
            None,
        );
    }
}

fn chunk(mut data: &[u8]) -> Vec<Vec<u8>> {
    let mask = 0x0FFFu32;
    let mut engine = Bup::new();
    let mut result = Vec::new();
    while let Some((i, _)) = engine.find_chunk_edge_cond(data, |e: &Bup| e.digest() & mask == mask)
    {
        result.push(data[..i].to_vec());
        data = &data[i..];
    }
    result.push(data.to_vec());
    result
}

#[test]
fn bup_chunk_edge_converges() {
    let data = stream(64 * 1024, 5);
    let chunks = chunk(&data);
    for i in 1..300 {
        let other_chunks = chunk(&data[i..]);
        let len = chunks.len() - 3;
        assert_eq!(
            chunks.windows(len).last().unwrap(),
            other_chunks.windows(len).last().unwrap()
        );
    }
}

#[test]
fn bup_chunk_edge_with_insert() {
    let mut data = stream(1024 * 1024, 9);
    let chunks: std::collections::HashSet<Vec<u8>> = chunk(&data).into_iter().collect();
    data.insert(5000, b'!');
    let other_chunks: std::collections::HashSet<Vec<u8>> = chunk(&data).into_iter().collect();
    let different_chunks = chunks.symmetric_difference(&other_chunks).count();
    assert!(chunks.len() > 100);
    assert!(other_chunks.len() > 100);
    assert!(different_chunks < 4);
}
