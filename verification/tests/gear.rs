use nanorand::{Rng, WyRand};
use rollsum::engine::roll_windowed;
use rollsum::gear::WINDOW_SIZE;
use rollsum::{Engine, Gear};

fn rand_data(len: usize) -> Vec<u8> {
    let mut data = vec![0; len];
    let mut rng = WyRand::new_seed(0x01020304);
    rng.fill_bytes(&mut data);
    data
}

fn stream(len: usize, seed: u64) -> Vec<u8> {
    let mut x = seed;
    let mut data = Vec::with_capacity(len);
    for _ in 0..len {
        x = x
            .wrapping_mul(6364136223846793005)
            .wrapping_add(1442695040888963407);
        data.push((x >> 56) as u8);
    }
    data
}

#[test]
fn effective_window_size() {
    let ones = vec![0x1; 1024];
    let zeroes = vec![0x0; 1024];

    let mut gear = Gear::new();
    gear.roll(&ones);
    let digest = gear.digest();

    let mut gear = Gear::new();
    gear.roll(&zeroes);

    for (i, &b) in ones.iter().enumerate() {
        if gear.digest() == digest {
            assert_eq!(i, WINDOW_SIZE);
            return;
        }
        gear.roll_byte(b);
    }

    panic!("matching digest not found");
}

#[test]
fn edge_expected_size() {
    let data = rand_data(2 * 1024 * 1024);
    for bits in 4..13 {
        let mut gear = Gear::new_with_chunk_bits(bits);
        let mut size_count = 0;
        let mut total_sizes = 0;
        let mut remaining = &data[..];
        while let Some((i, _)) = gear.find_chunk_edge(remaining) {
            size_count += 1;
            total_sizes += i;
            remaining = &remaining[i..];
        }

        let expected_average = (1 << bits) as f64;
        let average = total_sizes as f64 / size_count as f64;
        assert!((average - expected_average).abs() / expected_average < 0.1)
    }
}

#[test]
fn gear_digest_values() {
    let mut gear = Gear::new();
    assert_eq!(gear.digest(), 0);
    gear.roll(&[1, 2, 3]);
    assert_eq!(gear.digest(), 0xd783be4123908f23);

    let data = stream(1000, 42);
    let mut gear = Gear::default();
    gear.roll(&data);
    assert_eq!(gear.digest(), 0x4357828fdc04126a);

    let mut gear = Gear::new();
    gear.roll(&data[936..]);
    assert_eq!(gear.digest(), 0x4357828fdc04126a);
}

#[test]
fn gear_roll_byte_same_as_roll() {
    let data = stream(1024, 7);
    let mut engine1 = Gear::new();
    let mut engine2 = Gear::new();
    for (i, &b) in data.iter().enumerate() {
        engine1.roll_byte(b);

        engine2.reset();
        engine2.roll(&data[..=i]);
        assert_eq!(engine1.digest(), engine2.digest());

        let mut engine3 = Gear::new();
        engine3.roll(&data[..=i]);
        assert_eq!(engine1.digest(), engine3.digest());
    }
}

#[test]
fn gear_roll_windowed_takes_last_window() {
    let data = stream(500, 21);
    let mut whole = Gear::new();
    for &b in &data {
        whole.roll_byte(b);
    }
    let mut windowed = Gear::new();
    roll_windowed(&mut windowed, WINDOW_SIZE, &data);
    assert_eq!(whole.digest(), windowed.digest());

    let mut short = Gear::new();
    roll_windowed(&mut short, 3, &[9, 1, 2, 3]);
    let mut expected = Gear::new();
    expected.roll(&[1, 2, 3]);
    assert_eq!(short.digest(), expected.digest());
    assert_eq!(short.digest(), 0xd783be4123908f23);

    let mut all = Gear::new();
    roll_windowed(&mut all, 8, &[1, 2, 3]);
    assert_eq!(all.digest(), 0xd783be4123908f23);
}

#[test]
fn gear_find_chunk_edge_values() {
    let data = stream(200000, 42);
    for (bits, count, total, xor, first) in [
        (
            6u32,
            3289usize,
            199974usize,
            0x42ddc5390fb9cu64,
            [(10usize, 77505792084679976u64), (59, 139329333333530230), (67, 38907403548329943)],
        ),
        (
            10,
            170,
            199517,
            0x2de2ab69651863,
            [(934, 7800388981751900), (1943, 1162122648234960), (495, 9472031181425211)],
        ),
    ] {
        let mut gear = Gear::new_with_chunk_bits(bits);
        let mut remaining = &data[..];
        let mut edges = Vec::new();
        while let Some((i, digest)) = gear.find_chunk_edge(remaining) {
            edges.push((i, digest));
            remaining = &remaining[i..];
        }
        assert_eq!(edges.len(), count);
        assert_eq!(edges.iter().map(|e| e.0).sum::<usize>(), total);
        assert_eq!(edges.iter().fold(0, |acc, e| acc ^ e.1), xor);
        assert_eq!(&edges[..3], &first);
    }
}

#[test]
fn gear_zero_chunk_bits_cuts_every_byte() {
    let mut gear = Gear::new_with_chunk_bits(0);
    assert_eq!(gear.find_chunk_edge(&[5, 6, 7]), Some((1, 3054909358731014240)));
    assert_eq!(gear.find_chunk_edge(&[6, 7]), Some((1, 15419123999309162390)));
    assert_eq!(gear.find_chunk_edge(&[]), None);
}

#[test]
fn gear_find_chunk_mask_first_match() {
    let data = stream(100000, 13);
    let mask = 0x0000d90003530000u64;
    let mut gear = Gear::new();
    let mut remaining = &data[..];
    let mut found = 0;
    while let Some((i, digest)) = gear.find_chunk_mask(remaining, mask) {
        assert_eq!(digest & mask, 0);
        let mut check = Gear::new();
        for &b in &remaining[..i - 1] {
            check.roll_byte(b);
            assert_ne!(check.digest() & mask, 0);
        }
        check.roll_byte(remaining[i - 1]);
        assert_eq!(check.digest(), digest);
        assert_eq!(gear.digest(), 0);
        remaining = &remaining[i..];
        found += 1;
    }
    assert!(found > 10);
    let mut rest = Gear::new();
    rest.roll(remaining);
    assert_eq!(gear.digest(), rest.digest());
}

#[test]
fn gear_chunk_edge_correct_digest() {
    let mut engine1 = Gear::new();
    let data = stream(512 * 1024, 3);
    let mut remaining = &data[..];
    let mask = 0x0FFFu64;
    while let Some((i, digest)) =
        engine1.find_chunk_edge_cond(remaining, |e: &Gear| e.digest() & mask == mask)
    {
        assert_eq!(digest & mask, mask);
        let mut engine2 = Gear::new();
        engine2.roll(&remaining[..i]);
        assert_eq!(engine2.digest(), digest);

        engine2.reset();
        for &b in &remaining[..i - 1] {
            engine2.roll_byte(b);
            assert_ne!(engine2.digest() & mask, mask)
        }
        engine2.roll_byte(remaining[i - 1]);
        assert_eq!(engine2.digest() & mask, mask);
        assert_eq!(engine2.digest(), digest);

        remaining = &remaining[i..];
        engine2.reset();
        assert_eq!(engine2.digest(), engine1.digest());
    }
    let mut engine2 = Gear::new();
    engine2.roll(&data);
    assert_eq!(engine1.digest(), engine2.digest());
}

#[test]
fn gear_chunk_edge_incremental() {
    const INCREMENTAL_SIZE: usize = 307;
    let data = stream(1024 * 1024, 11);
    let mask = 0x0FFFu64;
    let f = |e: &Gear| e.digest() & mask == mask;

    let mut engine1 = Gear::new();
    let mut last_edge = 0;
    for (frame_i, frame) in data.chunks(INCREMENTAL_SIZE).enumerate() {
        let mut engine2 = Gear::new();
        let mut consumed = 0;
        while let Some((off, digest)) = engine1.find_chunk_edge_cond(&frame[consumed..], f) {
            consumed += off;
            let actual_edge = frame_i * INCREMENTAL_SIZE + consumed;
            assert_eq!(
                engine2.find_chunk_edge_cond(&data[last_edge..], f),
                Some((actual_edge - last_edge, digest)),
            );
            last_edge = actual_edge;
        }
        assert_eq!(
            engine2.find_chunk_edge_cond(
                &data[last_edge..frame_i * INCREMENTAL_SIZE + frame.len()],
                f
            ),
            None,
        );
    }
}

fn chunk(mut data: &[u8]) -> Vec<Vec<u8>> {
    let mask = 0x0FFFu64;
    let mut engine = Gear::new();
    let mut result = Vec::new();
    while let Some((i, _)) =
        engine.find_chunk_edge_cond(data, |e: &Gear| e.digest() & mask == mask)
    {
        result.push(data[..i].to_vec());
        data = &data[i..];
    }
    result.push(data.to_vec());
    result
}

#[test]
fn gear_chunk_edge_converges() {
    let data = stream(64 * 1024, 5);
    let chunks = chunk(&data);
    for i in 1..300 {
        let other_chunks = chunk(&data[i..]);
        let len = chunks.len() - 3;
        assert_eq!(
            chunks.windows(len).last().unwrap(),
            other_chunks.windows(len).last().unwrap()
        );
    }
}

#[test]
fn gear_chunk_edge_with_insert() {
    let mut data = stream(1024 * 1024, 9);
    let chunks: std::collections::HashSet<Vec<u8>> = chunk(&data).into_iter().collect();
    data.insert(5000, b'!');
    let other_chunks: std::collections::HashSet<Vec<u8>> = chunk(&data).into_iter().collect();
    let different_chunks = chunks.symmetric_difference(&other_chunks).count();
    assert!(chunks.len() > 100);
    assert!(other_chunks.len() > 100);
    assert!(different_chunks < 4);
}
