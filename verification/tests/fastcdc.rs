use rollsum::masks::get_masks;
use rollsum::{Engine, FastCDC, Gear};

fn stream(len: usize, seed: u64) -> Vec<u8> {
    let mut x = seed;
    let mut data = Vec::with_capacity(len);
    for _ in 0..len {
        x = x
            .wrapping_mul(6364136223846793005)
            .wrapping_add(1442695040888963407);
        data.push((x >> 56) as u8);
    }
    data
}

fn chunks(cdc: &mut FastCDC, data: &[u8]) -> Vec<(usize, u64)> {
    let mut remaining = data;
    let mut edges = Vec::new();
    while let Some((i, digest)) = cdc.find_chunk(remaining) {
        edges.push((i, digest));
        remaining = &remaining[i..];
    }
    edges
}

#[test]
fn masks_for_default_size_are_the_published_ones() {
    assert_eq!(get_masks(1 << 13, 2, 0), (0x0003590703530000, 0x0000d90003530000));
    assert_eq!(get_masks(5000, 3, 7), (0x0003590703530000, 0x0000d90003530000));
}

#[test]
fn masks_generated_values() {
    assert_eq!(get_masks(1 << 8, 2, 0), (0x0c00000260858010, 0x0000001820600400));
    assert_eq!(get_masks(1 << 9, 2, 0), (0x2608580110c00000, 0x6004010000001820));
    assert_eq!(get_masks(1 << 12, 2, 0), (0x4430000849831600, 0x0c00000260858010));
    assert_eq!(get_masks(1 << 14, 2, 0), (0x93062c0288600014, 0x093042c008860000));
    assert_eq!(get_masks(1 << 16, 2, 0), (0x0002b260c580511c, 0x4430000849831600));
    assert_eq!(get_masks(1 << 31, 2, 0), (0x67c19be0b73a68c5, 0x1597066e82dce922));
    assert_eq!(get_masks(1000, 2, 0), (0x093042c008860000, 0x8000000c10b00200));
}

#[test]
fn masks_have_the_bit_counts_asked_for() {
    for bits in 2u32..32 {
        if bits == 13 {
            continue;
        }
        let (short, long) = get_masks(1usize << bits, 2, 0);
        assert_eq!(short.count_ones(), bits + 2);
        assert_eq!(long.count_ones(), bits - 2);
    }
    let (short, long) = get_masks(1 << 13, 2, 0);
    assert_eq!(short.count_ones(), 15);
    assert_eq!(long.count_ones(), 11);
}

#[test]
fn fastcdc_chunk_values() {
    let data = stream(200000, 42);
    for (bits, count, total, xor, longest, shortest, first) in [
        (
            8u32,
            681usize,
            199598usize,
            0x507ee3749dc38be5u64,
            581usize,
            65usize,
            [(328usize, 5509651695368903202u64), (263, 4750740183951509620)],
        ),
        (
            10,
            161,
            198302,
            0xf3bbd69487272bb9,
            2659,
            303,
            [(1258, 2146923462534276245), (1728, 6068668266275587166)],
        ),
        (
            13,
            19,
            187000,
            0x2df900ea34a8db58,
            13316,
            3080,
            [(8498, 1395839596898293461), (8952, 6631874097087517641)],
        ),
    ] {
        let mut cdc = FastCDC::new_with_chunk_bits(bits);
        let edges = chunks(&mut cdc, &data);
        assert_eq!(edges.len(), count);
        assert_eq!(edges.iter().map(|e| e.0).sum::<usize>(), total);
        assert_eq!(edges.iter().fold(0, |acc, e| acc ^ e.1), xor);
        assert_eq!(edges.iter().map(|e| e.0).max(), Some(longest));
        assert_eq!(edges.iter().map(|e| e.0).min(), Some(shortest));
        assert_eq!(&edges[..2], &first);
    }
}

#[test]
fn fastcdc_default_is_13_bits() {
    let data = stream(200000, 42);
    let mut cdc = FastCDC::new();
    let edges = chunks(&mut cdc, &data);
    assert_eq!(edges.len(), 19);
    assert_eq!(edges[0], (8498, 1395839596898293461));
    let mut cdc = FastCDC::default();
    assert_eq!(cdc.find_chunk(&data), Some((8498, 1395839596898293461)));
}

#[test]
fn fastcdc_size_bounds() {
    let data = stream(1024 * 1024, 77);
    for bits in [8u32, 9, 11, 13] {
        let mut cdc = FastCDC::new_with_chunk_bits(bits);
        let edges = chunks(&mut cdc, &data);
        assert!(edges.len() > 10);
        for &(len, _) in &edges {
            assert!(len > 1 << (bits - 2));
            assert!(len <= 1 << (bits + 3));
        }
    }
}

#[test]
fn fastcdc_hard_cutoff_at_largest_size() {
    let data = vec![0u8; 5000];
    let mut cdc = FastCDC::new_with_chunk_bits(8);
    assert_eq!(cdc.find_chunk(&data), Some((2048, 4967509797499218176)));
    assert_eq!(cdc.find_chunk(&data[2048..]), Some((2048, 4967509797499218176)));
    assert_eq!(cdc.find_chunk(&data[4096..]), None);
    assert_eq!(cdc.find_chunk(&data[..1144]), Some((1144, 4967509797499218176)));
}

#[test]
fn fastcdc_looser_mask_beyond_average() {
    let data = vec![118u8; 5000];
    let mut cdc = FastCDC::new_with_chunk_bits(8);
    assert_eq!(cdc.find_chunk(&data), Some((257, 16250321312684217332)));
    assert_eq!(cdc.find_chunk(&data[257..]), Some((257, 16250321312684217332)));
}

#[test]
fn fastcdc_digest_is_that_of_the_whole_chunk() {
    let data = stream(200000, 5);
    let mut cdc = FastCDC::new_with_chunk_bits(10);
    let mut remaining = &data[..];
    let mut found = 0;
    while let Some((i, digest)) = cdc.find_chunk(remaining) {
        let mut gear = Gear::new();
        for &b in &remaining[..i] {
            gear.roll_byte(b);
        }
        assert_eq!(gear.digest(), digest);
        remaining = &remaining[i..];
        found += 1;
    }
    assert!(found > 50);
}

#[test]
fn fastcdc_streaming_equivalence() {
    let data = stream(300000, 99);
    let mut whole = FastCDC::new_with_chunk_bits(9);
    let mut expected = Vec::new();
    let mut offset = 0;
    while let Some((i, digest)) = whole.find_chunk(&data[offset..]) {
        offset += i;
        expected.push((offset, digest));
    }
    for fragment in [1usize, 7, 63, 64, 307, 4096, 100000] {
        let mut cdc = FastCDC::new_with_chunk_bits(9);
        let mut got = Vec::new();
        for (frame_i, frame) in data.chunks(fragment).enumerate() {
            let mut consumed = 0;
            while let Some((i, digest)) = cdc.find_chunk(&frame[consumed..]) {
                consumed += i;
                got.push((frame_i * fragment + consumed, digest));
            }
        }
        assert_eq!(got, expected);
    }
}

#[test]
fn fastcdc_reset_starts_a_new_chunk() {
    let data = stream(50000, 17);
    let mut fresh = FastCDC::new_with_chunk_bits(10);
    let expected = fresh.find_chunk(&data);
    assert!(expected.is_some());

    let mut cdc = FastCDC::new_with_chunk_bits(10);
    assert_eq!(cdc.find_chunk(&data[..200]), None);
    cdc.reset();
    assert_eq!(cdc.find_chunk(&data), expected);
}

#[test]
fn fastcdc_empty_buffer() {
    let mut cdc = FastCDC::new();
    assert_eq!(cdc.find_chunk(&[]), None);
}

fn chunk_set(data: &[u8]) -> std::collections::HashSet<Vec<u8>> {
    let mut cdc = FastCDC::new_with_chunk_bits(10);
    let mut set = std::collections::HashSet::new();
    let mut remaining = data;
    while let Some((i, _)) = cdc.find_chunk(remaining) {
        set.insert(remaining[..i].to_vec());
        remaining = &remaining[i..];
    }
    set.insert(remaining.to_vec());
    set
}

#[test]
fn fastcdc_chunk_edge_with_insert() {
    let mut data = stream(1024 * 1024, 9);
    let chunks = chunk_set(&data);
    data.insert(5000, b'!');
    let other_chunks = chunk_set(&data);
    let different_chunks = chunks.symmetric_difference(&other_chunks).count();
    assert!(chunks.len() > 100);
    assert!(other_chunks.len() > 100);
    assert!(different_chunks < 8);
}
