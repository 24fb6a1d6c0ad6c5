use crate::masks::{lcg_next, mask_state, place_bit, popcount, reaches};
use vstd::prelude::*;

// The mask generator stops once the mask holds enough one bits. That it ever does is a fact
// about the seed: for seed 0 it is shown here by walking the generator through its first 38
// rounds, after which the mask holds 33 bits, more than any chunk size asks for.

verus! {

/// One round from a known state: the generator's next value is `v2`, its low six bits are
/// `r`, and the mask with its low bit set, rotated by `r`, is `m2`.
proof fn lemma_round(n: nat, m: u64, v: u64, r: u64, m2: u64, v2: u64)
    requires
        n > 0,
        mask_state(0, (n - 1) as nat) == (m, v),
        v2 == (v * 6364136223846793005 + 1442695040888963407) % 0x1_0000_0000_0000_0000,
        r == v2 % 64,
        r != 0,
        m2 == ((m | 1) << r) | ((m | 1) >> ((64 - r) as u64)),
    ensures
        mask_state(0, n) == (m2, v2),
{
    assert(lcg_next(v) == v2);
    assert(place_bit(m, v2) == m2);
}

/// Rounds 1 to 8 of the generator started from seed 0.
proof fn lemma_rounds_0_to_8()
    ensures
        mask_state(0, 8) == (0x6004010000001820u64, 0x5b21778e3c8666a8u64),
{
    assert(
        (0x0000000000008000u64 == ((0x0000000000000000u64 | 1) << 15u64) | ((0x0000000000000000u64 | 1) >> 49u64))
        && (0x0004000000000002u64 == ((0x0000000000008000u64 | 1) << 50u64) | ((0x0000000000008000u64 | 1) >> 14u64))
        && (0x0000000006000800u64 == ((0x0004000000000002u64 | 1) << 25u64) | ((0x0004000000000002u64 | 1) >> 39u64))
        && (0x8010000000006000u64 == ((0x0000000006000800u64 | 1) << 52u64) | ((0x0000000006000800u64 | 1) >> 12u64))
        && (0x000c008000000003u64 == ((0x8010000000006000u64 | 1) << 51u64) | ((0x8010000000006000u64 | 1) >> 13u64))
        && (0x03002000000000c0u64 == ((0x000c008000000003u64 | 1) << 6u64) | ((0x000c008000000003u64 | 1) >> 58u64))
        && (0x0000001820600400u64 == ((0x03002000000000c0u64 | 1) << 29u64) | ((0x03002000000000c0u64 | 1) >> 35u64))
        && (0x6004010000001820u64 == ((0x0000001820600400u64 | 1) << 40u64) | ((0x0000001820600400u64 | 1) >> 24u64))
    ) by (bit_vector);
    lemma_round(1, 0x0000000000000000, 0x0000000000000000, 15, 0x0000000000008000, 0x14057b7ef767814f);
    lemma_round(2, 0x0000000000008000, 0x14057b7ef767814f, 50, 0x0004000000000002, 0x1a08ee1184ba6d32);
    lemma_round(3, 0x0004000000000002, 0x1a08ee1184ba6d32, 25, 0x0000000006000800, 0x9af678222e728119);
    lemma_round(4, 0x0000000006000800, 0x9af678222e728119, 52, 0x8010000000006000, 0x66b61ae97f2099b4);
    lemma_round(5, 0x8010000000006000, 0x66b61ae97f2099b4, 51, 0x000c008000000003, 0x62354cda6226d1f3);
    lemma_round(6, 0x000c008000000003, 0x62354cda6226d1f3, 6, 0x03002000000000c0, 0x8f947f36d0d0f606);
    lemma_round(7, 0x03002000000000c0, 0x8f947f36d0d0f606, 29, 0x0000001820600400, 0x144093704fadba5d);
    lemma_round(8, 0x0000001820600400, 0x144093704fadba5d, 40, 0x6004010000001820, 0x5b21778e3c8666a8);
}

/// Rounds 9 to 16 of the generator started from seed 0.
proof fn lemma_rounds_8_to_16()
    requires
        mask_state(0, 8) == (0x6004010000001820u64, 0x5b21778e3c8666a8u64),
    ensures
        mask_state(0, 16) == (0x4430000849831600u64, 0x329cb23ce0f7aa50u64),
{
    assert(
        (0x8000000c10b00200u64 == ((0x6004010000001820u64 | 1) << 23u64) | ((0x6004010000001820u64 | 1) >> 41u64))
        && (0x3042c00806000000u64 == ((0x8000000c10b00200u64 | 1) << 26u64) | ((0x8000000c10b00200u64 | 1) >> 38u64))
        && (0x0c00000260858010u64 == ((0x3042c00806000000u64 | 1) << 33u64) | ((0x3042c00806000000u64 | 1) >> 31u64))
        && (0x2608580110c00000u64 == ((0x0c00000260858010u64 | 1) << 28u64) | ((0x0c00000260858010u64 | 1) >> 36u64))
        && (0x093042c008860000u64 == ((0x2608580110c00000u64 | 1) << 59u64) | ((0x2608580110c00000u64 | 1) >> 5u64))
        && (0x8000424c10b00221u64 == ((0x093042c008860000u64 | 1) << 46u64) | ((0x093042c008860000u64 | 1) >> 18u64))
        && (0x1600443000084982u64 == ((0x8000424c10b00221u64 | 1) << 37u64) | ((0x8000424c10b00221u64 | 1) >> 27u64))
        && (0x4430000849831600u64 == ((0x1600443000084982u64 | 1) << 16u64) | ((0x1600443000084982u64 | 1) >> 48u64))
    ) by (bit_vector);
    lemma_round(9, 0x6004010000001820, 0x5b21778e3c8666a8, 23, 0x8000000c10b00200, 0x7b985bc1e7bce4d7);
    lemma_round(10, 0x8000000c10b00200, 0x7b985bc1e7bce4d7, 26, 0x3042c00806000000, 0x7252e9376e45641a);
    lemma_round(11, 0x3042c00806000000, 0x7252e9376e45641a, 33, 0x0c00000260858010, 0xa220229ec164ffe1);
    lemma_round(12, 0x0c00000260858010, 0xa220229ec164ffe1, 28, 0x2608580110c00000, 0x5d7d4da4cb0e1adc);
    lemma_round(13, 0x2608580110c00000, 0x5d7d4da4cb0e1adc, 59, 0x093042c008860000, 0x0c73aa0d9a415dfb);
    lemma_round(14, 0x093042c008860000, 0x0c73aa0d9a415dfb, 46, 0x8000424c10b00221, 0x18e9107ab99b8b6e);
    lemma_round(15, 0x8000424c10b00221, 0x18e9107ab99b8b6e, 37, 0x1600443000084982, 0xe9bcd26890f095a5);
    lemma_round(16, 0x1600443000084982, 0xe9bcd26890f095a5, 16, 0x4430000849831600, 0x329cb23ce0f7aa50);
}

/// Rounds 17 to 24 of the generator started from seed 0.
proof fn lemma_rounds_16_to_24()
    requires
        mask_state(0, 16) == (0x4430000849831600u64, 0x329cb23ce0f7aa50u64),
    ensures
        mask_state(0, 24) == (0x4900acb831601447u64, 0x307892d5fe586af8u64),
{
    assert(
        (0x24c18b00a2180004u64 == ((0x4430000849831600u64 | 1) << 31u64) | ((0x4430000849831600u64 | 1) >> 33u64))
        && (0x93062c0288600014u64 == ((0x24c18b00a2180004u64 | 1) << 2u64) | ((0x24c18b00a2180004u64 | 1) >> 62u64))
        && (0xc0002b260c580510u64 == ((0x93062c0288600014u64 | 1) << 41u64) | ((0x93062c0288600014u64 | 1) >> 23u64))
        && (0x0002b260c580511cu64 == ((0xc0002b260c580510u64 | 1) << 4u64) | ((0xc0002b260c580510u64 | 1) >> 60u64))
        && (0x001593062c0288e8u64 == ((0x0002b260c580511cu64 | 1) << 3u64) | ((0x0002b260c580511cu64 | 1) >> 61u64))
        && (0xc18b00a23a400564u64 == ((0x001593062c0288e8u64 | 1) << 22u64) | ((0x001593062c0288e8u64 | 1) >> 42u64))
        && (0x00acb83160144748u64 == ((0xc18b00a23a400564u64 | 1) << 45u64) | ((0xc18b00a23a400564u64 | 1) >> 19u64))
        && (0x4900acb831601447u64 == ((0x00acb83160144748u64 | 1) << 56u64) | ((0x00acb83160144748u64 | 1) >> 8u64))
    ) by (bit_vector);
    lemma_round(17, 0x4430000849831600, 0x329cb23ce0f7aa50, 31, 0x24c18b00a2180004, 0x8362aa9340fe215f);
    lemma_round(18, 0x24c18b00a2180004, 0x8362aa9340fe215f, 2, 0x93062c0288600014, 0xf986342416ec8002);
    lemma_round(19, 0x93062c0288600014, 0xf986342416ec8002, 41, 0xc0002b260c580510, 0x368083376ba4ffa9);
    lemma_round(20, 0xc0002b260c580510, 0x368083376ba4ffa9, 4, 0x0002b260c580511c, 0x6912b247b79a4904);
    lemma_round(21, 0x0002b260c580511c, 0x6912b247b79a4904, 3, 0x001593062c0288e8, 0xaefab65d77135303);
    lemma_round(22, 0x001593062c0288e8, 0xaefab65d77135303, 22, 0xc18b00a23a400564, 0xbfc7666ab0ba95d6);
    lemma_round(23, 0xc18b00a23a400564, 0xbfc7666ab0ba95d6, 45, 0x00acb83160144748, 0xdec3f99f561701ed);
    lemma_round(24, 0x00acb83160144748, 0xdec3f99f561701ed, 56, 0x4900acb831601447, 0x307892d5fe586af8);
}

/// Rounds 25 to 32 of the generator started from seed 0.
proof fn lemma_rounds_24_to_32()
    requires
        mask_state(0, 24) == (0x4900acb831601447u64, 0x307892d5fe586af8u64),
    ensures
        mask_state(0, 32) == (0x0acb8337416c7490u64, 0x0da130a0806148a0u64),
{
    assert(
        (0xb00a23a480565c18u64 == ((0x4900acb831601447u64 | 1) << 39u64) | ((0x4900acb831601447u64 | 1) >> 25u64))
        && (0x597066c0288e9201u64 == ((0xb00a23a480565c18u64 | 1) << 42u64) | ((0xb00a23a480565c18u64 | 1) >> 22u64))
        && (0x2402b2e0cd80511du64 == ((0x597066c0288e9201u64 | 1) << 49u64) | ((0x597066c0288e9201u64 | 1) >> 15u64))
        && (0x0511d2402b2e0cd8u64 == ((0x2402b2e0cd80511du64 | 1) << 44u64) | ((0x2402b2e0cd80511du64 | 1) >> 20u64))
        && (0x8e9201597066c828u64 == ((0x0511d2402b2e0cd8u64 | 1) << 11u64) | ((0x0511d2402b2e0cd8u64 | 1) >> 53u64))
        && (0x63a480565c19b20au64 == ((0x8e9201597066c828u64 | 1) << 62u64) | ((0x8e9201597066c828u64 | 1) >> 2u64))
        && (0x416c74900acb8336u64 == ((0x63a480565c19b20au64 | 1) << 53u64) | ((0x63a480565c19b20au64 | 1) >> 11u64))
        && (0x0acb8337416c7490u64 == ((0x416c74900acb8336u64 | 1) << 32u64) | ((0x416c74900acb8336u64 | 1) >> 32u64))
    ) by (bit_vector);
    lemma_round(25, 0x4900acb831601447, 0x307892d5fe586af8, 39, 0xb00a23a480565c18, 0x7c15eb1a6c5b56e7);
    lemma_round(26, 0xb00a23a480565c18, 0x7c15eb1a6c5b56e7, 42, 0x597066c0288e9201, 0x74078c767c0560ea);
    lemma_round(27, 0x597066c0288e9201, 0x74078c767c0560ea, 49, 0x2402b2e0cd80511d, 0x2d2acce24f9fa071);
    lemma_round(28, 0x2402b2e0cd80511d, 0x2d2acce24f9fa071, 44, 0x0511d2402b2e0cd8, 0x6f47682e14d3c42c);
    lemma_round(29, 0x0511d2402b2e0cd8, 0x6f47682e14d3c42c, 11, 0x8e9201597066c828, 0x13621127ec8ed10b);
    lemma_round(30, 0x8e9201597066c828, 0x13621127ec8ed10b, 62, 0x63a480565c19b20a, 0x9a109dfc559db53e);
    lemma_round(31, 0x63a480565c19b20a, 0x9a109dfc559db53e, 53, 0x416c74900acb8336, 0x4ab009d226201f35);
    lemma_round(32, 0x416c74900acb8336, 0x4ab009d226201f35, 32, 0x0acb8337416c7490, 0x0da130a0806148a0);
}

/// Rounds 33 to 38 of the generator started from seed 0.
proof fn lemma_rounds_32_to_38()
    requires
        mask_state(0, 32) == (0x0acb8337416c7490u64, 0x0da130a0806148a0u64),
    ensures
        mask_state(0, 38) == (0x67c19be0b73a68c5u64, 0x8b9a402e6ec889a6u64),
{
    assert(
        (0x3a488565c19ba0b6u64 == ((0x0acb8337416c7490u64 | 1) << 47u64) | ((0x0acb8337416c7490u64 | 1) >> 17u64))
        && (0x1597066e82dce922u64 == ((0x3a488565c19ba0b6u64 | 1) << 18u64) | ((0x3a488565c19ba0b6u64 | 1) >> 46u64))
        && (0x462b2e0cdd05b9d2u64 == ((0x1597066e82dce922u64 | 1) << 57u64) | ((0x1597066e82dce922u64 | 1) >> 7u64))
        && (0xe0cdd05b9d3462b2u64 == ((0x462b2e0cdd05b9d2u64 | 1) << 20u64) | ((0x462b2e0cdd05b9d2u64 | 1) >> 44u64))
        && (0x82dce9a3159f066eu64 == ((0xe0cdd05b9d3462b2u64 | 1) << 19u64) | ((0xe0cdd05b9d3462b2u64 | 1) >> 45u64))
        && (0x67c19be0b73a68c5u64 == ((0x82dce9a3159f066eu64 | 1) << 38u64) | ((0x82dce9a3159f066eu64 | 1) >> 26u64))
    ) by (bit_vector);
    lemma_round(33, 0x0acb8337416c7490, 0x0da130a0806148a0, 47, 0x3a488565c19ba0b6, 0xa8f485b490a8a56f);
    lemma_round(34, 0x3a488565c19ba0b6, 0xa8f485b490a8a56f, 18, 0x1597066e82dce922, 0x2dd1b3c84cb9a6d2);
    lemma_round(35, 0x1597066e82dce922, 0x2dd1b3c84cb9a6d2, 57, 0x462b2e0cdd05b9d2, 0xac82b442fe060239);
    lemma_round(36, 0x462b2e0cdd05b9d2, 0xac82b442fe060239, 20, 0xe0cdd05b9d3462b2, 0xba09c177d0bd2c54);
    lemma_round(37, 0xe0cdd05b9d3462b2, 0xba09c177d0bd2c54, 19, 0x82dce9a3159f066e, 0xb18070243e89f813);
    lemma_round(38, 0x82dce9a3159f066e, 0xb18070243e89f813, 38, 0x67c19be0b73a68c5, 0x8b9a402e6ec889a6);
}

/// The mask after 38 rounds holds 33 one bits.
proof fn lemma_popcount_round_38()
    ensures
        popcount(0x67c19be0b73a68c5u64) == 33,
{
    reveal_with_fuel(popcount, 9);
    assert(popcount(0x67u64) == 5);
    assert(popcount(0x67c1u64) == 8);
    assert(popcount(0x67c19bu64) == 13);
    assert(popcount(0x67c19be0u64) == 16);
    assert(popcount(0x67c19be0b7u64) == 22);
    assert(popcount(0x67c19be0b73au64) == 26);
    assert(popcount(0x67c19be0b73a68u64) == 29);
    assert(popcount(0x67c19be0b73a68c5u64) == 33);
}

/// After 38 rounds from seed 0 the mask holds 33 one bits.
pub proof fn lemma_seed_zero_round_38()
    ensures
        mask_state(0, 38).0 == 0x67c19be0b73a68c5u64,
        popcount(mask_state(0, 38).0) == 33,
{
    lemma_rounds_0_to_8();
    lemma_rounds_8_to_16();
    lemma_rounds_16_to_24();
    lemma_rounds_24_to_32();
    lemma_rounds_32_to_38();
    lemma_popcount_round_38();
}

/// From seed 0 the generator gives a mask of every size up to 33 bits.
pub proof fn lemma_seed_zero_reaches(target: nat)
    requires
        target <= 33,
    ensures
        reaches(0, target),
{
    lemma_seed_zero_round_38();
    assert(popcount(mask_state(0, 38).0) >= target);
}

} // verus!
