use vstd::prelude::*;

verus! {

/// The byte-indexed table of 64-bit constants that the shift-accumulate hash adds.
pub const GEAR_TABLE: [u64; 256] = [
    0xbb0fdc287dc95700, 0xdc8af028e8c047b9, 0x2c55bc7bb0bb6a6e, 0x0cac84a61f189b63,
    0xa0af8f333ac9400e, 0x2a6537e04c2db060, 0xd5fbbb955685e796, 0x77f5baf9198b52c2,
    0x7b61794480f68812, 0x2b196124cf8c1746, 0xa15a53ffa92e5412, 0xd967855f9f40ad38,
    0xd869cdfcb95723b5, 0xc171ef5af7562d60, 0x68608ead4eb82c46, 0x4c3d8f36bc6977a2,
    0xd7523ac79d7bc0d1, 0xdfb972684e6ed4dc, 0xbd4b074ff05acf7f, 0xc26faf514824943a,
    0x359e04bae945f011, 0x52ce788ba8113dff, 0x3b7f744b724cdd40, 0x60ca68ad5eabe132,
    0x5effe16663fa367f, 0x4c05d361741b1dfc, 0x3e71b5b0a3d18786, 0x8d9d03d7046a3dcc,
    0x7b989274caa7c8d9, 0xd8779555411badf4, 0x2ceaea696fd34d12, 0xa019bb53f2bbcf9d,
    0x48219ba54e6c907d, 0x349321856444cf8d, 0xd4826d51bd0650e3, 0x65f3f9c538d5459d,
    0xa2d3ab1864bc433e, 0x0ba2a8051b0837e4, 0xa4efb19153f66f2c, 0x425aebbe3de13317,
    0x92d347898d02aa86, 0x136a0b7969e2228f, 0xb3fdde401e7bbe37, 0x14c36315eb9e3e90,
    0x6cc7f84196225c5a, 0x2ef6d18aea4b75bd, 0x383df4fccb0b037d, 0x5b78582b0f37991e,
    0x4859d3df6201ed8c, 0xbd206503a70c186f, 0xc21e0986675df2ba, 0xa282f095c905d6c0,
    0x9e599be6bf02637a, 0xa65edd61056b72d6, 0x3b63b26c20e4ad5b, 0xb5fbeb6f74748e64,
    0xddd47b9024830168, 0x8f43ebb1ebede630, 0xcce7a7eaf34eeb3b, 0x50605291820a42ed,
    0x9c375a78c6fe846d, 0x4e3ab6f8662c33f7, 0x1a33244c21f6db0f, 0xf315ea701b354a4e,
    0x4a4dae9e40233433, 0xbc3aa155968bf298, 0x660703e644062c68, 0x506b5483b63aec47,
    0xeb657c4e932eb3f6, 0x355b1573d8db0508, 0x5f53671c9ddf5019, 0xa61949e9bb9727d5,
    0x9b00c989706c6bbe, 0xe70081a61c87a511, 0xcc40eeda16b80610, 0xcc446f0644f05a52,
    0x95d8ea8b58f56831, 0xb7824b3c2fcc8731, 0x0945d1c173a9bdcd, 0xdac7c0ab6592a1fb,
    0x932e15ed6acf6325, 0x47d43dc1f31d6446, 0x09cd223d8740124f, 0xfb76d62c42c7be77,
    0x27edbca505daecdb, 0xd3aa6b690c93dea6, 0xfdcb7764a30cdd07, 0x5b4dbfc5dc919e5b,
    0xab07a1f69062ddf2, 0x193c9ecffef8db7e, 0x377fd32c6e451f8a, 0x08680ae0081f30d4,
    0x15716e4037c96130, 0x93c8d527a100db46, 0x5926f020f43a2038, 0x6414a00d1fb759f0,
    0x928b5d3f2407f2df, 0xb605aff354451951, 0xfb5d108bbe9a927d, 0x2d083b25e132db06,
    0x8c3c162e30e425d8, 0x543a6566d88906b4, 0xb9f8c24a28137748, 0x018980dea8a051be,
    0xfbf28b9e1ace04cd, 0x7c2fbc696b826aef, 0x20925f4507f844fd, 0x8f61b996c321786a,
    0xb1bd6320d4b164eb, 0xdb54ccd5c20929ce, 0x0633bc13b78bb579, 0xc1e1291d947e03f6,
    0x6eedb2fc55ebab1c, 0xc39ed75a9e6ba289, 0x6fb0ce6801f76024, 0xf85a9e3e7f0a1b5b,
    0x99d86bfdec924113, 0x0977f41168f20611, 0x1e7b42dd2f7f6c0c, 0x30d29644f9928b16,
    0x75e56ceb81f717ed, 0xd1feac9a1bd9fd9b, 0x9bed40fe544b6cec, 0xc98eebbfbe2aeb7f,
    0x6d28544c306d96df, 0x458d57c4e3d045e4, 0x49df2b8d1089c004, 0xa0704a756af16846,
    0xab072098e02f3d8a, 0x2de2a8277c1d60b4, 0xb2e8deca97198798, 0xd06ca3d4bbaa3d08,
    0xcc2cc535ba15f791, 0x1dc88376cd2af4b9, 0x05c41da718642ee3, 0xdb2939bcd4906f9b,
    0xf89355ecf625968b, 0x84cbb6ffa29a2687, 0xcac0347f2be812bf, 0xbcdb0b3dbfb3a878,
    0x9f9a482f7263e6e3, 0x5ffbd4ac7df35372, 0x88eaa7f8aa068d43, 0x5435fe3f8a945836,
    0xe9d370777c4d7b24, 0x1c1f6fb21984341d, 0x8177933b3f6c11f6, 0x27ffbcb977970b68,
    0x67bb06e03b9293c9, 0xb04243d4146abdda, 0x4cb625c9296f92ed, 0x24e10de049f551c5,
    0x3169ebdb8d2efc7f, 0x868e777d5fc297ad, 0xae5154df1c785f53, 0xbfa98068d9895cee,
    0xb30719d59a732a0c, 0x6c3496166b30c995, 0xfef7b53d0a9dff53, 0xd990e2c0b6852aaf,
    0xd612757b6074d33b, 0x265b8f10820e5b22, 0x7ab92859c42f3fba, 0xe5e58b54500a2201,
    0x4109e5932e3d86ce, 0x584eb78feedb54ab, 0xe00eb81e56952bba, 0xd9d5f0d3472d93b1,
    0x66235a4a04251481, 0x1038b6cfb943356c, 0xc77eeedb2b5f6994, 0x5174f0e9aa0dad50,
    0xb8fb6111cbf31093, 0x89dd89f2ae4f1a8a, 0x4cc9e0805f54c63d, 0xc96f6d54fb0011c3,
    0xe1dce594054339dd, 0x1fc1f4b64412eb80, 0xcf757d0e7e05365a, 0x307ae76c223bc0cd,
    0x58edfaab611522ac, 0x037f393e3fa41edd, 0x9736be1953f94444, 0x8acb31953033c696,
    0xe825a82ff15dbbc6, 0xfea847ebacbd6ece, 0xa2d9c0af011d3570, 0x87f96de4cd5f70a1,
    0x2f0e195e44408968, 0x3f36bec3fc4e6e49, 0x3b451b7928ed360d, 0x4f1630e17a21a898,
    0xa458abf7cc011ad0, 0xe13cf7a578f081bc, 0x21ad08b670878499, 0xe7bbc4ff8224b16e,
    0x4069f5cdfb8827a8, 0x2db9fb73d366b9c3, 0xbbbf91443f230e2a, 0xed52ca1f5ebacbe3,
    0x0ac34c8a18a1a5ef, 0xe7616df16facbd63, 0xe81a5b8a1370b788, 0xdfb7f2875fbc65c9,
    0x848f5bbfd2e00978, 0xaa694e2efaec362d, 0x98667d71fe8bc68e, 0x8e72c3d4cf9aae63,
    0xe99cc5512738af4f, 0x30e4f239690d1856, 0x41e73e369745c790, 0x56c5e122097a2b47,
    0xa4d42db767e905a0, 0xd4a0e988ed99cc94, 0xc05036cb65fef44c, 0xb6a98fb5a0692071,
    0x1d1a0123f2d993ec, 0x84b73b37402950fb, 0x32839a45b112f5e3, 0xe6935b1e714595ae,
    0x9ca7308c537c760a, 0x9540c77d920dfe6c, 0xecc53f47e0db6252, 0x8bb4d5812e943dd1,
    0xb4b57a8341ae8c13, 0xa01e07afdf2d0cd9, 0x6df56d64679f235e, 0xaf1f02b37c1de0cd,
    0xafb3525510b21b37, 0x7bc80f81184eda5b, 0xb1baea08277cc6f9, 0x3ef56aed78283356,
    0x76511f0977e494ed, 0xa61c9bbddc9304df, 0x56ef9027cb471458, 0x8005c665e95ae9ef,
    0x2542498ca5a4a627, 0xa430d8c351ef97cb, 0x97f880b78f5af525, 0xe148d30cfaa4ceb0,
    0xda38e9df9e38fd2f, 0x1edd821ed0c601c3, 0xa1a2d53a20c68e56, 0x8d809ff5211e6d7e,
    0x6a6b85e38fca5ed3, 0xf4a49eb871979e07, 0x901adb28733c84a7, 0x64ac0ee4fe224434,
    0x62b4242d9754f1e8, 0x1808216e5ad3f376, 0xcd3f5ef62cdaebb4, 0xed8ac7127ba986ad,
    0x432fc1f1b401ab6e, 0xb340acae5a6b20b6, 0xa5fc53f5d380ae14, 0x7bc809377dcbaa2f,
];

/// The table entry that a byte selects.
pub open spec fn gear_entry(byte: u8) -> u64 {
    GEAR_TABLE[byte as int]
}

pub fn gear_lookup(byte: u8) -> (entry: u64)
    ensures
        entry == gear_entry(byte),
{
    GEAR_TABLE[byte as usize]
}

} // verus!
