//! The 64-bit-source conversions, checked on literal bit patterns.

fn check6432(input: u64, expected: u32) {
    let actual = ibmfloat::convert::ibm64ieee32(input);
    assert_eq!(
        actual, expected,
        "ibm64ieee32(0x{:016x}): got 0x{:08x}, expected 0x{:08x}",
        input, actual, expected
    );
}

fn check6464(input: u64, expected: u64) {
    let actual = ibmfloat::convert::ibm64ieee64(input);
    assert_eq!(
        actual, expected,
        "ibm64ieee64(0x{:016x}): got 0x{:016x}, expected 0x{:016x}",
        input, actual, expected
    );
}

#[test]
fn overflows() {
    check6432(0xe1e11a0a0add4c1a, 0xff800000);
    check6432(0xffff000000000000, 0xff800000);
    check6432(0xe1e11a0a0add4c1a, 0xff800000);
}

#[test]
fn normal_round_ties_to_even() {
    check6432(0xcc4c00dd4c1a0000, 0xd69801bb);
    check6432(0x3b2600003b260000, 0x34180001);
    check6432(0x4c4c4c4cd70a0000, 0x5698989a);
    check6432(0x4d4cffffffffffff, 0x589a0000);
}

#[test]
fn possible_subnormal_round_ties_to_even() {
    check6432(0x2000ffffffffffff, 0x00002000);
    check6432(0x1b4c4c2628282828, 0x00000001);
    check6432(0x22010000fe400004, 0x00200020);
}

#[test]
fn underflows() {
    check6432(0x0000000000260000, 0x00000000);
    check6432(0x0000ff11ff11ff4c, 0x00000000);
    check6432(0x80000000000000fc, 0x80000000);
    check6432(0x8000000000260000, 0x80000000);
}

#[test]
fn ibm64ieee32_python_test_cases() {
    check6432(0x0000000000000001, 0x00000000);
    check6432(0x8000000000000001, 0x80000000);
    check6432(0x1effffffffffffff, 0x00002000);
    check6432(0x9effffffffffffff, 0x80002000);
    check6432(0x1fffffffffffffff, 0x00020000);
    check6432(0x9fffffffffffffff, 0x80020000);
    check6432(0x20ffffffffffffff, 0x00200000);
    check6432(0xa0ffffffffffffff, 0x80200000);
    check6432(0x213fffffbfffffff, 0x007fffff);
    check6432(0xa13fffffbfffffff, 0x807fffff);
    check6432(0x213fffffc0000000, 0x00800000);
    check6432(0xa13fffffc0000000, 0x80800000);
    check6432(0x213fffffffffffff, 0x00800000);
    check6432(0xa13fffffffffffff, 0x80800000);
    check6432(0x40ffffff7fffffff, 0x3f7fffff);
    check6432(0xc0ffffff7fffffff, 0xbf7fffff);
    check6432(0x40ffffff80000000, 0x3f800000);
    check6432(0xc0ffffff80000000, 0xbf800000);
    check6432(0x411fffffefffffff, 0x3fffffff);
    check6432(0xc11fffffefffffff, 0xbfffffff);
    check6432(0x411ffffff0000000, 0x40000000);
    check6432(0xc11ffffff0000000, 0xc0000000);
    check6432(0x411fffffffffffff, 0x40000000);
    check6432(0xc11fffffffffffff, 0xc0000000);
    check6432(0x60ffffff7fffffff, 0x7f7fffff);
    check6432(0xe0ffffff7fffffff, 0xff7fffff);
    check6432(0x60ffffff80000000, 0x7f800000);
    check6432(0xe0ffffff80000000, 0xff800000);
    check6432(0x60ffffffffffffff, 0x7f800000);
    check6432(0xe0ffffffffffffff, 0xff800000);
    check6432(0x7fffffffffffffff, 0x7f800000);
    check6432(0xffffffffffffffff, 0xff800000);
    check6432(0x1da7bfffffffffff, 0x0000014f);
    check6432(0x9da7bfffffffffff, 0x8000014f);
    check6432(0x1da8400000000001, 0x00000151);
    check6432(0x9da8400000000001, 0x80000151);
    check6432(0x1da8bfffffffffff, 0x00000151);
    check6432(0x9da8bfffffffffff, 0x80000151);
    check6432(0x1da9400000000001, 0x00000153);
    check6432(0x9da9400000000001, 0x80000153);
    check6432(0x1da9bfffffffffff, 0x00000153);
    check6432(0x9da9bfffffffffff, 0x80000153);
    check6432(0x1daa400000000001, 0x00000155);
    check6432(0x9daa400000000001, 0x80000155);
    check6432(0x0000000000000000, 0x00000000);
    check6432(0x8000000000000000, 0x80000000);
    check6432(0x0000000100000000, 0x00000000);
    check6432(0x8000000100000000, 0x80000000);
    check6432(0x3f00000000000000, 0x00000000);
    check6432(0xbf00000000000000, 0x80000000);
    check6432(0x7f00000000000000, 0x00000000);
    check6432(0xff00000000000000, 0x80000000);
    check6432(0x1b10000000000000, 0x00000000);
    check6432(0x9b10000000000000, 0x80000000);
    check6432(0x1b20000000000000, 0x00000000);
    check6432(0x9b20000000000000, 0x80000000);
    check6432(0x1b40000000000000, 0x00000000);
    check6432(0x9b40000000000000, 0x80000000);
    check6432(0x1b40000100000000, 0x00000001);
    check6432(0x9b40000100000000, 0x80000001);
    check6432(0x1b80000000000000, 0x00000001);
    check6432(0x9b80000000000000, 0x80000001);
    check6432(0x1bbfffff00000000, 0x00000001);
    check6432(0x9bbfffff00000000, 0x80000001);
    check6432(0x1bc0000000000000, 0x00000002);
    check6432(0x9bc0000000000000, 0x80000002);
    check6432(0x1da7bfff00000000, 0x0000014f);
    check6432(0x9da7bfff00000000, 0x8000014f);
    check6432(0x1da7c00000000000, 0x00000150);
    check6432(0x9da7c00000000000, 0x80000150);
    check6432(0x1da8400000000000, 0x00000150);
    check6432(0x9da8400000000000, 0x80000150);
    check6432(0x1da8400100000000, 0x00000151);
    check6432(0x9da8400100000000, 0x80000151);
    check6432(0x1da8bfff00000000, 0x00000151);
    check6432(0x9da8bfff00000000, 0x80000151);
    check6432(0x1da8c00000000000, 0x00000152);
    check6432(0x9da8c00000000000, 0x80000152);
    check6432(0x1da9400000000000, 0x00000152);
    check6432(0x9da9400000000000, 0x80000152);
    check6432(0x1da9400100000000, 0x00000153);
    check6432(0x9da9400100000000, 0x80000153);
    check6432(0x1da9bfff00000000, 0x00000153);
    check6432(0x9da9bfff00000000, 0x80000153);
    check6432(0x1da9c00000000000, 0x00000154);
    check6432(0x9da9c00000000000, 0x80000154);
    check6432(0x1daa400000000000, 0x00000154);
    check6432(0x9daa400000000000, 0x80000154);
    check6432(0x1daa400100000000, 0x00000155);
    check6432(0x9daa400100000000, 0x80000155);
    check6432(0x1fffffff00000000, 0x00020000);
    check6432(0x9fffffff00000000, 0x80020000);
    check6432(0x20fffff400000000, 0x001ffffe);
    check6432(0xa0fffff400000000, 0x801ffffe);
    check6432(0x20fffff500000000, 0x001fffff);
    check6432(0xa0fffff500000000, 0x801fffff);
    check6432(0x20fffff600000000, 0x001fffff);
    check6432(0xa0fffff600000000, 0x801fffff);
    check6432(0x20fffff700000000, 0x001fffff);
    check6432(0xa0fffff700000000, 0x801fffff);
    check6432(0x20fffff800000000, 0x001fffff);
    check6432(0xa0fffff800000000, 0x801fffff);
    check6432(0x20fffff900000000, 0x001fffff);
    check6432(0xa0fffff900000000, 0x801fffff);
    check6432(0x20fffffa00000000, 0x001fffff);
    check6432(0xa0fffffa00000000, 0x801fffff);
    check6432(0x20fffffb00000000, 0x001fffff);
    check6432(0xa0fffffb00000000, 0x801fffff);
    check6432(0x20fffffc00000000, 0x00200000);
    check6432(0xa0fffffc00000000, 0x80200000);
    check6432(0x20fffffd00000000, 0x00200000);
    check6432(0xa0fffffd00000000, 0x80200000);
    check6432(0x20fffffe00000000, 0x00200000);
    check6432(0xa0fffffe00000000, 0x80200000);
    check6432(0x20ffffff00000000, 0x00200000);
    check6432(0xa0ffffff00000000, 0x80200000);
    check6432(0x2110000000000000, 0x00200000);
    check6432(0xa110000000000000, 0x80200000);
    check6432(0x2120000000000000, 0x00400000);
    check6432(0xa120000000000000, 0x80400000);
    check6432(0x213fffff00000000, 0x007ffffe);
    check6432(0xa13fffff00000000, 0x807ffffe);
    check6432(0x2140000000000000, 0x00800000);
    check6432(0xa140000000000000, 0x80800000);
    check6432(0x4080000000000000, 0x3f000000);
    check6432(0xc080000000000000, 0xbf000000);
    check6432(0x4600000100000000, 0x3f800000);
    check6432(0xc600000100000000, 0xbf800000);
    check6432(0x4500001000000000, 0x3f800000);
    check6432(0xc500001000000000, 0xbf800000);
    check6432(0x4400010000000000, 0x3f800000);
    check6432(0xc400010000000000, 0xbf800000);
    check6432(0x4300100000000000, 0x3f800000);
    check6432(0xc300100000000000, 0xbf800000);
    check6432(0x4201000000000000, 0x3f800000);
    check6432(0xc201000000000000, 0xbf800000);
    check6432(0x4110000000000000, 0x3f800000);
    check6432(0xc110000000000000, 0xbf800000);
    check6432(0x4120000000000000, 0x40000000);
    check6432(0xc120000000000000, 0xc0000000);
    check6432(0x4130000000000000, 0x40400000);
    check6432(0xc130000000000000, 0xc0400000);
    check6432(0x4140000000000000, 0x40800000);
    check6432(0xc140000000000000, 0xc0800000);
    check6432(0x4180000000000000, 0x41000000);
    check6432(0xc180000000000000, 0xc1000000);
    check6432(0x4800000100000000, 0x43800000);
    check6432(0xc800000100000000, 0xc3800000);
    check6432(0x4800000200000000, 0x44000000);
    check6432(0xc800000200000000, 0xc4000000);
    check6432(0x4800000400000000, 0x44800000);
    check6432(0xc800000400000000, 0xc4800000);
    check6432(0x4800000800000000, 0x45000000);
    check6432(0xc800000800000000, 0xc5000000);
    check6432(0x4800001000000000, 0x45800000);
    check6432(0xc800001000000000, 0xc5800000);
    check6432(0x4800002000000000, 0x46000000);
    check6432(0xc800002000000000, 0xc6000000);
    check6432(0x4800004000000000, 0x46800000);
    check6432(0xc800004000000000, 0xc6800000);
    check6432(0x4800008000000000, 0x47000000);
    check6432(0xc800008000000000, 0xc7000000);
    check6432(0x4800010000000000, 0x47800000);
    check6432(0xc800010000000000, 0xc7800000);
    check6432(0x4800020000000000, 0x48000000);
    check6432(0xc800020000000000, 0xc8000000);
    check6432(0x4800040000000000, 0x48800000);
    check6432(0xc800040000000000, 0xc8800000);
    check6432(0x4800080000000000, 0x49000000);
    check6432(0xc800080000000000, 0xc9000000);
    check6432(0x4800100000000000, 0x49800000);
    check6432(0xc800100000000000, 0xc9800000);
    check6432(0x4800200000000000, 0x4a000000);
    check6432(0xc800200000000000, 0xca000000);
    check6432(0x4800400000000000, 0x4a800000);
    check6432(0xc800400000000000, 0xca800000);
    check6432(0x4800800000000000, 0x4b000000);
    check6432(0xc800800000000000, 0xcb000000);
    check6432(0x4801000000000000, 0x4b800000);
    check6432(0xc801000000000000, 0xcb800000);
    check6432(0x4802000000000000, 0x4c000000);
    check6432(0xc802000000000000, 0xcc000000);
    check6432(0x4804000000000000, 0x4c800000);
    check6432(0xc804000000000000, 0xcc800000);
    check6432(0x4808000000000000, 0x4d000000);
    check6432(0xc808000000000000, 0xcd000000);
    check6432(0x4810000000000000, 0x4d800000);
    check6432(0xc810000000000000, 0xcd800000);
    check6432(0x4820000000000000, 0x4e000000);
    check6432(0xc820000000000000, 0xce000000);
    check6432(0x4840000000000000, 0x4e800000);
    check6432(0xc840000000000000, 0xce800000);
    check6432(0x4880000000000000, 0x4f000000);
    check6432(0xc880000000000000, 0xcf000000);
    check6432(0x60ffffff00000000, 0x7f7fffff);
    check6432(0xe0ffffff00000000, 0xff7fffff);
    check6432(0x6110000000000000, 0x7f800000);
    check6432(0xe110000000000000, 0xff800000);
    check6432(0x6120000000000000, 0x7f800000);
    check6432(0xe120000000000000, 0xff800000);
    check6432(0x6140000000000000, 0x7f800000);
    check6432(0xe140000000000000, 0xff800000);
    check6432(0x6210000000000000, 0x7f800000);
    check6432(0xe210000000000000, 0xff800000);
    check6432(0x7fffffff00000000, 0x7f800000);
    check6432(0xffffffff00000000, 0xff800000);
    check6432(0xc276a00000000000, 0xc2ed4000);
    check6432(0x4276a00000000000, 0x42ed4000);
}

#[test]
fn ibm64ieee32_python_random_test_cases() {
    check6432(0xcd19b0145e1d7a1d, 0xd7cd80a3);
    check6432(0xe5ecaa472ede0247, 0xff800000);
    check6432(0x482f304e46a877e4, 0x4e3cc139);
    check6432(0x11762aa596bf5d5b, 0x00000000);
    check6432(0x6e86af57e25df0f2, 0x7f800000);
    check6432(0x69f1c219994dab52, 0x7f800000);
    check6432(0x67ec573620357e9f, 0x7f800000);
    check6432(0xf77928d0a293b424, 0xff800000);
    check6432(0x2f84a27c0de9cbc9, 0x1d04a27c);
    check6432(0x7b1f2d7b32022523, 0x7f800000);
    check6432(0xf2a6e523a874b3e1, 0xff800000);
    check6432(0x2e9afc6503a1e816, 0x1b1afc65);
    check6432(0x4c7f6fc24f399b0d, 0x56fedf85);
    check6432(0x854b3e4fd86c2968, 0x80000000);
    check6432(0x78c5611323a3adba, 0x7f800000);
    check6432(0x035b450cdb766788, 0x00000000);
    check6432(0xc3c9d66689ddc9a6, 0xc549d667);
    check6432(0xe7b92e6cb5a1e321, 0xff800000);
    check6432(0xcc04a62d6d9fd1ee, 0xd494c5ae);
    check6432(0x0bd4d0eda7e928b3, 0x00000000);
    check6432(0x4bc9b6abba524237, 0x5549b6ac);
    check6432(0x3a69b146c3f694d6, 0x32d3628e);
    check6432(0x9d87e28c15ae81f1, 0x80000110);
    check6432(0x0a6fc04ad1baaa67, 0x00000000);
    check6432(0x7338fe242252bd64, 0x7f800000);
    check6432(0x94b2aa6a6a78b4a5, 0x80000000);
    check6432(0xd773e9a197bcff85, 0xece7d343);
    check6432(0xff295db7400b38f9, 0xff800000);
    check6432(0xd95a5461fba1f248, 0xf0b4a8c4);
    check6432(0x4e05d09b28d501c9, 0x58ba1365);
    check6432(0x8935d6253341e05c, 0x80000000);
    check6432(0x14aaf3b8749d908c, 0x00000000);
    check6432(0x01d3c56389e13f1c, 0x00000000);
    check6432(0x02b0a0e4e961fb92, 0x00000000);
    check6432(0x85069cc46d3da5c9, 0x80000000);
    check6432(0xd0c91c9b010afd6d, 0xdf491c9b);
    check6432(0x6346988f0aa95f41, 0x7f800000);
    check6432(0xbbf941a7a6f283a8, 0xb57941a8);
    check6432(0x8c2b28df64956b87, 0x80000000);
    check6432(0x5ff5fe27acece48a, 0x7d75fe28);
    check6432(0xb443c4886aba93af, 0xa6878911);
    check6432(0x1b0a2c213103c042, 0x00000000);
    check6432(0x0f78e5f472dcaf83, 0x00000000);
    check6432(0xfb9cf37c3fd73fe7, 0xff800000);
    check6432(0xdd4fd6a8a701d78d, 0xf89fad51);
    check6432(0xcb5d5c89a6dd1320, 0xd4bab913);
    check6432(0x011dfda131261974, 0x00000000);
    check6432(0xcf3b05339fa952f2, 0xdc6c14ce);
    check6432(0xbd4c5fc4be3cf244, 0xb898bf89);
    check6432(0xa4efaa35d62237a2, 0x876faa36);
    check6432(0xf2d7f95f67adf5d7, 0xff800000);
    check6432(0xbe820520cf306366, 0xbb020521);
    check6432(0x0630c163b160e3fc, 0x00000000);
    check6432(0x3ac8c8e9c1cd0832, 0x3348c8ea);
    check6432(0x32f80fd247f15227, 0x23780fd2);
    check6432(0x037be17faaac04ab, 0x00000000);
    check6432(0x8732510468a9b3d6, 0x80000000);
    check6432(0x734100266281d412, 0x7f800000);
    check6432(0xc49a8e8869e78829, 0xc71a8e88);
    check6432(0xac345a544cc850e1, 0x96516951);
    check6432(0x486533575a09133e, 0x4eca66af);
    check6432(0x529c200a8b6dfd76, 0x631c200b);
    check6432(0xbf87d554652e59d6, 0xbd07d554);
    check6432(0x727cb690af27e9d1, 0x7f800000);
    check6432(0xd7ddfe8b30f2d887, 0xed5dfe8b);
    check6432(0x7469a91c101b0be1, 0x7f800000);
    check6432(0x4c1119256cb7fc06, 0x5588c92b);
    check6432(0x82ffb29b5c4a93c8, 0x80000000);
    check6432(0xb156600022bd90d4, 0xa0acc000);
    check6432(0xe3ee465030f06598, 0xff800000);
    check6432(0xc54f040fec98af7e, 0xc89e0820);
    check6432(0xac2e6a7e8c21afb1, 0x9639a9fa);
    check6432(0x2f07bb8a27471f0d, 0x1af77145);
    check6432(0x7b86bceff8dc614a, 0x7f800000);
    check6432(0x79343bb78940841b, 0x7f800000);
    check6432(0x953fcffe5c4c3a45, 0x80000000);
    check6432(0xdf2a81908d02b8bf, 0xfc2a0642);
    check6432(0x4293ede63aa50273, 0x4313ede6);
    check6432(0x5519f54249d9b158, 0x67cfaa12);
    check6432(0x095203f12034942a, 0x00000000);
}

#[test]
fn ibm64ieee64_known_values() {
    check6464(0x0000000000000000, 0x0000000000000000);
    check6464(0x8000000000000000, 0x8000000000000000);
    check6464(0x3f00000000000000, 0x0000000000000000);
    check6464(0x4110000000000000, 0x3ff0000000000000);
    check6464(0xc276a00000000000, 0xc05da80000000000);
    check6464(0x0000000000000001, 0x2c70000000000000);
    check6464(0x8000000000000001, 0xac70000000000000);
    check6464(0x00ffffffffffffff, 0x2ff0000000000000);
    check6464(0x7fffffffffffffff, 0x4fb0000000000000);
    check6464(0xffffffffffffffff, 0xcfb0000000000000);
    check6464(0x411000000000000b, 0x3ff000000000000b);
    check6464(0x4110000000000004, 0x3ff0000000000004);
    check6464(0x411000000000000c, 0x3ff000000000000c);
    check6464(0x4120000000000014, 0x400000000000000a);
}

#[test]
fn ibm64ieee64_ties_round_to_even() {
    // With a fully normalized fraction the low three bits are discarded; a
    // pattern ending in 100 is an exact tie, whose rounded significand must
    // stay even, while 101 rounds up and 1100 (tie above an odd bit) rounds
    // up to the even neighbour.
    check6464(0x4180000000000004, 0x4020000000000000);
    check6464(0x4180000000000005, 0x4020000000000001);
    check6464(0x418000000000000c, 0x4020000000000002);
    check6464(0x418000000000000d, 0x4020000000000002);
}
