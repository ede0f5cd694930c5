//! The checksum of Ogg pages: a cyclic redundancy check over the
//! polynomial 0x04c11db7, most significant bit first, starting from zero and
//! without a final inversion.

use vstd::prelude::*;

verus! {

/// The polynomial of the checksum, without its leading term.
pub const CRC_POLYNOMIAL: u32 = 0x04c11db7;

/// The remainder after one more zero bit has been shifted in.
pub open spec fn crc_shift(rem: u32) -> u32 {
    if rem & 0x8000_0000 != 0 {
        (rem << 1) ^ CRC_POLYNOMIAL
    } else {
        rem << 1
    }
}

/// The remainder of the byte `index`, followed by four zero bytes, by the
/// polynomial.
pub open spec fn crc_entry(index: u8) -> u32 {
    crc_shift(
        crc_shift(
            crc_shift(
                crc_shift(crc_shift(crc_shift(crc_shift(crc_shift((index as u32) << 24))))),
            ),
        ),
    )
}

/// The remainders of all bytes: entry `i` is `crc_entry(i)`.
pub const CRC_LOOKUP: [u32; 256] = [
    0x00000000, 0x04c11db7, 0x09823b6e, 0x0d4326d9,
    0x130476dc, 0x17c56b6b, 0x1a864db2, 0x1e475005,
    0x2608edb8, 0x22c9f00f, 0x2f8ad6d6, 0x2b4bcb61,
    0x350c9b64, 0x31cd86d3, 0x3c8ea00a, 0x384fbdbd,
    0x4c11db70, 0x48d0c6c7, 0x4593e01e, 0x4152fda9,
    0x5f15adac, 0x5bd4b01b, 0x569796c2, 0x52568b75,
    0x6a1936c8, 0x6ed82b7f, 0x639b0da6, 0x675a1011,
    0x791d4014, 0x7ddc5da3, 0x709f7b7a, 0x745e66cd,
    0x9823b6e0, 0x9ce2ab57, 0x91a18d8e, 0x95609039,
    0x8b27c03c, 0x8fe6dd8b, 0x82a5fb52, 0x8664e6e5,
    0xbe2b5b58, 0xbaea46ef, 0xb7a96036, 0xb3687d81,
    0xad2f2d84, 0xa9ee3033, 0xa4ad16ea, 0xa06c0b5d,
    0xd4326d90, 0xd0f37027, 0xddb056fe, 0xd9714b49,
    0xc7361b4c, 0xc3f706fb, 0xceb42022, 0xca753d95,
    0xf23a8028, 0xf6fb9d9f, 0xfbb8bb46, 0xff79a6f1,
    0xe13ef6f4, 0xe5ffeb43, 0xe8bccd9a, 0xec7dd02d,
    0x34867077, 0x30476dc0, 0x3d044b19, 0x39c556ae,
    0x278206ab, 0x23431b1c, 0x2e003dc5, 0x2ac12072,
    0x128e9dcf, 0x164f8078, 0x1b0ca6a1, 0x1fcdbb16,
    0x018aeb13, 0x054bf6a4, 0x0808d07d, 0x0cc9cdca,
    0x7897ab07, 0x7c56b6b0, 0x71159069, 0x75d48dde,
    0x6b93dddb, 0x6f52c06c, 0x6211e6b5, 0x66d0fb02,
    0x5e9f46bf, 0x5a5e5b08, 0x571d7dd1, 0x53dc6066,
    0x4d9b3063, 0x495a2dd4, 0x44190b0d, 0x40d816ba,
    0xaca5c697, 0xa864db20, 0xa527fdf9, 0xa1e6e04e,
    0xbfa1b04b, 0xbb60adfc, 0xb6238b25, 0xb2e29692,
    0x8aad2b2f, 0x8e6c3698, 0x832f1041, 0x87ee0df6,
    0x99a95df3, 0x9d684044, 0x902b669d, 0x94ea7b2a,
    0xe0b41de7, 0xe4750050, 0xe9362689, 0xedf73b3e,
    0xf3b06b3b, 0xf771768c, 0xfa325055, 0xfef34de2,
    0xc6bcf05f, 0xc27dede8, 0xcf3ecb31, 0xcbffd686,
    0xd5b88683, 0xd1799b34, 0xdc3abded, 0xd8fba05a,
    0x690ce0ee, 0x6dcdfd59, 0x608edb80, 0x644fc637,
    0x7a089632, 0x7ec98b85, 0x738aad5c, 0x774bb0eb,
    0x4f040d56, 0x4bc510e1, 0x46863638, 0x42472b8f,
    0x5c007b8a, 0x58c1663d, 0x558240e4, 0x51435d53,
    0x251d3b9e, 0x21dc2629, 0x2c9f00f0, 0x285e1d47,
    0x36194d42, 0x32d850f5, 0x3f9b762c, 0x3b5a6b9b,
    0x0315d626, 0x07d4cb91, 0x0a97ed48, 0x0e56f0ff,
    0x1011a0fa, 0x14d0bd4d, 0x19939b94, 0x1d528623,
    0xf12f560e, 0xf5ee4bb9, 0xf8ad6d60, 0xfc6c70d7,
    0xe22b20d2, 0xe6ea3d65, 0xeba91bbc, 0xef68060b,
    0xd727bbb6, 0xd3e6a601, 0xdea580d8, 0xda649d6f,
    0xc423cd6a, 0xc0e2d0dd, 0xcda1f604, 0xc960ebb3,
    0xbd3e8d7e, 0xb9ff90c9, 0xb4bcb610, 0xb07daba7,
    0xae3afba2, 0xaafbe615, 0xa7b8c0cc, 0xa379dd7b,
    0x9b3660c6, 0x9ff77d71, 0x92b45ba8, 0x9675461f,
    0x8832161a, 0x8cf30bad, 0x81b02d74, 0x857130c3,
    0x5d8a9099, 0x594b8d2e, 0x5408abf7, 0x50c9b640,
    0x4e8ee645, 0x4a4ffbf2, 0x470cdd2b, 0x43cdc09c,
    0x7b827d21, 0x7f436096, 0x7200464f, 0x76c15bf8,
    0x68860bfd, 0x6c47164a, 0x61043093, 0x65c52d24,
    0x119b4be9, 0x155a565e, 0x18197087, 0x1cd86d30,
    0x029f3d35, 0x065e2082, 0x0b1d065b, 0x0fdc1bec,
    0x3793a651, 0x3352bbe6, 0x3e119d3f, 0x3ad08088,
    0x2497d08d, 0x2056cd3a, 0x2d15ebe3, 0x29d4f654,
    0xc5a92679, 0xc1683bce, 0xcc2b1d17, 0xc8ea00a0,
    0xd6ad50a5, 0xd26c4d12, 0xdf2f6bcb, 0xdbee767c,
    0xe3a1cbc1, 0xe760d676, 0xea23f0af, 0xeee2ed18,
    0xf0a5bd1d, 0xf464a0aa, 0xf9278673, 0xfde69bc4,
    0x89b8fd09, 0x8d79e0be, 0x803ac667, 0x84fbdbd0,
    0x9abc8bd5, 0x9e7d9662, 0x933eb0bb, 0x97ffad0c,
    0xafb010b1, 0xab710d06, 0xa6322bdf, 0xa2f33668,
    0xbcb4666d, 0xb8757bda, 0xb5365d03, 0xb1f740b4,
];

/// Entries 0 to 15 of the table.
proof fn lemma_entries_0(index: u8)
    requires
        0 <= index < 16,
    ensures
        CRC_LOOKUP[index as int] == crc_entry(index),
{
    assert(crc_entry(0) == 0x00000000 && crc_entry(1) == 0x04c11db7
        && crc_entry(2) == 0x09823b6e && crc_entry(3) == 0x0d4326d9
        && crc_entry(4) == 0x130476dc && crc_entry(5) == 0x17c56b6b
        && crc_entry(6) == 0x1a864db2 && crc_entry(7) == 0x1e475005
        && crc_entry(8) == 0x2608edb8 && crc_entry(9) == 0x22c9f00f
        && crc_entry(10) == 0x2f8ad6d6 && crc_entry(11) == 0x2b4bcb61
        && crc_entry(12) == 0x350c9b64 && crc_entry(13) == 0x31cd86d3
        && crc_entry(14) == 0x3c8ea00a && crc_entry(15) == 0x384fbdbd) by (bit_vector);
}

/// Entries 16 to 31 of the table.
proof fn lemma_entries_1(index: u8)
    requires
        16 <= index < 32,
    ensures
        CRC_LOOKUP[index as int] == crc_entry(index),
{
    assert(crc_entry(16) == 0x4c11db70 && crc_entry(17) == 0x48d0c6c7
        && crc_entry(18) == 0x4593e01e && crc_entry(19) == 0x4152fda9
        && crc_entry(20) == 0x5f15adac && crc_entry(21) == 0x5bd4b01b
        && crc_entry(22) == 0x569796c2 && crc_entry(23) == 0x52568b75
        && crc_entry(24) == 0x6a1936c8 && crc_entry(25) == 0x6ed82b7f
        && crc_entry(26) == 0x639b0da6 && crc_entry(27) == 0x675a1011
        && crc_entry(28) == 0x791d4014 && crc_entry(29) == 0x7ddc5da3
        && crc_entry(30) == 0x709f7b7a && crc_entry(31) == 0x745e66cd) by (bit_vector);
}

/// Entries 32 to 47 of the table.
proof fn lemma_entries_2(index: u8)
    requires
        32 <= index < 48,
    ensures
        CRC_LOOKUP[index as int] == crc_entry(index),
{
    assert(crc_entry(32) == 0x9823b6e0 && crc_entry(33) == 0x9ce2ab57
        && crc_entry(34) == 0x91a18d8e && crc_entry(35) == 0x95609039
        && crc_entry(36) == 0x8b27c03c && crc_entry(37) == 0x8fe6dd8b
        && crc_entry(38) == 0x82a5fb52 && crc_entry(39) == 0x8664e6e5
        && crc_entry(40) == 0xbe2b5b58 && crc_entry(41) == 0xbaea46ef
        && crc_entry(42) == 0xb7a96036 && crc_entry(43) == 0xb3687d81
        && crc_entry(44) == 0xad2f2d84 && crc_entry(45) == 0xa9ee3033
        && crc_entry(46) == 0xa4ad16ea && crc_entry(47) == 0xa06c0b5d) by (bit_vector);
}

/// Entries 48 to 63 of the table.
proof fn lemma_entries_3(index: u8)
    requires
        48 <= index < 64,
    ensures
        CRC_LOOKUP[index as int] == crc_entry(index),
{
    assert(crc_entry(48) == 0xd4326d90 && crc_entry(49) == 0xd0f37027
        && crc_entry(50) == 0xddb056fe && crc_entry(51) == 0xd9714b49
        && crc_entry(52) == 0xc7361b4c && crc_entry(53) == 0xc3f706fb
        && crc_entry(54) == 0xceb42022 && crc_entry(55) == 0xca753d95
        && crc_entry(56) == 0xf23a8028 && crc_entry(57) == 0xf6fb9d9f
        && crc_entry(58) == 0xfbb8bb46 && crc_entry(59) == 0xff79a6f1
        && crc_entry(60) == 0xe13ef6f4 && crc_entry(61) == 0xe5ffeb43
        && crc_entry(62) == 0xe8bccd9a && crc_entry(63) == 0xec7dd02d) by (bit_vector);
}

/// Entries 64 to 79 of the table.
proof fn lemma_entries_4(index: u8)
    requires
        64 <= index < 80,
    ensures
        CRC_LOOKUP[index as int] == crc_entry(index),
{
    assert(crc_entry(64) == 0x34867077 && crc_entry(65) == 0x30476dc0
        && crc_entry(66) == 0x3d044b19 && crc_entry(67) == 0x39c556ae
        && crc_entry(68) == 0x278206ab && crc_entry(69) == 0x23431b1c
        && crc_entry(70) == 0x2e003dc5 && crc_entry(71) == 0x2ac12072
        && crc_entry(72) == 0x128e9dcf && crc_entry(73) == 0x164f8078
        && crc_entry(74) == 0x1b0ca6a1 && crc_entry(75) == 0x1fcdbb16
        && crc_entry(76) == 0x018aeb13 && crc_entry(77) == 0x054bf6a4
        && crc_entry(78) == 0x0808d07d && crc_entry(79) == 0x0cc9cdca) by (bit_vector);
}

/// Entries 80 to 95 of the table.
proof fn lemma_entries_5(index: u8)
    requires
        80 <= index < 96,
    ensures
        CRC_LOOKUP[index as int] == crc_entry(index),
{
    assert(crc_entry(80) == 0x7897ab07 && crc_entry(81) == 0x7c56b6b0
        && crc_entry(82) == 0x71159069 && crc_entry(83) == 0x75d48dde
        && crc_entry(84) == 0x6b93dddb && crc_entry(85) == 0x6f52c06c
        && crc_entry(86) == 0x6211e6b5 && crc_entry(87) == 0x66d0fb02
        && crc_entry(88) == 0x5e9f46bf && crc_entry(89) == 0x5a5e5b08
        && crc_entry(90) == 0x571d7dd1 && crc_entry(91) == 0x53dc6066
        && crc_entry(92) == 0x4d9b3063 && crc_entry(93) == 0x495a2dd4
        && crc_entry(94) == 0x44190b0d && crc_entry(95) == 0x40d816ba) by (bit_vector);
}

/// Entries 96 to 111 of the table.
proof fn lemma_entries_6(index: u8)
    requires
        96 <= index < 112,
    ensures
        CRC_LOOKUP[index as int] == crc_entry(index),
{
    assert(crc_entry(96) == 0xaca5c697 && crc_entry(97) == 0xa864db20
        && crc_entry(98) == 0xa527fdf9 && crc_entry(99) == 0xa1e6e04e
        && crc_entry(100) == 0xbfa1b04b && crc_entry(101) == 0xbb60adfc
        && crc_entry(102) == 0xb6238b25 && crc_entry(103) == 0xb2e29692
        && crc_entry(104) == 0x8aad2b2f && crc_entry(105) == 0x8e6c3698
        && crc_entry(106) == 0x832f1041 && crc_entry(107) == 0x87ee0df6
        && crc_entry(108) == 0x99a95df3 && crc_entry(109) == 0x9d684044
        && crc_entry(110) == 0x902b669d && crc_entry(111) == 0x94ea7b2a) by (bit_vector);
}

/// Entries 112 to 127 of the table.
proof fn lemma_entries_7(index: u8)
    requires
        112 <= index < 128,
    ensures
        CRC_LOOKUP[index as int] == crc_entry(index),
{
    assert(crc_entry(112) == 0xe0b41de7 && crc_entry(113) == 0xe4750050
        && crc_entry(114) == 0xe9362689 && crc_entry(115) == 0xedf73b3e
        && crc_entry(116) == 0xf3b06b3b && crc_entry(117) == 0xf771768c
        && crc_entry(118) == 0xfa325055 && crc_entry(119) == 0xfef34de2
        && crc_entry(120) == 0xc6bcf05f && crc_entry(121) == 0xc27dede8
        && crc_entry(122) == 0xcf3ecb31 && crc_entry(123) == 0xcbffd686
        && crc_entry(124) == 0xd5b88683 && crc_entry(125) == 0xd1799b34
        && crc_entry(126) == 0xdc3abded && crc_entry(127) == 0xd8fba05a) by (bit_vector);
}

/// Entries 128 to 143 of the table.
proof fn lemma_entries_8(index: u8)
    requires
        128 <= index < 144,
    ensures
        CRC_LOOKUP[index as int] == crc_entry(index),
{
    assert(crc_entry(128) == 0x690ce0ee && crc_entry(129) == 0x6dcdfd59
        && crc_entry(130) == 0x608edb80 && crc_entry(131) == 0x644fc637
        && crc_entry(132) == 0x7a089632 && crc_entry(133) == 0x7ec98b85
        && crc_entry(134) == 0x738aad5c && crc_entry(135) == 0x774bb0eb
        && crc_entry(136) == 0x4f040d56 && crc_entry(137) == 0x4bc510e1
        && crc_entry(138) == 0x46863638 && crc_entry(139) == 0x42472b8f
        && crc_entry(140) == 0x5c007b8a && crc_entry(141) == 0x58c1663d
        && crc_entry(142) == 0x558240e4 && crc_entry(143) == 0x51435d53) by (bit_vector);
}

/// Entries 144 to 159 of the table.
proof fn lemma_entries_9(index: u8)
    requires
        144 <= index < 160,
    ensures
        CRC_LOOKUP[index as int] == crc_entry(index),
{
    assert(crc_entry(144) == 0x251d3b9e && crc_entry(145) == 0x21dc2629
        && crc_entry(146) == 0x2c9f00f0 && crc_entry(147) == 0x285e1d47
        && crc_entry(148) == 0x36194d42 && crc_entry(149) == 0x32d850f5
        && crc_entry(150) == 0x3f9b762c && crc_entry(151) == 0x3b5a6b9b
        && crc_entry(152) == 0x0315d626 && crc_entry(153) == 0x07d4cb91
        && crc_entry(154) == 0x0a97ed48 && crc_entry(155) == 0x0e56f0ff
        && crc_entry(156) == 0x1011a0fa && crc_entry(157) == 0x14d0bd4d
        && crc_entry(158) == 0x19939b94 && crc_entry(159) == 0x1d528623) by (bit_vector);
}

/// Entries 160 to 175 of the table.
proof fn lemma_entries_10(index: u8)
    requires
        160 <= index < 176,
    ensures
        CRC_LOOKUP[index as int] == crc_entry(index),
{
    assert(crc_entry(160) == 0xf12f560e && crc_entry(161) == 0xf5ee4bb9
        && crc_entry(162) == 0xf8ad6d60 && crc_entry(163) == 0xfc6c70d7
        && crc_entry(164) == 0xe22b20d2 && crc_entry(165) == 0xe6ea3d65
        && crc_entry(166) == 0xeba91bbc && crc_entry(167) == 0xef68060b
        && crc_entry(168) == 0xd727bbb6 && crc_entry(169) == 0xd3e6a601
        && crc_entry(170) == 0xdea580d8 && crc_entry(171) == 0xda649d6f
        && crc_entry(172) == 0xc423cd6a && crc_entry(173) == 0xc0e2d0dd
        && crc_entry(174) == 0xcda1f604 && crc_entry(175) == 0xc960ebb3) by (bit_vector);
}

/// Entries 176 to 191 of the table.
proof fn lemma_entries_11(index: u8)
    requires
        176 <= index < 192,
    ensures
        CRC_LOOKUP[index as int] == crc_entry(index),
{
    assert(crc_entry(176) == 0xbd3e8d7e && crc_entry(177) == 0xb9ff90c9
        && crc_entry(178) == 0xb4bcb610 && crc_entry(179) == 0xb07daba7
        && crc_entry(180) == 0xae3afba2 && crc_entry(181) == 0xaafbe615
        && crc_entry(182) == 0xa7b8c0cc && crc_entry(183) == 0xa379dd7b
        && crc_entry(184) == 0x9b3660c6 && crc_entry(185) == 0x9ff77d71
        && crc_entry(186) == 0x92b45ba8 && crc_entry(187) == 0x9675461f
        && crc_entry(188) == 0x8832161a && crc_entry(189) == 0x8cf30bad
        && crc_entry(190) == 0x81b02d74 && crc_entry(191) == 0x857130c3) by (bit_vector);
}

/// Entries 192 to 207 of the table.
proof fn lemma_entries_12(index: u8)
    requires
        192 <= index < 208,
    ensures
        CRC_LOOKUP[index as int] == crc_entry(index),
{
    assert(crc_entry(192) == 0x5d8a9099 && crc_entry(193) == 0x594b8d2e
        && crc_entry(194) == 0x5408abf7 && crc_entry(195) == 0x50c9b640
        && crc_entry(196) == 0x4e8ee645 && crc_entry(197) == 0x4a4ffbf2
        && crc_entry(198) == 0x470cdd2b && crc_entry(199) == 0x43cdc09c
        && crc_entry(200) == 0x7b827d21 && crc_entry(201) == 0x7f436096
        && crc_entry(202) == 0x7200464f && crc_entry(203) == 0x76c15bf8
        && crc_entry(204) == 0x68860bfd && crc_entry(205) == 0x6c47164a
        && crc_entry(206) == 0x61043093 && crc_entry(207) == 0x65c52d24) by (bit_vector);
}

/// Entries 208 to 223 of the table.
proof fn lemma_entries_13(index: u8)
    requires
        208 <= index < 224,
    ensures
        CRC_LOOKUP[index as int] == crc_entry(index),
{
    assert(crc_entry(208) == 0x119b4be9 && crc_entry(209) == 0x155a565e
        && crc_entry(210) == 0x18197087 && crc_entry(211) == 0x1cd86d30
        && crc_entry(212) == 0x029f3d35 && crc_entry(213) == 0x065e2082
        && crc_entry(214) == 0x0b1d065b && crc_entry(215) == 0x0fdc1bec
        && crc_entry(216) == 0x3793a651 && crc_entry(217) == 0x3352bbe6
        && crc_entry(218) == 0x3e119d3f && crc_entry(219) == 0x3ad08088
        && crc_entry(220) == 0x2497d08d && crc_entry(221) == 0x2056cd3a
        && crc_entry(222) == 0x2d15ebe3 && crc_entry(223) == 0x29d4f654) by (bit_vector);
}

/// Entries 224 to 239 of the table.
proof fn lemma_entries_14(index: u8)
    requires
        224 <= index < 240,
    ensures
        CRC_LOOKUP[index as int] == crc_entry(index),
{
    assert(crc_entry(224) == 0xc5a92679 && crc_entry(225) == 0xc1683bce
        && crc_entry(226) == 0xcc2b1d17 && crc_entry(227) == 0xc8ea00a0
        && crc_entry(228) == 0xd6ad50a5 && crc_entry(229) == 0xd26c4d12
        && crc_entry(230) == 0xdf2f6bcb && crc_entry(231) == 0xdbee767c
        && crc_entry(232) == 0xe3a1cbc1 && crc_entry(233) == 0xe760d676
        && crc_entry(234) == 0xea23f0af && crc_entry(235) == 0xeee2ed18
        && crc_entry(236) == 0xf0a5bd1d && crc_entry(237) == 0xf464a0aa
        && crc_entry(238) == 0xf9278673 && crc_entry(239) == 0xfde69bc4) by (bit_vector);
}

/// Entries 240 to 255 of the table.
proof fn lemma_entries_15(index: u8)
    requires
        240 <= index < 256,
    ensures
        CRC_LOOKUP[index as int] == crc_entry(index),
{
    assert(crc_entry(240) == 0x89b8fd09 && crc_entry(241) == 0x8d79e0be
        && crc_entry(242) == 0x803ac667 && crc_entry(243) == 0x84fbdbd0
        && crc_entry(244) == 0x9abc8bd5 && crc_entry(245) == 0x9e7d9662
        && crc_entry(246) == 0x933eb0bb && crc_entry(247) == 0x97ffad0c
        && crc_entry(248) == 0xafb010b1 && crc_entry(249) == 0xab710d06
        && crc_entry(250) == 0xa6322bdf && crc_entry(251) == 0xa2f33668
        && crc_entry(252) == 0xbcb4666d && crc_entry(253) == 0xb8757bda
        && crc_entry(254) == 0xb5365d03 && crc_entry(255) == 0xb1f740b4) by (bit_vector);
}

/// Every entry of the table is the remainder that it stands for.
pub proof fn lemma_table(index: u8)
    ensures
        CRC_LOOKUP[index as int] == crc_entry(index),
{
    if index < 16 {
        lemma_entries_0(index);
    } else if index < 32 {
        lemma_entries_1(index);
    } else if index < 48 {
        lemma_entries_2(index);
    } else if index < 64 {
        lemma_entries_3(index);
    } else if index < 80 {
        lemma_entries_4(index);
    } else if index < 96 {
        lemma_entries_5(index);
    } else if index < 112 {
        lemma_entries_6(index);
    } else if index < 128 {
        lemma_entries_7(index);
    } else if index < 144 {
        lemma_entries_8(index);
    } else if index < 160 {
        lemma_entries_9(index);
    } else if index < 176 {
        lemma_entries_10(index);
    } else if index < 192 {
        lemma_entries_11(index);
    } else if index < 208 {
        lemma_entries_12(index);
    } else if index < 224 {
        lemma_entries_13(index);
    } else if index < 240 {
        lemma_entries_14(index);
    } else {
        lemma_entries_15(index);
    }
}

/// One step of the checksum: the running value takes in one byte.
pub open spec fn crc_step(value: u32, byte: u8) -> u32 {
    (value << 8) ^ crc_entry(((value >> 24) as u8) ^ byte)
}

/// The checksum of `block`, continued from the running value `value`.
pub open spec fn crc_fold(value: u32, block: Seq<u8>) -> u32
    decreases block.len(),
{
    if block.len() == 0 {
        value
    } else {
        crc_step(crc_fold(value, block.drop_last()), block.last())
    }
}

/// Taking in two blocks one after the other is taking in their
/// concatenation.
pub proof fn lemma_crc_concat(value: u32, first: Seq<u8>, second: Seq<u8>)
    ensures
        crc_fold(crc_fold(value, first), second) == crc_fold(value, first + second),
    decreases second.len(),
{
    if second.len() == 0 {
        assert(first + second =~= first);
    } else {
        lemma_crc_concat(value, first, second.drop_last());
        assert((first + second).drop_last() =~= first + second.drop_last());
        assert((first + second).last() == second.last());
    }
}

/// Continues the checksum `value` over `block`.
pub fn crc_compute(value: u32, block: &[u8]) -> (crc: u32)
    ensures
        crc == crc_fold(value, block@),
{
    let mut crc = value;
    let mut i: usize = 0;
    while i < block.len()
        invariant
            i <= block@.len(),
            crc == crc_fold(value, block@.take(i as int)),
        decreases block.len() - i,
    {
        let ghost before = block@.take(i as int);
        let b = block[i];
        let index = ((crc >> 24) as u8) ^ b;
        proof {
            lemma_table(index);
        }
        crc = (crc << 8) ^ CRC_LOOKUP[index as usize];
        i = i + 1;
        proof {
            let now = block@.take(i as int);
            assert(now.drop_last() =~= before);
            assert(now.last() == b);
        }
    }
    proof {
        assert(block@.take(i as int) =~= block@);
    }
    crc
}

} // verus!
