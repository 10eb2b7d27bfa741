//! Logarithm and exponential tables of GF(2^4) and GF(2^8).
//!
//! Both fields are generated by `alpha = 2`.  The tables are literal constants,
//! and the proofs below tie every entry of them to powers of `alpha`.
use vstd::prelude::*;

use crate::config::Field;
use crate::gf::algebra;

verus! {

/// Number of elements of GF(2^4).
pub const GF2_4_ORDER: usize = 16;

/// `x^4 + x + 1`, the primitive polynomial that defines GF(2^4).
pub const GF2_4_POLY: u8 = 0x13;

/// `GF2_4_EXP[i] == alpha^i`; the last entry is `alpha^15 == 1`.
pub const GF2_4_EXP: [u8; 16] = [
    0x01, 0x02, 0x04, 0x08, 0x03, 0x06, 0x0c, 0x0b, 0x05, 0x0a, 0x07, 0x0e, 0x0f, 0x0d, 0x09, 0x01,
];

/// `GF2_4_LOG[alpha^i] == i` for `i < 15`; entry 0 is the sentinel 0xFF.
pub const GF2_4_LOG: [u8; 16] = [
    0xff, 0x00, 0x01, 0x04, 0x02, 0x08, 0x05, 0x0a, 0x03, 0x0e, 0x09, 0x07, 0x06, 0x0d, 0x0b, 0x0c,
];

/// Number of elements of GF(2^8).
pub const GF2_8_ORDER: usize = 256;

/// `x^8 + x^4 + x^3 + x^2 + 1`, the primitive polynomial that defines GF(2^8).
pub const GF2_8_POLY: u16 = 0x11D;

/// `GF2_8_EXP[i] == alpha^i` for `i <= 510`.
///
/// The table holds two periods, so that the sum of two logarithms indexes it
/// without a reduction modulo 255.  Entry 511 is never read.
pub const GF2_8_EXP: [u8; 512] = [
    0x01, 0x02, 0x04, 0x08, 0x10, 0x20, 0x40, 0x80, 0x1d, 0x3a, 0x74, 0xe8, 0xcd, 0x87, 0x13, 0x26,
    0x4c, 0x98, 0x2d, 0x5a, 0xb4, 0x75, 0xea, 0xc9, 0x8f, 0x03, 0x06, 0x0c, 0x18, 0x30, 0x60, 0xc0,
    0x9d, 0x27, 0x4e, 0x9c, 0x25, 0x4a, 0x94, 0x35, 0x6a, 0xd4, 0xb5, 0x77, 0xee, 0xc1, 0x9f, 0x23,
    0x46, 0x8c, 0x05, 0x0a, 0x14, 0x28, 0x50, 0xa0, 0x5d, 0xba, 0x69, 0xd2, 0xb9, 0x6f, 0xde, 0xa1,
    0x5f, 0xbe, 0x61, 0xc2, 0x99, 0x2f, 0x5e, 0xbc, 0x65, 0xca, 0x89, 0x0f, 0x1e, 0x3c, 0x78, 0xf0,
    0xfd, 0xe7, 0xd3, 0xbb, 0x6b, 0xd6, 0xb1, 0x7f, 0xfe, 0xe1, 0xdf, 0xa3, 0x5b, 0xb6, 0x71, 0xe2,
    0xd9, 0xaf, 0x43, 0x86, 0x11, 0x22, 0x44, 0x88, 0x0d, 0x1a, 0x34, 0x68, 0xd0, 0xbd, 0x67, 0xce,
    0x81, 0x1f, 0x3e, 0x7c, 0xf8, 0xed, 0xc7, 0x93, 0x3b, 0x76, 0xec, 0xc5, 0x97, 0x33, 0x66, 0xcc,
    0x85, 0x17, 0x2e, 0x5c, 0xb8, 0x6d, 0xda, 0xa9, 0x4f, 0x9e, 0x21, 0x42, 0x84, 0x15, 0x2a, 0x54,
    0xa8, 0x4d, 0x9a, 0x29, 0x52, 0xa4, 0x55, 0xaa, 0x49, 0x92, 0x39, 0x72, 0xe4, 0xd5, 0xb7, 0x73,
    0xe6, 0xd1, 0xbf, 0x63, 0xc6, 0x91, 0x3f, 0x7e, 0xfc, 0xe5, 0xd7, 0xb3, 0x7b, 0xf6, 0xf1, 0xff,
    0xe3, 0xdb, 0xab, 0x4b, 0x96, 0x31, 0x62, 0xc4, 0x95, 0x37, 0x6e, 0xdc, 0xa5, 0x57, 0xae, 0x41,
    0x82, 0x19, 0x32, 0x64, 0xc8, 0x8d, 0x07, 0x0e, 0x1c, 0x38, 0x70, 0xe0, 0xdd, 0xa7, 0x53, 0xa6,
    0x51, 0xa2, 0x59, 0xb2, 0x79, 0xf2, 0xf9, 0xef, 0xc3, 0x9b, 0x2b, 0x56, 0xac, 0x45, 0x8a, 0x09,
    0x12, 0x24, 0x48, 0x90, 0x3d, 0x7a, 0xf4, 0xf5, 0xf7, 0xf3, 0xfb, 0xeb, 0xcb, 0x8b, 0x0b, 0x16,
    0x2c, 0x58, 0xb0, 0x7d, 0xfa, 0xe9, 0xcf, 0x83, 0x1b, 0x36, 0x6c, 0xd8, 0xad, 0x47, 0x8e, 0x01,
    0x02, 0x04, 0x08, 0x10, 0x20, 0x40, 0x80, 0x1d, 0x3a, 0x74, 0xe8, 0xcd, 0x87, 0x13, 0x26, 0x4c,
    0x98, 0x2d, 0x5a, 0xb4, 0x75, 0xea, 0xc9, 0x8f, 0x03, 0x06, 0x0c, 0x18, 0x30, 0x60, 0xc0, 0x9d,
    0x27, 0x4e, 0x9c, 0x25, 0x4a, 0x94, 0x35, 0x6a, 0xd4, 0xb5, 0x77, 0xee, 0xc1, 0x9f, 0x23, 0x46,
    0x8c, 0x05, 0x0a, 0x14, 0x28, 0x50, 0xa0, 0x5d, 0xba, 0x69, 0xd2, 0xb9, 0x6f, 0xde, 0xa1, 0x5f,
    0xbe, 0x61, 0xc2, 0x99, 0x2f, 0x5e, 0xbc, 0x65, 0xca, 0x89, 0x0f, 0x1e, 0x3c, 0x78, 0xf0, 0xfd,
    0xe7, 0xd3, 0xbb, 0x6b, 0xd6, 0xb1, 0x7f, 0xfe, 0xe1, 0xdf, 0xa3, 0x5b, 0xb6, 0x71, 0xe2, 0xd9,
    0xaf, 0x43, 0x86, 0x11, 0x22, 0x44, 0x88, 0x0d, 0x1a, 0x34, 0x68, 0xd0, 0xbd, 0x67, 0xce, 0x81,
    0x1f, 0x3e, 0x7c, 0xf8, 0xed, 0xc7, 0x93, 0x3b, 0x76, 0xec, 0xc5, 0x97, 0x33, 0x66, 0xcc, 0x85,
    0x17, 0x2e, 0x5c, 0xb8, 0x6d, 0xda, 0xa9, 0x4f, 0x9e, 0x21, 0x42, 0x84, 0x15, 0x2a, 0x54, 0xa8,
    0x4d, 0x9a, 0x29, 0x52, 0xa4, 0x55, 0xaa, 0x49, 0x92, 0x39, 0x72, 0xe4, 0xd5, 0xb7, 0x73, 0xe6,
    0xd1, 0xbf, 0x63, 0xc6, 0x91, 0x3f, 0x7e, 0xfc, 0xe5, 0xd7, 0xb3, 0x7b, 0xf6, 0xf1, 0xff, 0xe3,
    0xdb, 0xab, 0x4b, 0x96, 0x31, 0x62, 0xc4, 0x95, 0x37, 0x6e, 0xdc, 0xa5, 0x57, 0xae, 0x41, 0x82,
    0x19, 0x32, 0x64, 0xc8, 0x8d, 0x07, 0x0e, 0x1c, 0x38, 0x70, 0xe0, 0xdd, 0xa7, 0x53, 0xa6, 0x51,
    0xa2, 0x59, 0xb2, 0x79, 0xf2, 0xf9, 0xef, 0xc3, 0x9b, 0x2b, 0x56, 0xac, 0x45, 0x8a, 0x09, 0x12,
    0x24, 0x48, 0x90, 0x3d, 0x7a, 0xf4, 0xf5, 0xf7, 0xf3, 0xfb, 0xeb, 0xcb, 0x8b, 0x0b, 0x16, 0x2c,
    0x58, 0xb0, 0x7d, 0xfa, 0xe9, 0xcf, 0x83, 0x1b, 0x36, 0x6c, 0xd8, 0xad, 0x47, 0x8e, 0x01, 0x00,
];

/// `GF2_8_LOG[alpha^i] == i` for `i < 255`; entry 0 is the sentinel 0xFF.
pub const GF2_8_LOG: [u8; 256] = [
    0xff, 0x00, 0x01, 0x19, 0x02, 0x32, 0x1a, 0xc6, 0x03, 0xdf, 0x33, 0xee, 0x1b, 0x68, 0xc7, 0x4b,
    0x04, 0x64, 0xe0, 0x0e, 0x34, 0x8d, 0xef, 0x81, 0x1c, 0xc1, 0x69, 0xf8, 0xc8, 0x08, 0x4c, 0x71,
    0x05, 0x8a, 0x65, 0x2f, 0xe1, 0x24, 0x0f, 0x21, 0x35, 0x93, 0x8e, 0xda, 0xf0, 0x12, 0x82, 0x45,
    0x1d, 0xb5, 0xc2, 0x7d, 0x6a, 0x27, 0xf9, 0xb9, 0xc9, 0x9a, 0x09, 0x78, 0x4d, 0xe4, 0x72, 0xa6,
    0x06, 0xbf, 0x8b, 0x62, 0x66, 0xdd, 0x30, 0xfd, 0xe2, 0x98, 0x25, 0xb3, 0x10, 0x91, 0x22, 0x88,
    0x36, 0xd0, 0x94, 0xce, 0x8f, 0x96, 0xdb, 0xbd, 0xf1, 0xd2, 0x13, 0x5c, 0x83, 0x38, 0x46, 0x40,
    0x1e, 0x42, 0xb6, 0xa3, 0xc3, 0x48, 0x7e, 0x6e, 0x6b, 0x3a, 0x28, 0x54, 0xfa, 0x85, 0xba, 0x3d,
    0xca, 0x5e, 0x9b, 0x9f, 0x0a, 0x15, 0x79, 0x2b, 0x4e, 0xd4, 0xe5, 0xac, 0x73, 0xf3, 0xa7, 0x57,
    0x07, 0x70, 0xc0, 0xf7, 0x8c, 0x80, 0x63, 0x0d, 0x67, 0x4a, 0xde, 0xed, 0x31, 0xc5, 0xfe, 0x18,
    0xe3, 0xa5, 0x99, 0x77, 0x26, 0xb8, 0xb4, 0x7c, 0x11, 0x44, 0x92, 0xd9, 0x23, 0x20, 0x89, 0x2e,
    0x37, 0x3f, 0xd1, 0x5b, 0x95, 0xbc, 0xcf, 0xcd, 0x90, 0x87, 0x97, 0xb2, 0xdc, 0xfc, 0xbe, 0x61,
    0xf2, 0x56, 0xd3, 0xab, 0x14, 0x2a, 0x5d, 0x9e, 0x84, 0x3c, 0x39, 0x53, 0x47, 0x6d, 0x41, 0xa2,
    0x1f, 0x2d, 0x43, 0xd8, 0xb7, 0x7b, 0xa4, 0x76, 0xc4, 0x17, 0x49, 0xec, 0x7f, 0x0c, 0x6f, 0xf6,
    0x6c, 0xa1, 0x3b, 0x52, 0x29, 0x9d, 0x55, 0xaa, 0xfb, 0x60, 0x86, 0xb1, 0xbb, 0xcc, 0x3e, 0x5a,
    0xcb, 0x59, 0x5f, 0xb0, 0x9c, 0xa9, 0xa0, 0x51, 0x0b, 0xf5, 0x16, 0xeb, 0x7a, 0x75, 0x2c, 0xd7,
    0x4f, 0xae, 0xd5, 0xe9, 0xe6, 0xe7, 0xad, 0xe8, 0x74, 0xd6, 0xf4, 0xea, 0xa8, 0x50, 0x58, 0xaf,
];

/// The doubling step of the whole multiplicative group of GF(2^8).
proof fn lemma_gf8_xtime_values()
    ensures
        algebra::gf8_xtime(1) == 2,
        algebra::gf8_xtime(2) == 4,
        algebra::gf8_xtime(4) == 8,
        algebra::gf8_xtime(8) == 16,
        algebra::gf8_xtime(16) == 32,
        algebra::gf8_xtime(32) == 64,
        algebra::gf8_xtime(64) == 128,
        algebra::gf8_xtime(128) == 29,
        algebra::gf8_xtime(29) == 58,
        algebra::gf8_xtime(58) == 116,
        algebra::gf8_xtime(116) == 232,
        algebra::gf8_xtime(232) == 205,
        algebra::gf8_xtime(205) == 135,
        algebra::gf8_xtime(135) == 19,
        algebra::gf8_xtime(19) == 38,
        algebra::gf8_xtime(38) == 76,
        algebra::gf8_xtime(76) == 152,
        algebra::gf8_xtime(152) == 45,
        algebra::gf8_xtime(45) == 90,
        algebra::gf8_xtime(90) == 180,
        algebra::gf8_xtime(180) == 117,
        algebra::gf8_xtime(117) == 234,
        algebra::gf8_xtime(234) == 201,
        algebra::gf8_xtime(201) == 143,
        algebra::gf8_xtime(143) == 3,
        algebra::gf8_xtime(3) == 6,
        algebra::gf8_xtime(6) == 12,
        algebra::gf8_xtime(12) == 24,
        algebra::gf8_xtime(24) == 48,
        algebra::gf8_xtime(48) == 96,
        algebra::gf8_xtime(96) == 192,
        algebra::gf8_xtime(192) == 157,
        algebra::gf8_xtime(157) == 39,
        algebra::gf8_xtime(39) == 78,
        algebra::gf8_xtime(78) == 156,
        algebra::gf8_xtime(156) == 37,
        algebra::gf8_xtime(37) == 74,
        algebra::gf8_xtime(74) == 148,
        algebra::gf8_xtime(148) == 53,
        algebra::gf8_xtime(53) == 106,
        algebra::gf8_xtime(106) == 212,
        algebra::gf8_xtime(212) == 181,
        algebra::gf8_xtime(181) == 119,
        algebra::gf8_xtime(119) == 238,
        algebra::gf8_xtime(238) == 193,
        algebra::gf8_xtime(193) == 159,
        algebra::gf8_xtime(159) == 35,
        algebra::gf8_xtime(35) == 70,
        algebra::gf8_xtime(70) == 140,
        algebra::gf8_xtime(140) == 5,
        algebra::gf8_xtime(5) == 10,
        algebra::gf8_xtime(10) == 20,
        algebra::gf8_xtime(20) == 40,
        algebra::gf8_xtime(40) == 80,
        algebra::gf8_xtime(80) == 160,
        algebra::gf8_xtime(160) == 93,
        algebra::gf8_xtime(93) == 186,
        algebra::gf8_xtime(186) == 105,
        algebra::gf8_xtime(105) == 210,
        algebra::gf8_xtime(210) == 185,
        algebra::gf8_xtime(185) == 111,
        algebra::gf8_xtime(111) == 222,
        algebra::gf8_xtime(222) == 161,
        algebra::gf8_xtime(161) == 95,
        algebra::gf8_xtime(95) == 190,
        algebra::gf8_xtime(190) == 97,
        algebra::gf8_xtime(97) == 194,
        algebra::gf8_xtime(194) == 153,
        algebra::gf8_xtime(153) == 47,
        algebra::gf8_xtime(47) == 94,
        algebra::gf8_xtime(94) == 188,
        algebra::gf8_xtime(188) == 101,
        algebra::gf8_xtime(101) == 202,
        algebra::gf8_xtime(202) == 137,
        algebra::gf8_xtime(137) == 15,
        algebra::gf8_xtime(15) == 30,
        algebra::gf8_xtime(30) == 60,
        algebra::gf8_xtime(60) == 120,
        algebra::gf8_xtime(120) == 240,
        algebra::gf8_xtime(240) == 253,
        algebra::gf8_xtime(253) == 231,
        algebra::gf8_xtime(231) == 211,
        algebra::gf8_xtime(211) == 187,
        algebra::gf8_xtime(187) == 107,
        algebra::gf8_xtime(107) == 214,
        algebra::gf8_xtime(214) == 177,
        algebra::gf8_xtime(177) == 127,
        algebra::gf8_xtime(127) == 254,
        algebra::gf8_xtime(254) == 225,
        algebra::gf8_xtime(225) == 223,
        algebra::gf8_xtime(223) == 163,
        algebra::gf8_xtime(163) == 91,
        algebra::gf8_xtime(91) == 182,
        algebra::gf8_xtime(182) == 113,
        algebra::gf8_xtime(113) == 226,
        algebra::gf8_xtime(226) == 217,
        algebra::gf8_xtime(217) == 175,
        algebra::gf8_xtime(175) == 67,
        algebra::gf8_xtime(67) == 134,
        algebra::gf8_xtime(134) == 17,
        algebra::gf8_xtime(17) == 34,
        algebra::gf8_xtime(34) == 68,
        algebra::gf8_xtime(68) == 136,
        algebra::gf8_xtime(136) == 13,
        algebra::gf8_xtime(13) == 26,
        algebra::gf8_xtime(26) == 52,
        algebra::gf8_xtime(52) == 104,
        algebra::gf8_xtime(104) == 208,
        algebra::gf8_xtime(208) == 189,
        algebra::gf8_xtime(189) == 103,
        algebra::gf8_xtime(103) == 206,
        algebra::gf8_xtime(206) == 129,
        algebra::gf8_xtime(129) == 31,
        algebra::gf8_xtime(31) == 62,
        algebra::gf8_xtime(62) == 124,
        algebra::gf8_xtime(124) == 248,
        algebra::gf8_xtime(248) == 237,
        algebra::gf8_xtime(237) == 199,
        algebra::gf8_xtime(199) == 147,
        algebra::gf8_xtime(147) == 59,
        algebra::gf8_xtime(59) == 118,
        algebra::gf8_xtime(118) == 236,
        algebra::gf8_xtime(236) == 197,
        algebra::gf8_xtime(197) == 151,
        algebra::gf8_xtime(151) == 51,
        algebra::gf8_xtime(51) == 102,
        algebra::gf8_xtime(102) == 204,
        algebra::gf8_xtime(204) == 133,
        algebra::gf8_xtime(133) == 23,
        algebra::gf8_xtime(23) == 46,
        algebra::gf8_xtime(46) == 92,
        algebra::gf8_xtime(92) == 184,
        algebra::gf8_xtime(184) == 109,
        algebra::gf8_xtime(109) == 218,
        algebra::gf8_xtime(218) == 169,
        algebra::gf8_xtime(169) == 79,
        algebra::gf8_xtime(79) == 158,
        algebra::gf8_xtime(158) == 33,
        algebra::gf8_xtime(33) == 66,
        algebra::gf8_xtime(66) == 132,
        algebra::gf8_xtime(132) == 21,
        algebra::gf8_xtime(21) == 42,
        algebra::gf8_xtime(42) == 84,
        algebra::gf8_xtime(84) == 168,
        algebra::gf8_xtime(168) == 77,
        algebra::gf8_xtime(77) == 154,
        algebra::gf8_xtime(154) == 41,
        algebra::gf8_xtime(41) == 82,
        algebra::gf8_xtime(82) == 164,
        algebra::gf8_xtime(164) == 85,
        algebra::gf8_xtime(85) == 170,
        algebra::gf8_xtime(170) == 73,
        algebra::gf8_xtime(73) == 146,
        algebra::gf8_xtime(146) == 57,
        algebra::gf8_xtime(57) == 114,
        algebra::gf8_xtime(114) == 228,
        algebra::gf8_xtime(228) == 213,
        algebra::gf8_xtime(213) == 183,
        algebra::gf8_xtime(183) == 115,
        algebra::gf8_xtime(115) == 230,
        algebra::gf8_xtime(230) == 209,
        algebra::gf8_xtime(209) == 191,
        algebra::gf8_xtime(191) == 99,
        algebra::gf8_xtime(99) == 198,
        algebra::gf8_xtime(198) == 145,
        algebra::gf8_xtime(145) == 63,
        algebra::gf8_xtime(63) == 126,
        algebra::gf8_xtime(126) == 252,
        algebra::gf8_xtime(252) == 229,
        algebra::gf8_xtime(229) == 215,
        algebra::gf8_xtime(215) == 179,
        algebra::gf8_xtime(179) == 123,
        algebra::gf8_xtime(123) == 246,
        algebra::gf8_xtime(246) == 241,
        algebra::gf8_xtime(241) == 255,
        algebra::gf8_xtime(255) == 227,
        algebra::gf8_xtime(227) == 219,
        algebra::gf8_xtime(219) == 171,
        algebra::gf8_xtime(171) == 75,
        algebra::gf8_xtime(75) == 150,
        algebra::gf8_xtime(150) == 49,
        algebra::gf8_xtime(49) == 98,
        algebra::gf8_xtime(98) == 196,
        algebra::gf8_xtime(196) == 149,
        algebra::gf8_xtime(149) == 55,
        algebra::gf8_xtime(55) == 110,
        algebra::gf8_xtime(110) == 220,
        algebra::gf8_xtime(220) == 165,
        algebra::gf8_xtime(165) == 87,
        algebra::gf8_xtime(87) == 174,
        algebra::gf8_xtime(174) == 65,
        algebra::gf8_xtime(65) == 130,
        algebra::gf8_xtime(130) == 25,
        algebra::gf8_xtime(25) == 50,
        algebra::gf8_xtime(50) == 100,
        algebra::gf8_xtime(100) == 200,
        algebra::gf8_xtime(200) == 141,
        algebra::gf8_xtime(141) == 7,
        algebra::gf8_xtime(7) == 14,
        algebra::gf8_xtime(14) == 28,
        algebra::gf8_xtime(28) == 56,
        algebra::gf8_xtime(56) == 112,
        algebra::gf8_xtime(112) == 224,
        algebra::gf8_xtime(224) == 221,
        algebra::gf8_xtime(221) == 167,
        algebra::gf8_xtime(167) == 83,
        algebra::gf8_xtime(83) == 166,
        algebra::gf8_xtime(166) == 81,
        algebra::gf8_xtime(81) == 162,
        algebra::gf8_xtime(162) == 89,
        algebra::gf8_xtime(89) == 178,
        algebra::gf8_xtime(178) == 121,
        algebra::gf8_xtime(121) == 242,
        algebra::gf8_xtime(242) == 249,
        algebra::gf8_xtime(249) == 239,
        algebra::gf8_xtime(239) == 195,
        algebra::gf8_xtime(195) == 155,
        algebra::gf8_xtime(155) == 43,
        algebra::gf8_xtime(43) == 86,
        algebra::gf8_xtime(86) == 172,
        algebra::gf8_xtime(172) == 69,
        algebra::gf8_xtime(69) == 138,
        algebra::gf8_xtime(138) == 9,
        algebra::gf8_xtime(9) == 18,
        algebra::gf8_xtime(18) == 36,
        algebra::gf8_xtime(36) == 72,
        algebra::gf8_xtime(72) == 144,
        algebra::gf8_xtime(144) == 61,
        algebra::gf8_xtime(61) == 122,
        algebra::gf8_xtime(122) == 244,
        algebra::gf8_xtime(244) == 245,
        algebra::gf8_xtime(245) == 247,
        algebra::gf8_xtime(247) == 243,
        algebra::gf8_xtime(243) == 251,
        algebra::gf8_xtime(251) == 235,
        algebra::gf8_xtime(235) == 203,
        algebra::gf8_xtime(203) == 139,
        algebra::gf8_xtime(139) == 11,
        algebra::gf8_xtime(11) == 22,
        algebra::gf8_xtime(22) == 44,
        algebra::gf8_xtime(44) == 88,
        algebra::gf8_xtime(88) == 176,
        algebra::gf8_xtime(176) == 125,
        algebra::gf8_xtime(125) == 250,
        algebra::gf8_xtime(250) == 233,
        algebra::gf8_xtime(233) == 207,
        algebra::gf8_xtime(207) == 131,
        algebra::gf8_xtime(131) == 27,
        algebra::gf8_xtime(27) == 54,
        algebra::gf8_xtime(54) == 108,
        algebra::gf8_xtime(108) == 216,
        algebra::gf8_xtime(216) == 173,
        algebra::gf8_xtime(173) == 71,
        algebra::gf8_xtime(71) == 142,
        algebra::gf8_xtime(142) == 1,
{
    assert(
        algebra::gf8_xtime(1) == 2 &&
        algebra::gf8_xtime(2) == 4 &&
        algebra::gf8_xtime(4) == 8 &&
        algebra::gf8_xtime(8) == 16 &&
        algebra::gf8_xtime(16) == 32 &&
        algebra::gf8_xtime(32) == 64 &&
        algebra::gf8_xtime(64) == 128 &&
        algebra::gf8_xtime(128) == 29 &&
        algebra::gf8_xtime(29) == 58 &&
        algebra::gf8_xtime(58) == 116 &&
        algebra::gf8_xtime(116) == 232 &&
        algebra::gf8_xtime(232) == 205 &&
        algebra::gf8_xtime(205) == 135 &&
        algebra::gf8_xtime(135) == 19 &&
        algebra::gf8_xtime(19) == 38 &&
        algebra::gf8_xtime(38) == 76 &&
        algebra::gf8_xtime(76) == 152 &&
        algebra::gf8_xtime(152) == 45 &&
        algebra::gf8_xtime(45) == 90 &&
        algebra::gf8_xtime(90) == 180 &&
        algebra::gf8_xtime(180) == 117 &&
        algebra::gf8_xtime(117) == 234 &&
        algebra::gf8_xtime(234) == 201 &&
        algebra::gf8_xtime(201) == 143 &&
        algebra::gf8_xtime(143) == 3 &&
        algebra::gf8_xtime(3) == 6 &&
        algebra::gf8_xtime(6) == 12 &&
        algebra::gf8_xtime(12) == 24 &&
        algebra::gf8_xtime(24) == 48 &&
        algebra::gf8_xtime(48) == 96 &&
        algebra::gf8_xtime(96) == 192 &&
        algebra::gf8_xtime(192) == 157 &&
        algebra::gf8_xtime(157) == 39 &&
        algebra::gf8_xtime(39) == 78 &&
        algebra::gf8_xtime(78) == 156 &&
        algebra::gf8_xtime(156) == 37 &&
        algebra::gf8_xtime(37) == 74 &&
        algebra::gf8_xtime(74) == 148 &&
        algebra::gf8_xtime(148) == 53 &&
        algebra::gf8_xtime(53) == 106 &&
        algebra::gf8_xtime(106) == 212 &&
        algebra::gf8_xtime(212) == 181 &&
        algebra::gf8_xtime(181) == 119 &&
        algebra::gf8_xtime(119) == 238 &&
        algebra::gf8_xtime(238) == 193 &&
        algebra::gf8_xtime(193) == 159 &&
        algebra::gf8_xtime(159) == 35 &&
        algebra::gf8_xtime(35) == 70 &&
        algebra::gf8_xtime(70) == 140 &&
        algebra::gf8_xtime(140) == 5 &&
        algebra::gf8_xtime(5) == 10 &&
        algebra::gf8_xtime(10) == 20 &&
        algebra::gf8_xtime(20) == 40 &&
        algebra::gf8_xtime(40) == 80 &&
        algebra::gf8_xtime(80) == 160 &&
        algebra::gf8_xtime(160) == 93 &&
        algebra::gf8_xtime(93) == 186 &&
        algebra::gf8_xtime(186) == 105 &&
        algebra::gf8_xtime(105) == 210 &&
        algebra::gf8_xtime(210) == 185 &&
        algebra::gf8_xtime(185) == 111 &&
        algebra::gf8_xtime(111) == 222 &&
        algebra::gf8_xtime(222) == 161 &&
        algebra::gf8_xtime(161) == 95 &&
        algebra::gf8_xtime(95) == 190 &&
        algebra::gf8_xtime(190) == 97 &&
        algebra::gf8_xtime(97) == 194 &&
        algebra::gf8_xtime(194) == 153 &&
        algebra::gf8_xtime(153) == 47 &&
        algebra::gf8_xtime(47) == 94 &&
        algebra::gf8_xtime(94) == 188 &&
        algebra::gf8_xtime(188) == 101 &&
        algebra::gf8_xtime(101) == 202 &&
        algebra::gf8_xtime(202) == 137 &&
        algebra::gf8_xtime(137) == 15 &&
        algebra::gf8_xtime(15) == 30 &&
        algebra::gf8_xtime(30) == 60 &&
        algebra::gf8_xtime(60) == 120 &&
        algebra::gf8_xtime(120) == 240 &&
        algebra::gf8_xtime(240) == 253 &&
        algebra::gf8_xtime(253) == 231 &&
        algebra::gf8_xtime(231) == 211 &&
        algebra::gf8_xtime(211) == 187 &&
        algebra::gf8_xtime(187) == 107 &&
        algebra::gf8_xtime(107) == 214 &&
        algebra::gf8_xtime(214) == 177 &&
        algebra::gf8_xtime(177) == 127 &&
        algebra::gf8_xtime(127) == 254 &&
        algebra::gf8_xtime(254) == 225 &&
        algebra::gf8_xtime(225) == 223 &&
        algebra::gf8_xtime(223) == 163 &&
        algebra::gf8_xtime(163) == 91 &&
        algebra::gf8_xtime(91) == 182 &&
        algebra::gf8_xtime(182) == 113 &&
        algebra::gf8_xtime(113) == 226 &&
        algebra::gf8_xtime(226) == 217 &&
        algebra::gf8_xtime(217) == 175 &&
        algebra::gf8_xtime(175) == 67 &&
        algebra::gf8_xtime(67) == 134 &&
        algebra::gf8_xtime(134) == 17 &&
        algebra::gf8_xtime(17) == 34 &&
        algebra::gf8_xtime(34) == 68 &&
        algebra::gf8_xtime(68) == 136 &&
        algebra::gf8_xtime(136) == 13 &&
        algebra::gf8_xtime(13) == 26 &&
        algebra::gf8_xtime(26) == 52 &&
        algebra::gf8_xtime(52) == 104 &&
        algebra::gf8_xtime(104) == 208 &&
        algebra::gf8_xtime(208) == 189 &&
        algebra::gf8_xtime(189) == 103 &&
        algebra::gf8_xtime(103) == 206 &&
        algebra::gf8_xtime(206) == 129 &&
        algebra::gf8_xtime(129) == 31 &&
        algebra::gf8_xtime(31) == 62 &&
        algebra::gf8_xtime(62) == 124 &&
        algebra::gf8_xtime(124) == 248 &&
        algebra::gf8_xtime(248) == 237 &&
        algebra::gf8_xtime(237) == 199 &&
        algebra::gf8_xtime(199) == 147 &&
        algebra::gf8_xtime(147) == 59 &&
        algebra::gf8_xtime(59) == 118 &&
        algebra::gf8_xtime(118) == 236 &&
        algebra::gf8_xtime(236) == 197 &&
        algebra::gf8_xtime(197) == 151 &&
        algebra::gf8_xtime(151) == 51 &&
        algebra::gf8_xtime(51) == 102 &&
        algebra::gf8_xtime(102) == 204 &&
        algebra::gf8_xtime(204) == 133 &&
        algebra::gf8_xtime(133) == 23 &&
        algebra::gf8_xtime(23) == 46 &&
        algebra::gf8_xtime(46) == 92 &&
        algebra::gf8_xtime(92) == 184 &&
        algebra::gf8_xtime(184) == 109 &&
        algebra::gf8_xtime(109) == 218 &&
        algebra::gf8_xtime(218) == 169 &&
        algebra::gf8_xtime(169) == 79 &&
        algebra::gf8_xtime(79) == 158 &&
        algebra::gf8_xtime(158) == 33 &&
        algebra::gf8_xtime(33) == 66 &&
        algebra::gf8_xtime(66) == 132 &&
        algebra::gf8_xtime(132) == 21 &&
        algebra::gf8_xtime(21) == 42 &&
        algebra::gf8_xtime(42) == 84 &&
        algebra::gf8_xtime(84) == 168 &&
        algebra::gf8_xtime(168) == 77 &&
        algebra::gf8_xtime(77) == 154 &&
        algebra::gf8_xtime(154) == 41 &&
        algebra::gf8_xtime(41) == 82 &&
        algebra::gf8_xtime(82) == 164 &&
        algebra::gf8_xtime(164) == 85 &&
        algebra::gf8_xtime(85) == 170 &&
        algebra::gf8_xtime(170) == 73 &&
        algebra::gf8_xtime(73) == 146 &&
        algebra::gf8_xtime(146) == 57 &&
        algebra::gf8_xtime(57) == 114 &&
        algebra::gf8_xtime(114) == 228 &&
        algebra::gf8_xtime(228) == 213 &&
        algebra::gf8_xtime(213) == 183 &&
        algebra::gf8_xtime(183) == 115 &&
        algebra::gf8_xtime(115) == 230 &&
        algebra::gf8_xtime(230) == 209 &&
        algebra::gf8_xtime(209) == 191 &&
        algebra::gf8_xtime(191) == 99 &&
        algebra::gf8_xtime(99) == 198 &&
        algebra::gf8_xtime(198) == 145 &&
        algebra::gf8_xtime(145) == 63 &&
        algebra::gf8_xtime(63) == 126 &&
        algebra::gf8_xtime(126) == 252 &&
        algebra::gf8_xtime(252) == 229 &&
        algebra::gf8_xtime(229) == 215 &&
        algebra::gf8_xtime(215) == 179 &&
        algebra::gf8_xtime(179) == 123 &&
        algebra::gf8_xtime(123) == 246 &&
        algebra::gf8_xtime(246) == 241 &&
        algebra::gf8_xtime(241) == 255 &&
        algebra::gf8_xtime(255) == 227 &&
        algebra::gf8_xtime(227) == 219 &&
        algebra::gf8_xtime(219) == 171 &&
        algebra::gf8_xtime(171) == 75 &&
        algebra::gf8_xtime(75) == 150 &&
        algebra::gf8_xtime(150) == 49 &&
        algebra::gf8_xtime(49) == 98 &&
        algebra::gf8_xtime(98) == 196 &&
        algebra::gf8_xtime(196) == 149 &&
        algebra::gf8_xtime(149) == 55 &&
        algebra::gf8_xtime(55) == 110 &&
        algebra::gf8_xtime(110) == 220 &&
        algebra::gf8_xtime(220) == 165 &&
        algebra::gf8_xtime(165) == 87 &&
        algebra::gf8_xtime(87) == 174 &&
        algebra::gf8_xtime(174) == 65 &&
        algebra::gf8_xtime(65) == 130 &&
        algebra::gf8_xtime(130) == 25 &&
        algebra::gf8_xtime(25) == 50 &&
        algebra::gf8_xtime(50) == 100 &&
        algebra::gf8_xtime(100) == 200 &&
        algebra::gf8_xtime(200) == 141 &&
        algebra::gf8_xtime(141) == 7 &&
        algebra::gf8_xtime(7) == 14 &&
        algebra::gf8_xtime(14) == 28 &&
        algebra::gf8_xtime(28) == 56 &&
        algebra::gf8_xtime(56) == 112 &&
        algebra::gf8_xtime(112) == 224 &&
        algebra::gf8_xtime(224) == 221 &&
        algebra::gf8_xtime(221) == 167 &&
        algebra::gf8_xtime(167) == 83 &&
        algebra::gf8_xtime(83) == 166 &&
        algebra::gf8_xtime(166) == 81 &&
        algebra::gf8_xtime(81) == 162 &&
        algebra::gf8_xtime(162) == 89 &&
        algebra::gf8_xtime(89) == 178 &&
        algebra::gf8_xtime(178) == 121 &&
        algebra::gf8_xtime(121) == 242 &&
        algebra::gf8_xtime(242) == 249 &&
        algebra::gf8_xtime(249) == 239 &&
        algebra::gf8_xtime(239) == 195 &&
        algebra::gf8_xtime(195) == 155 &&
        algebra::gf8_xtime(155) == 43 &&
        algebra::gf8_xtime(43) == 86 &&
        algebra::gf8_xtime(86) == 172 &&
        algebra::gf8_xtime(172) == 69 &&
        algebra::gf8_xtime(69) == 138 &&
        algebra::gf8_xtime(138) == 9 &&
        algebra::gf8_xtime(9) == 18 &&
        algebra::gf8_xtime(18) == 36 &&
        algebra::gf8_xtime(36) == 72 &&
        algebra::gf8_xtime(72) == 144 &&
        algebra::gf8_xtime(144) == 61 &&
        algebra::gf8_xtime(61) == 122 &&
        algebra::gf8_xtime(122) == 244 &&
        algebra::gf8_xtime(244) == 245 &&
        algebra::gf8_xtime(245) == 247 &&
        algebra::gf8_xtime(247) == 243 &&
        algebra::gf8_xtime(243) == 251 &&
        algebra::gf8_xtime(251) == 235 &&
        algebra::gf8_xtime(235) == 203 &&
        algebra::gf8_xtime(203) == 139 &&
        algebra::gf8_xtime(139) == 11 &&
        algebra::gf8_xtime(11) == 22 &&
        algebra::gf8_xtime(22) == 44 &&
        algebra::gf8_xtime(44) == 88 &&
        algebra::gf8_xtime(88) == 176 &&
        algebra::gf8_xtime(176) == 125 &&
        algebra::gf8_xtime(125) == 250 &&
        algebra::gf8_xtime(250) == 233 &&
        algebra::gf8_xtime(233) == 207 &&
        algebra::gf8_xtime(207) == 131 &&
        algebra::gf8_xtime(131) == 27 &&
        algebra::gf8_xtime(27) == 54 &&
        algebra::gf8_xtime(54) == 108 &&
        algebra::gf8_xtime(108) == 216 &&
        algebra::gf8_xtime(216) == 173 &&
        algebra::gf8_xtime(173) == 71 &&
        algebra::gf8_xtime(71) == 142 &&
        algebra::gf8_xtime(142) == 1
    ) by (bit_vector);
}

/// The doubling step of the whole multiplicative group of GF(2^4).
proof fn lemma_gf4_xtime_values()
    ensures
        algebra::gf4_xtime(1) == 2,
        algebra::gf4_xtime(2) == 4,
        algebra::gf4_xtime(4) == 8,
        algebra::gf4_xtime(8) == 3,
        algebra::gf4_xtime(3) == 6,
        algebra::gf4_xtime(6) == 12,
        algebra::gf4_xtime(12) == 11,
        algebra::gf4_xtime(11) == 5,
        algebra::gf4_xtime(5) == 10,
        algebra::gf4_xtime(10) == 7,
        algebra::gf4_xtime(7) == 14,
        algebra::gf4_xtime(14) == 15,
        algebra::gf4_xtime(15) == 13,
        algebra::gf4_xtime(13) == 9,
        algebra::gf4_xtime(9) == 1,
{
    assert(
        algebra::gf4_xtime(1) == 2 &&
        algebra::gf4_xtime(2) == 4 &&
        algebra::gf4_xtime(4) == 8 &&
        algebra::gf4_xtime(8) == 3 &&
        algebra::gf4_xtime(3) == 6 &&
        algebra::gf4_xtime(6) == 12 &&
        algebra::gf4_xtime(12) == 11 &&
        algebra::gf4_xtime(11) == 5 &&
        algebra::gf4_xtime(5) == 10 &&
        algebra::gf4_xtime(10) == 7 &&
        algebra::gf4_xtime(7) == 14 &&
        algebra::gf4_xtime(14) == 15 &&
        algebra::gf4_xtime(15) == 13 &&
        algebra::gf4_xtime(13) == 9 &&
        algebra::gf4_xtime(9) == 1
    ) by (bit_vector);
}

/// Every entry of `GF2_8_EXP` from `i` up to `n` is doubled by the next one.
spec fn exp_chain(i: nat, n: nat) -> bool
    decreases n - i,
{
    i < n ==> GF2_8_EXP[(i + 1) as int] == algebra::gf8_xtime(GF2_8_EXP[i as int]) && exp_chain(
        i + 1,
        n,
    )
}

proof fn lemma_exp_chain_member(i: nat, n: nat, k: nat)
    requires
        exp_chain(i, n),
        i <= k < n,
    ensures
        GF2_8_EXP[(k + 1) as int] == algebra::gf8_xtime(GF2_8_EXP[k as int]),
    decreases n - i,
{
    if i < k {
        lemma_exp_chain_member(i + 1, n, k);
    }
}

proof fn lemma_exp_chain_0()
    ensures
        exp_chain(0, 32),
{
    lemma_gf8_xtime_values();
    reveal_with_fuel(exp_chain, 34);
}

proof fn lemma_exp_chain_1()
    ensures
        exp_chain(32, 64),
{
    lemma_gf8_xtime_values();
    reveal_with_fuel(exp_chain, 34);
}

proof fn lemma_exp_chain_2()
    ensures
        exp_chain(64, 96),
{
    lemma_gf8_xtime_values();
    reveal_with_fuel(exp_chain, 34);
}

proof fn lemma_exp_chain_3()
    ensures
        exp_chain(96, 128),
{
    lemma_gf8_xtime_values();
    reveal_with_fuel(exp_chain, 34);
}

proof fn lemma_exp_chain_4()
    ensures
        exp_chain(128, 160),
{
    lemma_gf8_xtime_values();
    reveal_with_fuel(exp_chain, 34);
}

proof fn lemma_exp_chain_5()
    ensures
        exp_chain(160, 192),
{
    lemma_gf8_xtime_values();
    reveal_with_fuel(exp_chain, 34);
}

proof fn lemma_exp_chain_6()
    ensures
        exp_chain(192, 224),
{
    lemma_gf8_xtime_values();
    reveal_with_fuel(exp_chain, 34);
}

proof fn lemma_exp_chain_7()
    ensures
        exp_chain(224, 256),
{
    lemma_gf8_xtime_values();
    reveal_with_fuel(exp_chain, 34);
}

proof fn lemma_exp_chain_8()
    ensures
        exp_chain(256, 288),
{
    lemma_gf8_xtime_values();
    reveal_with_fuel(exp_chain, 34);
}

proof fn lemma_exp_chain_9()
    ensures
        exp_chain(288, 320),
{
    lemma_gf8_xtime_values();
    reveal_with_fuel(exp_chain, 34);
}

proof fn lemma_exp_chain_10()
    ensures
        exp_chain(320, 352),
{
    lemma_gf8_xtime_values();
    reveal_with_fuel(exp_chain, 34);
}

proof fn lemma_exp_chain_11()
    ensures
        exp_chain(352, 384),
{
    lemma_gf8_xtime_values();
    reveal_with_fuel(exp_chain, 34);
}

proof fn lemma_exp_chain_12()
    ensures
        exp_chain(384, 416),
{
    lemma_gf8_xtime_values();
    reveal_with_fuel(exp_chain, 34);
}

proof fn lemma_exp_chain_13()
    ensures
        exp_chain(416, 448),
{
    lemma_gf8_xtime_values();
    reveal_with_fuel(exp_chain, 34);
}

proof fn lemma_exp_chain_14()
    ensures
        exp_chain(448, 480),
{
    lemma_gf8_xtime_values();
    reveal_with_fuel(exp_chain, 34);
}

proof fn lemma_exp_chain_15()
    ensures
        exp_chain(480, 510),
{
    lemma_gf8_xtime_values();
    reveal_with_fuel(exp_chain, 34);
}


/// `GF2_8_EXP` doubles from every entry below 510 to the next.
proof fn lemma_exp_step(k: nat)
    requires
        k < 510,
    ensures
        GF2_8_EXP[(k + 1) as int] == algebra::gf8_xtime(GF2_8_EXP[k as int]),
{
    if k < 32 {
        lemma_exp_chain_0();
        lemma_exp_chain_member(0, 32, k);
    } else if k < 64 {
        lemma_exp_chain_1();
        lemma_exp_chain_member(32, 64, k);
    } else if k < 96 {
        lemma_exp_chain_2();
        lemma_exp_chain_member(64, 96, k);
    } else if k < 128 {
        lemma_exp_chain_3();
        lemma_exp_chain_member(96, 128, k);
    } else if k < 160 {
        lemma_exp_chain_4();
        lemma_exp_chain_member(128, 160, k);
    } else if k < 192 {
        lemma_exp_chain_5();
        lemma_exp_chain_member(160, 192, k);
    } else if k < 224 {
        lemma_exp_chain_6();
        lemma_exp_chain_member(192, 224, k);
    } else if k < 256 {
        lemma_exp_chain_7();
        lemma_exp_chain_member(224, 256, k);
    } else if k < 288 {
        lemma_exp_chain_8();
        lemma_exp_chain_member(256, 288, k);
    } else if k < 320 {
        lemma_exp_chain_9();
        lemma_exp_chain_member(288, 320, k);
    } else if k < 352 {
        lemma_exp_chain_10();
        lemma_exp_chain_member(320, 352, k);
    } else if k < 384 {
        lemma_exp_chain_11();
        lemma_exp_chain_member(352, 384, k);
    } else if k < 416 {
        lemma_exp_chain_12();
        lemma_exp_chain_member(384, 416, k);
    } else if k < 448 {
        lemma_exp_chain_13();
        lemma_exp_chain_member(416, 448, k);
    } else if k < 480 {
        lemma_exp_chain_14();
        lemma_exp_chain_member(448, 480, k);
    } else if k < 510 {
        lemma_exp_chain_15();
        lemma_exp_chain_member(480, 510, k);
    }
}

/// `GF2_8_LOG` inverts `GF2_8_EXP` from exponent `i` up to `n`.
spec fn log_chain(i: nat, n: nat) -> bool
    decreases n - i,
{
    i < n ==> GF2_8_LOG[GF2_8_EXP[i as int] as int] == i && log_chain(i + 1, n)
}

proof fn lemma_log_chain_member(i: nat, n: nat, k: nat)
    requires
        log_chain(i, n),
        i <= k < n,
    ensures
        GF2_8_LOG[GF2_8_EXP[k as int] as int] == k,
    decreases n - i,
{
    if i < k {
        lemma_log_chain_member(i + 1, n, k);
    }
}

proof fn lemma_log_chain_0()
    ensures
        log_chain(0, 32),
{
    reveal_with_fuel(log_chain, 34);
}

proof fn lemma_log_chain_1()
    ensures
        log_chain(32, 64),
{
    reveal_with_fuel(log_chain, 34);
}

proof fn lemma_log_chain_2()
    ensures
        log_chain(64, 96),
{
    reveal_with_fuel(log_chain, 34);
}

proof fn lemma_log_chain_3()
    ensures
        log_chain(96, 128),
{
    reveal_with_fuel(log_chain, 34);
}

proof fn lemma_log_chain_4()
    ensures
        log_chain(128, 160),
{
    reveal_with_fuel(log_chain, 34);
}

proof fn lemma_log_chain_5()
    ensures
        log_chain(160, 192),
{
    reveal_with_fuel(log_chain, 34);
}

proof fn lemma_log_chain_6()
    ensures
        log_chain(192, 224),
{
    reveal_with_fuel(log_chain, 34);
}

proof fn lemma_log_chain_7()
    ensures
        log_chain(224, 255),
{
    reveal_with_fuel(log_chain, 34);
}

/// `GF2_8_LOG` inverts `GF2_8_EXP`.
proof fn lemma_log_of_exp(k: nat)
    requires
        k < 255,
    ensures
        GF2_8_LOG[GF2_8_EXP[k as int] as int] == k,
{
    if k < 32 {
        lemma_log_chain_0();
        lemma_log_chain_member(0, 32, k);
    } else if k < 64 {
        lemma_log_chain_1();
        lemma_log_chain_member(32, 64, k);
    } else if k < 96 {
        lemma_log_chain_2();
        lemma_log_chain_member(64, 96, k);
    } else if k < 128 {
        lemma_log_chain_3();
        lemma_log_chain_member(96, 128, k);
    } else if k < 160 {
        lemma_log_chain_4();
        lemma_log_chain_member(128, 160, k);
    } else if k < 192 {
        lemma_log_chain_5();
        lemma_log_chain_member(160, 192, k);
    } else if k < 224 {
        lemma_log_chain_6();
        lemma_log_chain_member(192, 224, k);
    } else if k < 255 {
        lemma_log_chain_7();
        lemma_log_chain_member(224, 255, k);
    }
}

/// `GF2_8_EXP` inverts `GF2_8_LOG` from element `i` up to `n`.
spec fn antilog_chain(i: nat, n: nat) -> bool
    decreases n - i,
{
    i < n ==> GF2_8_LOG[i as int] < 255 && GF2_8_EXP[GF2_8_LOG[i as int] as int] == i
        && antilog_chain(i + 1, n)
}

proof fn lemma_antilog_chain_member(i: nat, n: nat, k: nat)
    requires
        antilog_chain(i, n),
        i <= k < n,
    ensures
        GF2_8_LOG[k as int] < 255,
        GF2_8_EXP[GF2_8_LOG[k as int] as int] == k,
    decreases n - i,
{
    if i < k {
        lemma_antilog_chain_member(i + 1, n, k);
    }
}

proof fn lemma_antilog_chain_0()
    ensures
        antilog_chain(1, 32),
{
    reveal_with_fuel(antilog_chain, 34);
}

proof fn lemma_antilog_chain_1()
    ensures
        antilog_chain(32, 64),
{
    reveal_with_fuel(antilog_chain, 34);
}

proof fn lemma_antilog_chain_2()
    ensures
        antilog_chain(64, 96),
{
    reveal_with_fuel(antilog_chain, 34);
}

proof fn lemma_antilog_chain_3()
    ensures
        antilog_chain(96, 128),
{
    reveal_with_fuel(antilog_chain, 34);
}

proof fn lemma_antilog_chain_4()
    ensures
        antilog_chain(128, 160),
{
    reveal_with_fuel(antilog_chain, 34);
}

proof fn lemma_antilog_chain_5()
    ensures
        antilog_chain(160, 192),
{
    reveal_with_fuel(antilog_chain, 34);
}

proof fn lemma_antilog_chain_6()
    ensures
        antilog_chain(192, 224),
{
    reveal_with_fuel(antilog_chain, 34);
}

proof fn lemma_antilog_chain_7()
    ensures
        antilog_chain(224, 256),
{
    reveal_with_fuel(antilog_chain, 34);
}

/// `GF2_8_EXP` inverts `GF2_8_LOG` on every non-zero element.
proof fn lemma_exp_of_log(k: nat)
    requires
        0 < k < 256,
    ensures
        GF2_8_LOG[k as int] < 255,
        GF2_8_EXP[GF2_8_LOG[k as int] as int] == k,
{
    if k < 32 {
        lemma_antilog_chain_0();
        lemma_antilog_chain_member(1, 32, k);
    } else if k < 64 {
        lemma_antilog_chain_1();
        lemma_antilog_chain_member(32, 64, k);
    } else if k < 96 {
        lemma_antilog_chain_2();
        lemma_antilog_chain_member(64, 96, k);
    } else if k < 128 {
        lemma_antilog_chain_3();
        lemma_antilog_chain_member(96, 128, k);
    } else if k < 160 {
        lemma_antilog_chain_4();
        lemma_antilog_chain_member(128, 160, k);
    } else if k < 192 {
        lemma_antilog_chain_5();
        lemma_antilog_chain_member(160, 192, k);
    } else if k < 224 {
        lemma_antilog_chain_6();
        lemma_antilog_chain_member(192, 224, k);
    } else if k < 256 {
        lemma_antilog_chain_7();
        lemma_antilog_chain_member(224, 256, k);
    }
}

/// Entry `i` of `GF2_8_EXP` is `alpha^i`, and `GF2_8_LOG` leads back to `i`.
pub proof fn lemma_gf8_exp(i: nat)
    requires
        i <= 510,
    ensures
        GF2_8_EXP[i as int] == algebra::alpha_pow(Field::Gf2_8, i),
        i < 255 ==> GF2_8_LOG[GF2_8_EXP[i as int] as int] == i,
        GF2_8_EXP[255] == 1,
        GF2_8_LOG[0] == 0xFF,
    decreases i,
{
    if i > 0 {
        lemma_gf8_exp((i - 1) as nat);
        lemma_exp_step((i - 1) as nat);
    }
    if i < 255 {
        lemma_log_of_exp(i);
    }
}

/// Every non-zero element of GF(2^8) is `alpha` to the power of its entry in
/// `GF2_8_LOG`.
pub proof fn lemma_gf8_log(a: u8)
    requires
        a != 0,
    ensures
        GF2_8_LOG[a as int] < 255,
        GF2_8_EXP[GF2_8_LOG[a as int] as int] == a,
        algebra::alpha_pow(Field::Gf2_8, GF2_8_LOG[a as int] as nat) == a,
{
    lemma_exp_of_log(a as nat);
    lemma_gf8_exp(GF2_8_LOG[a as int] as nat);
}

/// Entry `i` of `GF2_4_EXP` is `alpha^i`, and `GF2_4_LOG` leads back to `i`.
pub proof fn lemma_gf4_exp(i: nat)
    requires
        i <= 15,
    ensures
        GF2_4_EXP[i as int] == algebra::alpha_pow(Field::Gf2_4, i),
        i < 15 ==> GF2_4_LOG[GF2_4_EXP[i as int] as int] == i,
        GF2_4_EXP[15] == 1,
        GF2_4_LOG[0] == 0xFF,
    decreases i,
{
    if i > 0 {
        lemma_gf4_exp((i - 1) as nat);
        lemma_gf4_xtime_values();
    }
}

/// Every non-zero element of GF(2^4) is `alpha` to the power of its entry in
/// `GF2_4_LOG`.
pub proof fn lemma_gf4_log(a: u8)
    requires
        0 < a < 16,
    ensures
        GF2_4_LOG[a as int] < 15,
        GF2_4_EXP[GF2_4_LOG[a as int] as int] == a,
        algebra::alpha_pow(Field::Gf2_4, GF2_4_LOG[a as int] as nat) == a,
{
    assert(GF2_4_LOG[a as int] < 15 && GF2_4_EXP[GF2_4_LOG[a as int] as int] == a);
    lemma_gf4_exp(GF2_4_LOG[a as int] as nat);
}

/// The discrete logarithm of `a` to the base `alpha`, as the tables hold it.
pub closed spec fn flog(f: Field, a: u8) -> nat {
    match f {
        Field::Gf2_8 => GF2_8_LOG[a as int] as nat,
        Field::Gf2_4 => GF2_4_LOG[a as int] as nat,
    }
}

/// Every non-zero element is `alpha` to the power of its logarithm.
pub proof fn lemma_flog(f: Field, a: u8)
    requires
        algebra::in_field(f, a),
        a != 0,
    ensures
        flog(f, a) < algebra::group_order(f),
        algebra::alpha_pow(f, flog(f, a)) == a,
{
    match f {
        Field::Gf2_8 => lemma_gf8_log(a),
        Field::Gf2_4 => lemma_gf4_log(a),
    }
}

/// `alpha` to the power of the group order is one.
pub proof fn lemma_alpha_pow_order(f: Field)
    ensures
        algebra::alpha_pow(f, algebra::group_order(f)) == 1,
{
    match f {
        Field::Gf2_8 => lemma_gf8_exp(255),
        Field::Gf2_4 => lemma_gf4_exp(15),
    }
}

/// Powers of `alpha` with different exponents below the group order differ.
pub proof fn lemma_alpha_pow_injective(f: Field, i: nat, j: nat)
    requires
        i < algebra::group_order(f),
        j < algebra::group_order(f),
        algebra::alpha_pow(f, i) == algebra::alpha_pow(f, j),
    ensures
        i == j,
{
    match f {
        Field::Gf2_8 => {
            lemma_gf8_exp(i);
            lemma_gf8_exp(j);
        },
        Field::Gf2_4 => {
            lemma_gf4_exp(i);
            lemma_gf4_exp(j);
        },
    }
}

} // verus!
