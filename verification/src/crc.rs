//! CRC-32 with the reflected polynomial 0xEDB88320, by table lookup.
//!
//! The table is written out, and proved to be the table of the polynomial:
//! entry `i` is what is left of byte `i` after eight steps of the division.

use vstd::prelude::*;

verus! {

/// CRC-32 lookup table for the reflected polynomial 0xEDB88320.
pub const CRC32_TABLE: [u32; 256] = [
    0x00000000, 0x77073096, 0xee0e612c, 0x990951ba, 0x076dc419, 0x706af48f,
    0xe963a535, 0x9e6495a3, 0x0edb8832, 0x79dcb8a4, 0xe0d5e91e, 0x97d2d988,
    0x09b64c2b, 0x7eb17cbd, 0xe7b82d07, 0x90bf1d91, 0x1db71064, 0x6ab020f2,
    0xf3b97148, 0x84be41de, 0x1adad47d, 0x6ddde4eb, 0xf4d4b551, 0x83d385c7,
    0x136c9856, 0x646ba8c0, 0xfd62f97a, 0x8a65c9ec, 0x14015c4f, 0x63066cd9,
    0xfa0f3d63, 0x8d080df5, 0x3b6e20c8, 0x4c69105e, 0xd56041e4, 0xa2677172,
    0x3c03e4d1, 0x4b04d447, 0xd20d85fd, 0xa50ab56b, 0x35b5a8fa, 0x42b2986c,
    0xdbbbc9d6, 0xacbcf940, 0x32d86ce3, 0x45df5c75, 0xdcd60dcf, 0xabd13d59,
    0x26d930ac, 0x51de003a, 0xc8d75180, 0xbfd06116, 0x21b4f4b5, 0x56b3c423,
    0xcfba9599, 0xb8bda50f, 0x2802b89e, 0x5f058808, 0xc60cd9b2, 0xb10be924,
    0x2f6f7c87, 0x58684c11, 0xc1611dab, 0xb6662d3d, 0x76dc4190, 0x01db7106,
    0x98d220bc, 0xefd5102a, 0x71b18589, 0x06b6b51f, 0x9fbfe4a5, 0xe8b8d433,
    0x7807c9a2, 0x0f00f934, 0x9609a88e, 0xe10e9818, 0x7f6a0dbb, 0x086d3d2d,
    0x91646c97, 0xe6635c01, 0x6b6b51f4, 0x1c6c6162, 0x856530d8, 0xf262004e,
    0x6c0695ed, 0x1b01a57b, 0x8208f4c1, 0xf50fc457, 0x65b0d9c6, 0x12b7e950,
    0x8bbeb8ea, 0xfcb9887c, 0x62dd1ddf, 0x15da2d49, 0x8cd37cf3, 0xfbd44c65,
    0x4db26158, 0x3ab551ce, 0xa3bc0074, 0xd4bb30e2, 0x4adfa541, 0x3dd895d7,
    0xa4d1c46d, 0xd3d6f4fb, 0x4369e96a, 0x346ed9fc, 0xad678846, 0xda60b8d0,
    0x44042d73, 0x33031de5, 0xaa0a4c5f, 0xdd0d7cc9, 0x5005713c, 0x270241aa,
    0xbe0b1010, 0xc90c2086, 0x5768b525, 0x206f85b3, 0xb966d409, 0xce61e49f,
    0x5edef90e, 0x29d9c998, 0xb0d09822, 0xc7d7a8b4, 0x59b33d17, 0x2eb40d81,
    0xb7bd5c3b, 0xc0ba6cad, 0xedb88320, 0x9abfb3b6, 0x03b6e20c, 0x74b1d29a,
    0xead54739, 0x9dd277af, 0x04db2615, 0x73dc1683, 0xe3630b12, 0x94643b84,
    0x0d6d6a3e, 0x7a6a5aa8, 0xe40ecf0b, 0x9309ff9d, 0x0a00ae27, 0x7d079eb1,
    0xf00f9344, 0x8708a3d2, 0x1e01f268, 0x6906c2fe, 0xf762575d, 0x806567cb,
    0x196c3671, 0x6e6b06e7, 0xfed41b76, 0x89d32be0, 0x10da7a5a, 0x67dd4acc,
    0xf9b9df6f, 0x8ebeeff9, 0x17b7be43, 0x60b08ed5, 0xd6d6a3e8, 0xa1d1937e,
    0x38d8c2c4, 0x4fdff252, 0xd1bb67f1, 0xa6bc5767, 0x3fb506dd, 0x48b2364b,
    0xd80d2bda, 0xaf0a1b4c, 0x36034af6, 0x41047a60, 0xdf60efc3, 0xa867df55,
    0x316e8eef, 0x4669be79, 0xcb61b38c, 0xbc66831a, 0x256fd2a0, 0x5268e236,
    0xcc0c7795, 0xbb0b4703, 0x220216b9, 0x5505262f, 0xc5ba3bbe, 0xb2bd0b28,
    0x2bb45a92, 0x5cb36a04, 0xc2d7ffa7, 0xb5d0cf31, 0x2cd99e8b, 0x5bdeae1d,
    0x9b64c2b0, 0xec63f226, 0x756aa39c, 0x026d930a, 0x9c0906a9, 0xeb0e363f,
    0x72076785, 0x05005713, 0x95bf4a82, 0xe2b87a14, 0x7bb12bae, 0x0cb61b38,
    0x92d28e9b, 0xe5d5be0d, 0x7cdcefb7, 0x0bdbdf21, 0x86d3d2d4, 0xf1d4e242,
    0x68ddb3f8, 0x1fda836e, 0x81be16cd, 0xf6b9265b, 0x6fb077e1, 0x18b74777,
    0x88085ae6, 0xff0f6a70, 0x66063bca, 0x11010b5c, 0x8f659eff, 0xf862ae69,
    0x616bffd3, 0x166ccf45, 0xa00ae278, 0xd70dd2ee, 0x4e048354, 0x3903b3c2,
    0xa7672661, 0xd06016f7, 0x4969474d, 0x3e6e77db, 0xaed16a4a, 0xd9d65adc,
    0x40df0b66, 0x37d83bf0, 0xa9bcae53, 0xdebb9ec5, 0x47b2cf7f, 0x30b5ffe9,
    0xbdbdf21c, 0xcabac28a, 0x53b39330, 0x24b4a3a6, 0xbad03605, 0xcdd70693,
    0x54de5729, 0x23d967bf, 0xb3667a2e, 0xc4614ab8, 0x5d681b02, 0x2a6f2b94,
    0xb40bbe37, 0xc30c8ea1, 0x5a05df1b, 0x2d02ef8d,
];

/// One step of the division by the reflected polynomial 0xEDB88320: the
/// register moves right by one bit, and the polynomial is added where a one
/// falls out.
pub open spec fn crc_round(c: u32) -> u32 {
    if c & 1 == 1 {
        (c >> 1) ^ 0xEDB88320
    } else {
        c >> 1
    }
}

/// The remainder that byte `i` leaves after eight steps of the division.
pub open spec fn crc_poly_entry(i: u32) -> u32 {
    crc_round(crc_round(crc_round(crc_round(crc_round(crc_round(crc_round(crc_round(i))))))))
}

proof fn lemma_table_rows_0(i: int)
    requires
        0 <= i < 32,
    ensures
        CRC32_TABLE[i] == crc_poly_entry(i as u32),
{
    assert(crc_poly_entry(0u32) == 0x00000000u32
        && crc_poly_entry(1u32) == 0x77073096u32
        && crc_poly_entry(2u32) == 0xee0e612cu32
        && crc_poly_entry(3u32) == 0x990951bau32
        && crc_poly_entry(4u32) == 0x076dc419u32
        && crc_poly_entry(5u32) == 0x706af48fu32
        && crc_poly_entry(6u32) == 0xe963a535u32
        && crc_poly_entry(7u32) == 0x9e6495a3u32
        && crc_poly_entry(8u32) == 0x0edb8832u32
        && crc_poly_entry(9u32) == 0x79dcb8a4u32
        && crc_poly_entry(10u32) == 0xe0d5e91eu32
        && crc_poly_entry(11u32) == 0x97d2d988u32
        && crc_poly_entry(12u32) == 0x09b64c2bu32
        && crc_poly_entry(13u32) == 0x7eb17cbdu32
        && crc_poly_entry(14u32) == 0xe7b82d07u32
        && crc_poly_entry(15u32) == 0x90bf1d91u32
        && crc_poly_entry(16u32) == 0x1db71064u32
        && crc_poly_entry(17u32) == 0x6ab020f2u32
        && crc_poly_entry(18u32) == 0xf3b97148u32
        && crc_poly_entry(19u32) == 0x84be41deu32
        && crc_poly_entry(20u32) == 0x1adad47du32
        && crc_poly_entry(21u32) == 0x6ddde4ebu32
        && crc_poly_entry(22u32) == 0xf4d4b551u32
        && crc_poly_entry(23u32) == 0x83d385c7u32
        && crc_poly_entry(24u32) == 0x136c9856u32
        && crc_poly_entry(25u32) == 0x646ba8c0u32
        && crc_poly_entry(26u32) == 0xfd62f97au32
        && crc_poly_entry(27u32) == 0x8a65c9ecu32
        && crc_poly_entry(28u32) == 0x14015c4fu32
        && crc_poly_entry(29u32) == 0x63066cd9u32
        && crc_poly_entry(30u32) == 0xfa0f3d63u32
        && crc_poly_entry(31u32) == 0x8d080df5u32) by (bit_vector);
}

proof fn lemma_table_rows_1(i: int)
    requires
        32 <= i < 64,
    ensures
        CRC32_TABLE[i] == crc_poly_entry(i as u32),
{
    assert(crc_poly_entry(32u32) == 0x3b6e20c8u32
        && crc_poly_entry(33u32) == 0x4c69105eu32
        && crc_poly_entry(34u32) == 0xd56041e4u32
        && crc_poly_entry(35u32) == 0xa2677172u32
        && crc_poly_entry(36u32) == 0x3c03e4d1u32
        && crc_poly_entry(37u32) == 0x4b04d447u32
        && crc_poly_entry(38u32) == 0xd20d85fdu32
        && crc_poly_entry(39u32) == 0xa50ab56bu32
        && crc_poly_entry(40u32) == 0x35b5a8fau32
        && crc_poly_entry(41u32) == 0x42b2986cu32
        && crc_poly_entry(42u32) == 0xdbbbc9d6u32
        && crc_poly_entry(43u32) == 0xacbcf940u32
        && crc_poly_entry(44u32) == 0x32d86ce3u32
        && crc_poly_entry(45u32) == 0x45df5c75u32
        && crc_poly_entry(46u32) == 0xdcd60dcfu32
        && crc_poly_entry(47u32) == 0xabd13d59u32
        && crc_poly_entry(48u32) == 0x26d930acu32
        && crc_poly_entry(49u32) == 0x51de003au32
        && crc_poly_entry(50u32) == 0xc8d75180u32
        && crc_poly_entry(51u32) == 0xbfd06116u32
        && crc_poly_entry(52u32) == 0x21b4f4b5u32
        && crc_poly_entry(53u32) == 0x56b3c423u32
        && crc_poly_entry(54u32) == 0xcfba9599u32
        && crc_poly_entry(55u32) == 0xb8bda50fu32
        && crc_poly_entry(56u32) == 0x2802b89eu32
        && crc_poly_entry(57u32) == 0x5f058808u32
        && crc_poly_entry(58u32) == 0xc60cd9b2u32
        && crc_poly_entry(59u32) == 0xb10be924u32
        && crc_poly_entry(60u32) == 0x2f6f7c87u32
        && crc_poly_entry(61u32) == 0x58684c11u32
        && crc_poly_entry(62u32) == 0xc1611dabu32
        && crc_poly_entry(63u32) == 0xb6662d3du32) by (bit_vector);
}

proof fn lemma_table_rows_2(i: int)
    requires
        64 <= i < 96,
    ensures
        CRC32_TABLE[i] == crc_poly_entry(i as u32),
{
    assert(crc_poly_entry(64u32) == 0x76dc4190u32
        && crc_poly_entry(65u32) == 0x01db7106u32
        && crc_poly_entry(66u32) == 0x98d220bcu32
        && crc_poly_entry(67u32) == 0xefd5102au32
        && crc_poly_entry(68u32) == 0x71b18589u32
        && crc_poly_entry(69u32) == 0x06b6b51fu32
        && crc_poly_entry(70u32) == 0x9fbfe4a5u32
        && crc_poly_entry(71u32) == 0xe8b8d433u32
        && crc_poly_entry(72u32) == 0x7807c9a2u32
        && crc_poly_entry(73u32) == 0x0f00f934u32
        && crc_poly_entry(74u32) == 0x9609a88eu32
        && crc_poly_entry(75u32) == 0xe10e9818u32
        && crc_poly_entry(76u32) == 0x7f6a0dbbu32
        && crc_poly_entry(77u32) == 0x086d3d2du32
        && crc_poly_entry(78u32) == 0x91646c97u32
        && crc_poly_entry(79u32) == 0xe6635c01u32
        && crc_poly_entry(80u32) == 0x6b6b51f4u32
        && crc_poly_entry(81u32) == 0x1c6c6162u32
        && crc_poly_entry(82u32) == 0x856530d8u32
        && crc_poly_entry(83u32) == 0xf262004eu32
        && crc_poly_entry(84u32) == 0x6c0695edu32
        && crc_poly_entry(85u32) == 0x1b01a57bu32
        && crc_poly_entry(86u32) == 0x8208f4c1u32
        && crc_poly_entry(87u32) == 0xf50fc457u32
        && crc_poly_entry(88u32) == 0x65b0d9c6u32
        && crc_poly_entry(89u32) == 0x12b7e950u32
        && crc_poly_entry(90u32) == 0x8bbeb8eau32
        && crc_poly_entry(91u32) == 0xfcb9887cu32
        && crc_poly_entry(92u32) == 0x62dd1ddfu32
        && crc_poly_entry(93u32) == 0x15da2d49u32
        && crc_poly_entry(94u32) == 0x8cd37cf3u32
        && crc_poly_entry(95u32) == 0xfbd44c65u32) by (bit_vector);
}

proof fn lemma_table_rows_3(i: int)
    requires
        96 <= i < 128,
    ensures
        CRC32_TABLE[i] == crc_poly_entry(i as u32),
{
    assert(crc_poly_entry(96u32) == 0x4db26158u32
        && crc_poly_entry(97u32) == 0x3ab551ceu32
        && crc_poly_entry(98u32) == 0xa3bc0074u32
        && crc_poly_entry(99u32) == 0xd4bb30e2u32
        && crc_poly_entry(100u32) == 0x4adfa541u32
        && crc_poly_entry(101u32) == 0x3dd895d7u32
        && crc_poly_entry(102u32) == 0xa4d1c46du32
        && crc_poly_entry(103u32) == 0xd3d6f4fbu32
        && crc_poly_entry(104u32) == 0x4369e96au32
        && crc_poly_entry(105u32) == 0x346ed9fcu32
        && crc_poly_entry(106u32) == 0xad678846u32
        && crc_poly_entry(107u32) == 0xda60b8d0u32
        && crc_poly_entry(108u32) == 0x44042d73u32
        && crc_poly_entry(109u32) == 0x33031de5u32
        && crc_poly_entry(110u32) == 0xaa0a4c5fu32
        && crc_poly_entry(111u32) == 0xdd0d7cc9u32
        && crc_poly_entry(112u32) == 0x5005713cu32
        && crc_poly_entry(113u32) == 0x270241aau32
        && crc_poly_entry(114u32) == 0xbe0b1010u32
        && crc_poly_entry(115u32) == 0xc90c2086u32
        && crc_poly_entry(116u32) == 0x5768b525u32
        && crc_poly_entry(117u32) == 0x206f85b3u32
        && crc_poly_entry(118u32) == 0xb966d409u32
        && crc_poly_entry(119u32) == 0xce61e49fu32
        && crc_poly_entry(120u32) == 0x5edef90eu32
        && crc_poly_entry(121u32) == 0x29d9c998u32
        && crc_poly_entry(122u32) == 0xb0d09822u32
        && crc_poly_entry(123u32) == 0xc7d7a8b4u32
        && crc_poly_entry(124u32) == 0x59b33d17u32
        && crc_poly_entry(125u32) == 0x2eb40d81u32
        && crc_poly_entry(126u32) == 0xb7bd5c3bu32
        && crc_poly_entry(127u32) == 0xc0ba6cadu32) by (bit_vector);
}

proof fn lemma_table_rows_4(i: int)
    requires
        128 <= i < 160,
    ensures
        CRC32_TABLE[i] == crc_poly_entry(i as u32),
{
    assert(crc_poly_entry(128u32) == 0xedb88320u32
        && crc_poly_entry(129u32) == 0x9abfb3b6u32
        && crc_poly_entry(130u32) == 0x03b6e20cu32
        && crc_poly_entry(131u32) == 0x74b1d29au32
        && crc_poly_entry(132u32) == 0xead54739u32
        && crc_poly_entry(133u32) == 0x9dd277afu32
        && crc_poly_entry(134u32) == 0x04db2615u32
        && crc_poly_entry(135u32) == 0x73dc1683u32
        && crc_poly_entry(136u32) == 0xe3630b12u32
        && crc_poly_entry(137u32) == 0x94643b84u32
        && crc_poly_entry(138u32) == 0x0d6d6a3eu32
        && crc_poly_entry(139u32) == 0x7a6a5aa8u32
        && crc_poly_entry(140u32) == 0xe40ecf0bu32
        && crc_poly_entry(141u32) == 0x9309ff9du32
        && crc_poly_entry(142u32) == 0x0a00ae27u32
        && crc_poly_entry(143u32) == 0x7d079eb1u32
        && crc_poly_entry(144u32) == 0xf00f9344u32
        && crc_poly_entry(145u32) == 0x8708a3d2u32
        && crc_poly_entry(146u32) == 0x1e01f268u32
        && crc_poly_entry(147u32) == 0x6906c2feu32
        && crc_poly_entry(148u32) == 0xf762575du32
        && crc_poly_entry(149u32) == 0x806567cbu32
        && crc_poly_entry(150u32) == 0x196c3671u32
        && crc_poly_entry(151u32) == 0x6e6b06e7u32
        && crc_poly_entry(152u32) == 0xfed41b76u32
        && crc_poly_entry(153u32) == 0x89d32be0u32
        && crc_poly_entry(154u32) == 0x10da7a5au32
        && crc_poly_entry(155u32) == 0x67dd4accu32
        && crc_poly_entry(156u32) == 0xf9b9df6fu32
        && crc_poly_entry(157u32) == 0x8ebeeff9u32
        && crc_poly_entry(158u32) == 0x17b7be43u32
        && crc_poly_entry(159u32) == 0x60b08ed5u32) by (bit_vector);
}

proof fn lemma_table_rows_5(i: int)
    requires
        160 <= i < 192,
    ensures
        CRC32_TABLE[i] == crc_poly_entry(i as u32),
{
    assert(crc_poly_entry(160u32) == 0xd6d6a3e8u32
        && crc_poly_entry(161u32) == 0xa1d1937eu32
        && crc_poly_entry(162u32) == 0x38d8c2c4u32
        && crc_poly_entry(163u32) == 0x4fdff252u32
        && crc_poly_entry(164u32) == 0xd1bb67f1u32
        && crc_poly_entry(165u32) == 0xa6bc5767u32
        && crc_poly_entry(166u32) == 0x3fb506ddu32
        && crc_poly_entry(167u32) == 0x48b2364bu32
        && crc_poly_entry(168u32) == 0xd80d2bdau32
        && crc_poly_entry(169u32) == 0xaf0a1b4cu32
        && crc_poly_entry(170u32) == 0x36034af6u32
        && crc_poly_entry(171u32) == 0x41047a60u32
        && crc_poly_entry(172u32) == 0xdf60efc3u32
        && crc_poly_entry(173u32) == 0xa867df55u32
        && crc_poly_entry(174u32) == 0x316e8eefu32
        && crc_poly_entry(175u32) == 0x4669be79u32
        && crc_poly_entry(176u32) == 0xcb61b38cu32
        && crc_poly_entry(177u32) == 0xbc66831au32
        && crc_poly_entry(178u32) == 0x256fd2a0u32
        && crc_poly_entry(179u32) == 0x5268e236u32
        && crc_poly_entry(180u32) == 0xcc0c7795u32
        && crc_poly_entry(181u32) == 0xbb0b4703u32
        && crc_poly_entry(182u32) == 0x220216b9u32
        && crc_poly_entry(183u32) == 0x5505262fu32
        && crc_poly_entry(184u32) == 0xc5ba3bbeu32
        && crc_poly_entry(185u32) == 0xb2bd0b28u32
        && crc_poly_entry(186u32) == 0x2bb45a92u32
        && crc_poly_entry(187u32) == 0x5cb36a04u32
        && crc_poly_entry(188u32) == 0xc2d7ffa7u32
        && crc_poly_entry(189u32) == 0xb5d0cf31u32
        && crc_poly_entry(190u32) == 0x2cd99e8bu32
        && crc_poly_entry(191u32) == 0x5bdeae1du32) by (bit_vector);
}

proof fn lemma_table_rows_6(i: int)
    requires
        192 <= i < 224,
    ensures
        CRC32_TABLE[i] == crc_poly_entry(i as u32),
{
    assert(crc_poly_entry(192u32) == 0x9b64c2b0u32
        && crc_poly_entry(193u32) == 0xec63f226u32
        && crc_poly_entry(194u32) == 0x756aa39cu32
        && crc_poly_entry(195u32) == 0x026d930au32
        && crc_poly_entry(196u32) == 0x9c0906a9u32
        && crc_poly_entry(197u32) == 0xeb0e363fu32
        && crc_poly_entry(198u32) == 0x72076785u32
        && crc_poly_entry(199u32) == 0x05005713u32
        && crc_poly_entry(200u32) == 0x95bf4a82u32
        && crc_poly_entry(201u32) == 0xe2b87a14u32
        && crc_poly_entry(202u32) == 0x7bb12baeu32
        && crc_poly_entry(203u32) == 0x0cb61b38u32
        && crc_poly_entry(204u32) == 0x92d28e9bu32
        && crc_poly_entry(205u32) == 0xe5d5be0du32
        && crc_poly_entry(206u32) == 0x7cdcefb7u32
        && crc_poly_entry(207u32) == 0x0bdbdf21u32
        && crc_poly_entry(208u32) == 0x86d3d2d4u32
        && crc_poly_entry(209u32) == 0xf1d4e242u32
        && crc_poly_entry(210u32) == 0x68ddb3f8u32
        && crc_poly_entry(211u32) == 0x1fda836eu32
        && crc_poly_entry(212u32) == 0x81be16cdu32
        && crc_poly_entry(213u32) == 0xf6b9265bu32
        && crc_poly_entry(214u32) == 0x6fb077e1u32
        && crc_poly_entry(215u32) == 0x18b74777u32
        && crc_poly_entry(216u32) == 0x88085ae6u32
        && crc_poly_entry(217u32) == 0xff0f6a70u32
        && crc_poly_entry(218u32) == 0x66063bcau32
        && crc_poly_entry(219u32) == 0x11010b5cu32
        && crc_poly_entry(220u32) == 0x8f659effu32
        && crc_poly_entry(221u32) == 0xf862ae69u32
        && crc_poly_entry(222u32) == 0x616bffd3u32
        && crc_poly_entry(223u32) == 0x166ccf45u32) by (bit_vector);
}

proof fn lemma_table_rows_7(i: int)
    requires
        224 <= i < 256,
    ensures
        CRC32_TABLE[i] == crc_poly_entry(i as u32),
{
    assert(crc_poly_entry(224u32) == 0xa00ae278u32
        && crc_poly_entry(225u32) == 0xd70dd2eeu32
        && crc_poly_entry(226u32) == 0x4e048354u32
        && crc_poly_entry(227u32) == 0x3903b3c2u32
        && crc_poly_entry(228u32) == 0xa7672661u32
        && crc_poly_entry(229u32) == 0xd06016f7u32
        && crc_poly_entry(230u32) == 0x4969474du32
        && crc_poly_entry(231u32) == 0x3e6e77dbu32
        && crc_poly_entry(232u32) == 0xaed16a4au32
        && crc_poly_entry(233u32) == 0xd9d65adcu32
        && crc_poly_entry(234u32) == 0x40df0b66u32
        && crc_poly_entry(235u32) == 0x37d83bf0u32
        && crc_poly_entry(236u32) == 0xa9bcae53u32
        && crc_poly_entry(237u32) == 0xdebb9ec5u32
        && crc_poly_entry(238u32) == 0x47b2cf7fu32
        && crc_poly_entry(239u32) == 0x30b5ffe9u32
        && crc_poly_entry(240u32) == 0xbdbdf21cu32
        && crc_poly_entry(241u32) == 0xcabac28au32
        && crc_poly_entry(242u32) == 0x53b39330u32
        && crc_poly_entry(243u32) == 0x24b4a3a6u32
        && crc_poly_entry(244u32) == 0xbad03605u32
        && crc_poly_entry(245u32) == 0xcdd70693u32
        && crc_poly_entry(246u32) == 0x54de5729u32
        && crc_poly_entry(247u32) == 0x23d967bfu32
        && crc_poly_entry(248u32) == 0xb3667a2eu32
        && crc_poly_entry(249u32) == 0xc4614ab8u32
        && crc_poly_entry(250u32) == 0x5d681b02u32
        && crc_poly_entry(251u32) == 0x2a6f2b94u32
        && crc_poly_entry(252u32) == 0xb40bbe37u32
        && crc_poly_entry(253u32) == 0xc30c8ea1u32
        && crc_poly_entry(254u32) == 0x5a05df1bu32
        && crc_poly_entry(255u32) == 0x2d02ef8du32) by (bit_vector);
}

/// The lookup table is the table of the polynomial 0xEDB88320: entry `i`
/// is the remainder that byte `i` leaves.
pub proof fn lemma_table_is_polynomial(i: int)
    requires
        0 <= i < 256,
    ensures
        CRC32_TABLE[i] == crc_poly_entry(i as u32),
{
    if i < 32 {
        lemma_table_rows_0(i);
    } else if i < 64 {
        lemma_table_rows_1(i);
    } else if i < 96 {
        lemma_table_rows_2(i);
    } else if i < 128 {
        lemma_table_rows_3(i);
    } else if i < 160 {
        lemma_table_rows_4(i);
    } else if i < 192 {
        lemma_table_rows_5(i);
    } else if i < 224 {
        lemma_table_rows_6(i);
    } else {
        lemma_table_rows_7(i);
    }
}

/// The top byte of a table entry tells which entry it is.
proof fn lemma_top_bytes_distinct(i: u32, j: u32)
    requires
        i < 256,
        j < 256,
        crc_poly_entry(i) >> 24 == crc_poly_entry(j) >> 24,
    ensures
        i == j,
{
    assert(i == j) by (bit_vector)
        requires
            i < 256,
            j < 256,
            crc_poly_entry(i) >> 24 == crc_poly_entry(j) >> 24,
    ;
}

/// A CRC step can be undone: two registers that one byte takes to the same
/// register are the same.
pub proof fn lemma_crc32_step_injective_in_register(x: u32, y: u32, b: u8)
    requires
        crc32_step(x, b) == crc32_step(y, b),
    ensures
        x == y,
{
    let ix: u32 = (x ^ (b as u32)) & 0xff;
    let iy: u32 = (y ^ (b as u32)) & 0xff;
    assert(ix < 256 && iy < 256) by (bit_vector)
        requires
            ix == (x ^ (b as u32)) & 0xff,
            iy == (y ^ (b as u32)) & 0xff,
    ;
    let tx = CRC32_TABLE[ix as int];
    let ty = CRC32_TABLE[iy as int];
    lemma_table_is_polynomial(ix as int);
    lemma_table_is_polynomial(iy as int);
    assert(tx >> 24 == ty >> 24) by (bit_vector)
        requires
            tx ^ (x >> 8) == ty ^ (y >> 8),
    ;
    lemma_top_bytes_distinct(ix, iy);
    assert(x == y) by (bit_vector)
        requires
            (x ^ (b as u32)) & 0xff == (y ^ (b as u32)) & 0xff,
            tx ^ (x >> 8) == tx ^ (y >> 8),
    ;
}

/// Two bytes that take one register to the same register are the same.
pub proof fn lemma_crc32_step_injective_in_byte(crc: u32, a: u8, b: u8)
    requires
        crc32_step(crc, a) == crc32_step(crc, b),
    ensures
        a == b,
{
    let ia: u32 = (crc ^ (a as u32)) & 0xff;
    let ib: u32 = (crc ^ (b as u32)) & 0xff;
    assert(ia < 256 && ib < 256) by (bit_vector)
        requires
            ia == (crc ^ (a as u32)) & 0xff,
            ib == (crc ^ (b as u32)) & 0xff,
    ;
    let ta = CRC32_TABLE[ia as int];
    let tb = CRC32_TABLE[ib as int];
    lemma_table_is_polynomial(ia as int);
    lemma_table_is_polynomial(ib as int);
    let high = crc >> 8;
    assert(ta == tb) by (bit_vector)
        requires
            ta ^ high == tb ^ high,
    ;
    lemma_top_bytes_distinct(ia, ib);
    assert(a == b) by (bit_vector)
        requires
            (crc ^ (a as u32)) & 0xff == (crc ^ (b as u32)) & 0xff,
    ;
}

/// One CRC-32 step: fold byte `b` into the running register `crc`.
pub open spec fn crc32_step(crc: u32, b: u8) -> u32 {
    CRC32_TABLE[((crc ^ (b as u32)) & 0xff) as int] ^ (crc >> 8)
}

/// The CRC register after folding all of `data` into `crc`, first byte first.
pub open spec fn crc32_fold(crc: u32, data: Seq<u8>) -> u32
    decreases data.len(),
{
    if data.len() == 0 {
        crc
    } else {
        crc32_step(crc32_fold(crc, data.drop_last()), data.last())
    }
}

/// The CRC-32 of a message whose prefix has checksum `crc` and which
/// continues with `data`.
pub open spec fn crc32_extend(crc: u32, data: Seq<u8>) -> u32 {
    !crc32_fold(!crc, data)
}

/// The CRC-32 (IEEE) checksum of `data`.
pub open spec fn crc32(data: Seq<u8>) -> u32 {
    crc32_extend(0, data)
}

/// Folding a concatenation is folding the parts in order.
pub proof fn lemma_crc32_fold_concat(crc: u32, a: Seq<u8>, b: Seq<u8>)
    ensures
        crc32_fold(crc, a + b) == crc32_fold(crc32_fold(crc, a), b),
    decreases b.len(),
{
    if b.len() == 0 {
        assert(a + b =~= a);
    } else {
        lemma_crc32_fold_concat(crc, a, b.drop_last());
        assert((a + b).drop_last() =~= a + b.drop_last());
        assert((a + b).last() == b.last());
    }
}

/// Continuing a checksum over more data gives the checksum of the whole.
pub proof fn lemma_crc32_extend_concat(crc: u32, a: Seq<u8>, b: Seq<u8>)
    ensures
        crc32_extend(crc32_extend(crc, a), b) == crc32_extend(crc, a + b),
{
    lemma_crc32_fold_concat(!crc, a, b);
    let x = crc32_fold(!crc, a);
    assert(!!x == x) by (bit_vector);
}

/// The checksum of the empty continuation is the checksum so far.
pub proof fn lemma_crc32_extend_empty(crc: u32)
    ensures
        crc32_extend(crc, Seq::<u8>::empty()) == crc,
{
    assert(!!crc == crc) by (bit_vector);
}

} // verus!
