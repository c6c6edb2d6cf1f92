//! The forty symbol versions and the tables keyed by them: character
//! capacities, codeword counts, remainder bits, version information words and
//! alignment pattern coordinates.
use crate::encode::Mode;
use crate::vecl::ECL;
use vstd::prelude::*;

verus! {

/// One of the forty sizes of a symbol. Version `n` has `17 + 4 * n` modules per side.
#[derive(Clone, Copy, PartialEq, Eq, Structural, Debug)]
pub enum Version {
    V1,
    V2,
    V3,
    V4,
    V5,
    V6,
    V7,
    V8,
    V9,
    V10,
    V11,
    V12,
    V13,
    V14,
    V15,
    V16,
    V17,
    V18,
    V19,
    V20,
    V21,
    V22,
    V23,
    V24,
    V25,
    V26,
    V27,
    V28,
    V29,
    V30,
    V31,
    V32,
    V33,
    V34,
    V35,
    V36,
    V37,
    V38,
    V39,
    V40,
}

/// Largest number of characters a symbol holds, one row per pair of mode and
/// level (numeric, alphanumeric, byte; within each L, M, Q, H), one column
/// per version.
pub const CAPACITY: [[u16; 40]; 12] = [
    // numeric, level L
    [
        41, 77, 127, 187, 255, 322, 370, 461, 552, 652, 772, 883, 1022, 1101, 1250, 1408, 1548,
        1725, 1903, 2061, 2232, 2409, 2620, 2812, 3057, 3283, 3517, 3669, 3909, 4158, 4417,
        4686, 4965, 5253, 5529, 5836, 6153, 6479, 6743, 7089,
    ],
    // numeric, level M
    [
        34, 63, 101, 149, 202, 255, 293, 365, 432, 513, 604, 691, 796, 871, 991, 1082, 1212,
        1346, 1500, 1600, 1708, 1872, 2059, 2188, 2395, 2544, 2701, 2857, 3035, 3289, 3486,
        3693, 3909, 4134, 4343, 4588, 4775, 5039, 5313, 5596,
    ],
    // numeric, level Q
    [
        27, 48, 77, 111, 144, 178, 207, 259, 312, 364, 427, 489, 580, 621, 703, 775, 876, 948,
        1063, 1159, 1224, 1358, 1468, 1588, 1718, 1804, 1933, 2085, 2181, 2358, 2473, 2670,
        2805, 2949, 3081, 3244, 3417, 3599, 3791, 3993,
    ],
    // numeric, level H
    [
        17, 34, 58, 82, 106, 139, 154, 202, 235, 288, 331, 374, 427, 468, 530, 602, 674, 746,
        813, 919, 969, 1056, 1108, 1228, 1286, 1425, 1501, 1581, 1677, 1782, 1897, 2022, 2157,
        2301, 2361, 2524, 2625, 2735, 2927, 3057,
    ],
    // alphanumeric, level L
    [
        25, 47, 77, 114, 154, 195, 224, 279, 335, 395, 468, 535, 619, 667, 758, 854, 938, 1046,
        1153, 1249, 1352, 1460, 1588, 1704, 1853, 1990, 2132, 2223, 2369, 2520, 2677, 2840,
        3009, 3183, 3351, 3537, 3729, 3927, 4087, 4296,
    ],
    // alphanumeric, level M
    [
        20, 38, 61, 90, 122, 154, 178, 221, 262, 311, 366, 419, 483, 528, 600, 656, 734, 816,
        909, 970, 1035, 1134, 1248, 1326, 1451, 1542, 1637, 1732, 1839, 1994, 2113, 2238, 2369,
        2506, 2632, 2780, 2894, 3054, 3220, 3391,
    ],
    // alphanumeric, level Q
    [
        16, 29, 47, 67, 87, 108, 125, 157, 189, 221, 259, 296, 352, 376, 426, 470, 531, 574,
        644, 702, 742, 823, 890, 963, 1041, 1094, 1172, 1263, 1322, 1429, 1499, 1618, 1700,
        1787, 1867, 1966, 2071, 2181, 2298, 2420,
    ],
    // alphanumeric, level H
    [
        10, 20, 35, 50, 64, 84, 93, 122, 143, 174, 200, 227, 259, 283, 321, 365, 408, 452, 493,
        557, 587, 640, 672, 744, 779, 864, 910, 958, 1016, 1080, 1150, 1226, 1307, 1394, 1431,
        1530, 1591, 1658, 1774, 1852,
    ],
    // byte, level L
    [
        17, 32, 53, 78, 106, 134, 154, 192, 230, 271, 321, 367, 425, 458, 520, 586, 644, 718,
        792, 858, 929, 1003, 1091, 1171, 1273, 1367, 1465, 1528, 1628, 1732, 1840, 1952, 2068,
        2188, 2303, 2431, 2563, 2699, 2809, 2953,
    ],
    // byte, level M
    [
        14, 26, 42, 62, 84, 106, 122, 152, 180, 213, 251, 287, 331, 362, 412, 450, 504, 560,
        624, 666, 711, 779, 857, 911, 997, 1059, 1125, 1190, 1264, 1370, 1452, 1538, 1628,
        1722, 1809, 1911, 1989, 2099, 2213, 2331,
    ],
    // byte, level Q
    [
        11, 20, 32, 46, 60, 74, 86, 108, 130, 151, 177, 203, 241, 258, 292, 322, 364, 394, 442,
        482, 509, 565, 611, 661, 715, 751, 805, 868, 908, 982, 1030, 1112, 1168, 1228, 1283,
        1351, 1423, 1499, 1579, 1663,
    ],
    // byte, level H
    [
        7, 14, 24, 34, 44, 58, 64, 84, 98, 119, 137, 155, 177, 194, 220, 250, 280, 310, 338,
        382, 403, 439, 461, 511, 535, 593, 625, 658, 698, 742, 790, 842, 898, 958, 983, 1051,
        1093, 1139, 1219, 1273,
    ],
];

/// Number of codewords, data and error correction together, per version.
pub const MAX_BYTES: [usize; 40] = [
    26, 44, 70, 100, 134, 172, 196, 242, 292, 346, 404, 466, 532, 581, 655, 733, 815, 901, 991,
    1085, 1156, 1258, 1364, 1474, 1588, 1706, 1828, 1921, 2051, 2185, 2323, 2465, 2611, 2761,
    2876, 3034, 3196, 3362, 3532, 3706,
];

/// Number of modules left over once every codeword is placed, per version.
pub const MISSING_BITS: [usize; 40] = [
    0, 7, 7, 7, 7, 7, 0, 0, 0, 0, 0, 0, 0, 3, 3, 3, 3, 3, 3, 3, 4, 4, 4, 4, 4, 4, 4, 3, 3, 3,
    3, 3, 3, 3, 0, 0, 0, 0, 0, 0,
];

/// The 18-bit version information word per version; zero below version 7,
/// which carries none.
pub const VERSION_INFORMATION: [u32; 40] = [
    0,
    0,
    0,
    0,
    0,
    0,
    0b000111110010010100,
    0b001000010110111100,
    0b001001101010011001,
    0b001010010011010011,
    0b001011101111110110,
    0b001100011101100010,
    0b001101100001000111,
    0b001110011000001101,
    0b001111100100101000,
    0b010000101101111000,
    0b010001010001011101,
    0b010010101000010111,
    0b010011010100110010,
    0b010100100110100110,
    0b010101011010000011,
    0b010110100011001001,
    0b010111011111101100,
    0b011000111011000100,
    0b011001000111100001,
    0b011010111110101011,
    0b011011000010001110,
    0b011100110000011010,
    0b011101001100111111,
    0b011110110101110101,
    0b011111001001010000,
    0b100000100111010101,
    0b100001011011110000,
    0b100010100010111010,
    0b100011011110011111,
    0b100100101100001011,
    0b100101010000101110,
    0b100110101001100100,
    0b100111010101000001,
    0b101000110001101001,
];

/// The alignment coordinates of version 1.
pub const ALIGNMENT_V1: [usize; 0] = [];

/// The alignment coordinates of version 2.
pub const ALIGNMENT_V2: [usize; 2] = [6, 18];

/// The alignment coordinates of version 3.
pub const ALIGNMENT_V3: [usize; 2] = [6, 22];

/// The alignment coordinates of version 4.
pub const ALIGNMENT_V4: [usize; 2] = [6, 26];

/// The alignment coordinates of version 5.
pub const ALIGNMENT_V5: [usize; 2] = [6, 30];

/// The alignment coordinates of version 6.
pub const ALIGNMENT_V6: [usize; 2] = [6, 34];

/// The alignment coordinates of version 7.
pub const ALIGNMENT_V7: [usize; 3] = [6, 22, 38];

/// The alignment coordinates of version 8.
pub const ALIGNMENT_V8: [usize; 3] = [6, 24, 42];

/// The alignment coordinates of version 9.
pub const ALIGNMENT_V9: [usize; 3] = [6, 26, 46];

/// The alignment coordinates of version 10.
pub const ALIGNMENT_V10: [usize; 3] = [6, 28, 50];

/// The alignment coordinates of version 11.
pub const ALIGNMENT_V11: [usize; 3] = [6, 30, 54];

/// The alignment coordinates of version 12.
pub const ALIGNMENT_V12: [usize; 3] = [6, 32, 58];

/// The alignment coordinates of version 13.
pub const ALIGNMENT_V13: [usize; 3] = [6, 34, 62];

/// The alignment coordinates of version 14.
pub const ALIGNMENT_V14: [usize; 4] = [6, 26, 46, 66];

/// The alignment coordinates of version 15.
pub const ALIGNMENT_V15: [usize; 4] = [6, 26, 48, 70];

/// The alignment coordinates of version 16.
pub const ALIGNMENT_V16: [usize; 4] = [6, 26, 50, 74];

/// The alignment coordinates of version 17.
pub const ALIGNMENT_V17: [usize; 4] = [6, 30, 54, 78];

/// The alignment coordinates of version 18.
pub const ALIGNMENT_V18: [usize; 4] = [6, 30, 56, 82];

/// The alignment coordinates of version 19.
pub const ALIGNMENT_V19: [usize; 4] = [6, 30, 58, 86];

/// The alignment coordinates of version 20.
pub const ALIGNMENT_V20: [usize; 4] = [6, 34, 62, 90];

/// The alignment coordinates of version 21.
pub const ALIGNMENT_V21: [usize; 5] = [6, 28, 50, 72, 94];

/// The alignment coordinates of version 22.
pub const ALIGNMENT_V22: [usize; 5] = [6, 26, 50, 74, 98];

/// The alignment coordinates of version 23.
pub const ALIGNMENT_V23: [usize; 5] = [6, 30, 54, 78, 102];

/// The alignment coordinates of version 24.
pub const ALIGNMENT_V24: [usize; 5] = [6, 28, 54, 80, 106];

/// The alignment coordinates of version 25.
pub const ALIGNMENT_V25: [usize; 5] = [6, 32, 58, 84, 110];

/// The alignment coordinates of version 26.
pub const ALIGNMENT_V26: [usize; 5] = [6, 30, 58, 86, 114];

/// The alignment coordinates of version 27.
pub const ALIGNMENT_V27: [usize; 5] = [6, 34, 62, 90, 118];

/// The alignment coordinates of version 28.
pub const ALIGNMENT_V28: [usize; 6] = [6, 26, 50, 74, 98, 122];

/// The alignment coordinates of version 29.
pub const ALIGNMENT_V29: [usize; 6] = [6, 30, 54, 78, 102, 126];

/// The alignment coordinates of version 30.
pub const ALIGNMENT_V30: [usize; 6] = [6, 26, 52, 78, 104, 130];

/// The alignment coordinates of version 31.
pub const ALIGNMENT_V31: [usize; 6] = [6, 30, 56, 82, 108, 134];

/// The alignment coordinates of version 32.
pub const ALIGNMENT_V32: [usize; 6] = [6, 34, 60, 86, 112, 138];

/// The alignment coordinates of version 33.
pub const ALIGNMENT_V33: [usize; 6] = [6, 30, 58, 86, 114, 142];

/// The alignment coordinates of version 34.
pub const ALIGNMENT_V34: [usize; 6] = [6, 34, 62, 90, 118, 146];

/// The alignment coordinates of version 35.
pub const ALIGNMENT_V35: [usize; 7] = [6, 30, 54, 78, 102, 126, 150];

/// The alignment coordinates of version 36.
pub const ALIGNMENT_V36: [usize; 7] = [6, 24, 50, 76, 102, 128, 154];

/// The alignment coordinates of version 37.
pub const ALIGNMENT_V37: [usize; 7] = [6, 28, 54, 80, 106, 132, 158];

/// The alignment coordinates of version 38.
pub const ALIGNMENT_V38: [usize; 7] = [6, 32, 58, 84, 110, 136, 162];

/// The alignment coordinates of version 39.
pub const ALIGNMENT_V39: [usize; 7] = [6, 26, 54, 82, 110, 138, 166];

/// The alignment coordinates of version 40.
pub const ALIGNMENT_V40: [usize; 7] = [6, 30, 58, 86, 114, 142, 170];

/// Row and column coordinates of the centres of the alignment patterns of
/// version `number`, in increasing order.
pub open spec fn alignment_grid(number: int) -> Seq<usize> {
    if number == 1 {
        ALIGNMENT_V1@
    } else if number == 2 {
        ALIGNMENT_V2@
    } else if number == 3 {
        ALIGNMENT_V3@
    } else if number == 4 {
        ALIGNMENT_V4@
    } else if number == 5 {
        ALIGNMENT_V5@
    } else if number == 6 {
        ALIGNMENT_V6@
    } else if number == 7 {
        ALIGNMENT_V7@
    } else if number == 8 {
        ALIGNMENT_V8@
    } else if number == 9 {
        ALIGNMENT_V9@
    } else if number == 10 {
        ALIGNMENT_V10@
    } else if number == 11 {
        ALIGNMENT_V11@
    } else if number == 12 {
        ALIGNMENT_V12@
    } else if number == 13 {
        ALIGNMENT_V13@
    } else if number == 14 {
        ALIGNMENT_V14@
    } else if number == 15 {
        ALIGNMENT_V15@
    } else if number == 16 {
        ALIGNMENT_V16@
    } else if number == 17 {
        ALIGNMENT_V17@
    } else if number == 18 {
        ALIGNMENT_V18@
    } else if number == 19 {
        ALIGNMENT_V19@
    } else if number == 20 {
        ALIGNMENT_V20@
    } else if number == 21 {
        ALIGNMENT_V21@
    } else if number == 22 {
        ALIGNMENT_V22@
    } else if number == 23 {
        ALIGNMENT_V23@
    } else if number == 24 {
        ALIGNMENT_V24@
    } else if number == 25 {
        ALIGNMENT_V25@
    } else if number == 26 {
        ALIGNMENT_V26@
    } else if number == 27 {
        ALIGNMENT_V27@
    } else if number == 28 {
        ALIGNMENT_V28@
    } else if number == 29 {
        ALIGNMENT_V29@
    } else if number == 30 {
        ALIGNMENT_V30@
    } else if number == 31 {
        ALIGNMENT_V31@
    } else if number == 32 {
        ALIGNMENT_V32@
    } else if number == 33 {
        ALIGNMENT_V33@
    } else if number == 34 {
        ALIGNMENT_V34@
    } else if number == 35 {
        ALIGNMENT_V35@
    } else if number == 36 {
        ALIGNMENT_V36@
    } else if number == 37 {
        ALIGNMENT_V37@
    } else if number == 38 {
        ALIGNMENT_V38@
    } else if number == 39 {
        ALIGNMENT_V39@
    } else {
        ALIGNMENT_V40@
    }
}

impl Version {
    /// The version number, from 1 to 40.
    pub open spec fn spec_number(self) -> int {
        match self {
            Version::V1 => 1,
            Version::V2 => 2,
            Version::V3 => 3,
            Version::V4 => 4,
            Version::V5 => 5,
            Version::V6 => 6,
            Version::V7 => 7,
            Version::V8 => 8,
            Version::V9 => 9,
            Version::V10 => 10,
            Version::V11 => 11,
            Version::V12 => 12,
            Version::V13 => 13,
            Version::V14 => 14,
            Version::V15 => 15,
            Version::V16 => 16,
            Version::V17 => 17,
            Version::V18 => 18,
            Version::V19 => 19,
            Version::V20 => 20,
            Version::V21 => 21,
            Version::V22 => 22,
            Version::V23 => 23,
            Version::V24 => 24,
            Version::V25 => 25,
            Version::V26 => 26,
            Version::V27 => 27,
            Version::V28 => 28,
            Version::V29 => 29,
            Version::V30 => 30,
            Version::V31 => 31,
            Version::V32 => 32,
            Version::V33 => 33,
            Version::V34 => 34,
            Version::V35 => 35,
            Version::V36 => 36,
            Version::V37 => 37,
            Version::V38 => 38,
            Version::V39 => 39,
            Version::V40 => 40,
        }
    }

    /// The version number, from 1 to 40.
    pub fn number(&self) -> (n: usize)
        ensures
            n == self.spec_number(),
            1 <= n <= 40,
    {
        match self {
            Version::V1 => 1,
            Version::V2 => 2,
            Version::V3 => 3,
            Version::V4 => 4,
            Version::V5 => 5,
            Version::V6 => 6,
            Version::V7 => 7,
            Version::V8 => 8,
            Version::V9 => 9,
            Version::V10 => 10,
            Version::V11 => 11,
            Version::V12 => 12,
            Version::V13 => 13,
            Version::V14 => 14,
            Version::V15 => 15,
            Version::V16 => 16,
            Version::V17 => 17,
            Version::V18 => 18,
            Version::V19 => 19,
            Version::V20 => 20,
            Version::V21 => 21,
            Version::V22 => 22,
            Version::V23 => 23,
            Version::V24 => 24,
            Version::V25 => 25,
            Version::V26 => 26,
            Version::V27 => 27,
            Version::V28 => 28,
            Version::V29 => 29,
            Version::V30 => 30,
            Version::V31 => 31,
            Version::V32 => 32,
            Version::V33 => 33,
            Version::V34 => 34,
            Version::V35 => 35,
            Version::V36 => 36,
            Version::V37 => 37,
            Version::V38 => 38,
            Version::V39 => 39,
            Version::V40 => 40,
        }
    }

    /// The version with the given number, if there is one.
    pub fn from_number(n: usize) -> (r: Option<Version>)
        ensures
            r is Some <==> 1 <= n <= 40,
            r is Some ==> r->0.spec_number() == n,
    {
        match n {
            1 => Some(Version::V1),
            2 => Some(Version::V2),
            3 => Some(Version::V3),
            4 => Some(Version::V4),
            5 => Some(Version::V5),
            6 => Some(Version::V6),
            7 => Some(Version::V7),
            8 => Some(Version::V8),
            9 => Some(Version::V9),
            10 => Some(Version::V10),
            11 => Some(Version::V11),
            12 => Some(Version::V12),
            13 => Some(Version::V13),
            14 => Some(Version::V14),
            15 => Some(Version::V15),
            16 => Some(Version::V16),
            17 => Some(Version::V17),
            18 => Some(Version::V18),
            19 => Some(Version::V19),
            20 => Some(Version::V20),
            21 => Some(Version::V21),
            22 => Some(Version::V22),
            23 => Some(Version::V23),
            24 => Some(Version::V24),
            25 => Some(Version::V25),
            26 => Some(Version::V26),
            27 => Some(Version::V27),
            28 => Some(Version::V28),
            29 => Some(Version::V29),
            30 => Some(Version::V30),
            31 => Some(Version::V31),
            32 => Some(Version::V32),
            33 => Some(Version::V33),
            34 => Some(Version::V34),
            35 => Some(Version::V35),
            36 => Some(Version::V36),
            37 => Some(Version::V37),
            38 => Some(Version::V38),
            39 => Some(Version::V39),
            40 => Some(Version::V40),
            _ => None,
        }
    }

    /// Number of modules along one side of the symbol.
    pub open spec fn spec_size(self) -> int {
        17 + 4 * self.spec_number()
    }

    /// Number of modules along one side of the symbol.
    pub fn size(&self) -> (n: usize)
        ensures
            n == self.spec_size(),
            21 <= n <= 177,
    {
        17 + 4 * self.number()
    }

    /// Largest number of characters that version `number` holds in `mode` at level `ecl`.
    pub open spec fn capacity(mode: Mode, ecl: ECL, number: int) -> int
        recommends
            1 <= number <= 40,
    {
        CAPACITY[4 * mode.spec_ordinal() + ecl.spec_ordinal()][number - 1] as int
    }

    /// Largest number of characters that this version holds in `mode` at level `ecl`.
    pub fn max_characters(&self, mode: Mode, ecl: ECL) -> (n: usize)
        ensures
            n == Self::capacity(mode, ecl, self.spec_number()),
    {
        CAPACITY[4 * mode.ordinal() + ecl.ordinal()][self.number() - 1] as usize
    }

    /// The smallest version that holds `len` characters in `mode` at level
    /// `ecl`, or `None` when even version 40 is too small.
    pub fn get(mode: Mode, ecl: ECL, len: usize) -> (r: Option<Version>)
        ensures
            match r {
                Some(v) => {
                    &&& len <= Self::capacity(mode, ecl, v.spec_number())
                    &&& forall|w: int|
                        1 <= w < v.spec_number() ==> #[trigger] Self::capacity(mode, ecl, w) < len
                },
                None => Self::capacity(mode, ecl, 40) < len,
            },
    {
        let row: usize = 4 * mode.ordinal() + ecl.ordinal();
        let mut n: usize = 1;
        while n <= 40
            invariant
                1 <= n <= 41,
                row == 4 * mode.spec_ordinal() + ecl.spec_ordinal(),
                forall|w: int| 1 <= w < n ==> #[trigger] Self::capacity(mode, ecl, w) < len,
            decreases 41 - n,
        {
            if len <= CAPACITY[row][n - 1] as usize {
                return Version::from_number(n);
            }
            n += 1;
        }
        None
    }

    /// Number of modules left over once every codeword is placed.
    pub open spec fn spec_missing_bits(self) -> int {
        MISSING_BITS[self.spec_number() - 1] as int
    }

    /// Number of modules left over once every codeword is placed: they are
    /// filled with light modules.
    pub fn missing_bits(&self) -> (n: usize)
        ensures
            n == self.spec_missing_bits(),
            n <= 7,
    {
        MISSING_BITS[self.number() - 1]
    }

    /// Number of codewords in the symbol, data and error correction together.
    pub open spec fn spec_max_bytes(self) -> int {
        MAX_BYTES[self.spec_number() - 1] as int
    }

    /// Number of codewords in the symbol, data and error correction together.
    pub fn max_bytes(&self) -> (n: usize)
        ensures
            n == self.spec_max_bytes(),
            26 <= n <= 3706,
    {
        MAX_BYTES[self.number() - 1]
    }

    /// The 18-bit version information word; zero below version 7.
    pub open spec fn spec_information(self) -> int {
        VERSION_INFORMATION[self.spec_number() - 1] as int
    }

    /// The 18-bit version information word of versions 7 and up; zero below,
    /// where the symbol carries none.
    pub fn information(&self) -> (n: u32)
        ensures
            n == self.spec_information(),
            n < 0x40000,
            self.spec_number() < 7 ==> n == 0,
    {
        VERSION_INFORMATION[self.number() - 1]
    }

    /// Row and column coordinates of the centres of the alignment patterns:
    /// a pattern sits at every pair of them but the three that the finder
    /// patterns occupy. Empty for version 1.
    pub fn alignment_patterns_grid(&self) -> (r: &'static [usize])
        ensures
            r@ == alignment_grid(self.spec_number()),
    {
        match self {
            Version::V1 => &ALIGNMENT_V1,
            Version::V2 => &ALIGNMENT_V2,
            Version::V3 => &ALIGNMENT_V3,
            Version::V4 => &ALIGNMENT_V4,
            Version::V5 => &ALIGNMENT_V5,
            Version::V6 => &ALIGNMENT_V6,
            Version::V7 => &ALIGNMENT_V7,
            Version::V8 => &ALIGNMENT_V8,
            Version::V9 => &ALIGNMENT_V9,
            Version::V10 => &ALIGNMENT_V10,
            Version::V11 => &ALIGNMENT_V11,
            Version::V12 => &ALIGNMENT_V12,
            Version::V13 => &ALIGNMENT_V13,
            Version::V14 => &ALIGNMENT_V14,
            Version::V15 => &ALIGNMENT_V15,
            Version::V16 => &ALIGNMENT_V16,
            Version::V17 => &ALIGNMENT_V17,
            Version::V18 => &ALIGNMENT_V18,
            Version::V19 => &ALIGNMENT_V19,
            Version::V20 => &ALIGNMENT_V20,
            Version::V21 => &ALIGNMENT_V21,
            Version::V22 => &ALIGNMENT_V22,
            Version::V23 => &ALIGNMENT_V23,
            Version::V24 => &ALIGNMENT_V24,
            Version::V25 => &ALIGNMENT_V25,
            Version::V26 => &ALIGNMENT_V26,
            Version::V27 => &ALIGNMENT_V27,
            Version::V28 => &ALIGNMENT_V28,
            Version::V29 => &ALIGNMENT_V29,
            Version::V30 => &ALIGNMENT_V30,
            Version::V31 => &ALIGNMENT_V31,
            Version::V32 => &ALIGNMENT_V32,
            Version::V33 => &ALIGNMENT_V33,
            Version::V34 => &ALIGNMENT_V34,
            Version::V35 => &ALIGNMENT_V35,
            Version::V36 => &ALIGNMENT_V36,
            Version::V37 => &ALIGNMENT_V37,
            Version::V38 => &ALIGNMENT_V38,
            Version::V39 => &ALIGNMENT_V39,
            Version::V40 => &ALIGNMENT_V40,
        }
    }
}

/// Within one row of the capacity table, no entry is smaller than the one before it.
proof fn lemma_capacity_row_step(row: int, i: int)
    requires
        0 <= row < 12,
        0 <= i < 39,
    ensures
        CAPACITY[row][i] <= CAPACITY[row][i + 1],
{
    let r = CAPACITY[row];
    if row == 0 {
        assert(r[i] <= r[i + 1]);
    } else if row == 1 {
        assert(r[i] <= r[i + 1]);
    } else if row == 2 {
        assert(r[i] <= r[i + 1]);
    } else if row == 3 {
        assert(r[i] <= r[i + 1]);
    } else if row == 4 {
        assert(r[i] <= r[i + 1]);
    } else if row == 5 {
        assert(r[i] <= r[i + 1]);
    } else if row == 6 {
        assert(r[i] <= r[i + 1]);
    } else if row == 7 {
        assert(r[i] <= r[i + 1]);
    } else if row == 8 {
        assert(r[i] <= r[i + 1]);
    } else if row == 9 {
        assert(r[i] <= r[i + 1]);
    } else if row == 10 {
        assert(r[i] <= r[i + 1]);
    } else {
        assert(r[i] <= r[i + 1]);
    }
}

/// For every mode and level, the capacity never shrinks from one version to
/// a later one.
pub proof fn lemma_capacity_monotonic(mode: Mode, ecl: ECL, v: int, w: int)
    requires
        1 <= v <= w <= 40,
    ensures
        Version::capacity(mode, ecl, v) <= Version::capacity(mode, ecl, w),
    decreases w - v,
{
    if v < w {
        lemma_capacity_monotonic(mode, ecl, v, w - 1);
        lemma_capacity_row_step(4 * mode.spec_ordinal() + ecl.spec_ordinal(), w - 2);
    }
}

} // verus!
