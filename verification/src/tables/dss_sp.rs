//! Quantisation tables of the DSS SP codec.
use vstd::prelude::*;

verus! {

/// Reflection coefficients by coefficient and index (Q15). The rows have 32, 16 or
/// 8 entries; the rest of a row is zero.
pub const FILTER_CB: [[i16; 32]; 14] = [
    [
        -32653, -32587, -32515, -32438, -32341, -32216, -32062, -31881,
        -31665, -31398, -31080, -30724, -30299, -29813, -29248, -28572,
        -27674, -26439, -24666, -22466, -19433, -16133, -12218, -7783,
        -2834, 1819, 6544, 11260, 16050, 20220, 24774, 28120,
    ],
    [
        -27503, -24509, -20644, -17496, -14187, -11277, -8420, -5595,
        -3013, -624, 1711, 3880, 5844, 7774, 9739, 11592,
        13364, 14903, 16426, 17900, 19250, 20586, 21803, 23006,
        24142, 25249, 26275, 27300, 28359, 29249, 30118, 31183,
    ],
    [
        -27827, -24208, -20943, -17781, -14843, -11848, -9066, -6297,
        -3660, -910, 1918, 5025, 8223, 11649, 15086, 18423,
        0, 0, 0, 0, 0, 0, 0, 0,
        0, 0, 0, 0, 0, 0, 0, 0,
    ],
    [
        -17128, -11975, -8270, -5123, -2296, 183, 2503, 4707,
        6798, 8945, 11045, 13239, 15528, 18248, 21115, 24785,
        0, 0, 0, 0, 0, 0, 0, 0,
        0, 0, 0, 0, 0, 0, 0, 0,
    ],
    [
        -21557, -17280, -14286, -11644, -9268, -7087, -4939, -2831,
        -691, 1407, 3536, 5721, 8125, 10677, 13721, 17731,
        0, 0, 0, 0, 0, 0, 0, 0,
        0, 0, 0, 0, 0, 0, 0, 0,
    ],
    [
        -15030, -10377, -7034, -4327, -1900, 364, 2458, 4450,
        6422, 8374, 10374, 12486, 14714, 16997, 19626, 22954,
        0, 0, 0, 0, 0, 0, 0, 0,
        0, 0, 0, 0, 0, 0, 0, 0,
    ],
    [
        -16155, -12362, -9698, -7460, -5258, -3359, -1547, 219,
        1916, 3599, 5299, 6994, 8963, 11226, 13716, 16982,
        0, 0, 0, 0, 0, 0, 0, 0,
        0, 0, 0, 0, 0, 0, 0, 0,
    ],
    [
        -14742, -9848, -6921, -4648, -2769, -1065, 499, 2083,
        3633, 5219, 6857, 8580, 10410, 12672, 15561, 20101,
        0, 0, 0, 0, 0, 0, 0, 0,
        0, 0, 0, 0, 0, 0, 0, 0,
    ],
    [
        -11099, -7014, -3855, -1025, 1680, 4544, 7807, 11932,
        0, 0, 0, 0, 0, 0, 0, 0,
        0, 0, 0, 0, 0, 0, 0, 0,
        0, 0, 0, 0, 0, 0, 0, 0,
    ],
    [
        -9060, -4570, -1381, 1419, 4034, 6728, 9865, 14149,
        0, 0, 0, 0, 0, 0, 0, 0,
        0, 0, 0, 0, 0, 0, 0, 0,
        0, 0, 0, 0, 0, 0, 0, 0,
    ],
    [
        -12450, -7985, -4596, -1734, 961, 3629, 6865, 11142,
        0, 0, 0, 0, 0, 0, 0, 0,
        0, 0, 0, 0, 0, 0, 0, 0,
        0, 0, 0, 0, 0, 0, 0, 0,
    ],
    [
        -11831, -7404, -4010, -1096, 1606, 4291, 7386, 11482,
        0, 0, 0, 0, 0, 0, 0, 0,
        0, 0, 0, 0, 0, 0, 0, 0,
        0, 0, 0, 0, 0, 0, 0, 0,
    ],
    [
        -13404, -9250, -5995, -3312, -890, 1594, 4464, 8198,
        0, 0, 0, 0, 0, 0, 0, 0,
        0, 0, 0, 0, 0, 0, 0, 0,
        0, 0, 0, 0, 0, 0, 0, 0,
    ],
    [
        -11239, -7220, -4040, -1406, 971, 3321, 6006, 9697,
        0, 0, 0, 0, 0, 0, 0, 0,
        0, 0, 0, 0, 0, 0, 0, 0,
        0, 0, 0, 0, 0, 0, 0, 0,
    ],
];

/// Gain of the fixed codebook.
pub const FIXED_CB_GAIN: [i16; 64] = [
    0, 4, 8, 13, 17, 22, 26, 31,
    35, 40, 44, 48, 53, 58, 63, 69,
    76, 83, 91, 99, 109, 119, 130, 142,
    155, 170, 185, 203, 222, 242, 265, 290,
    317, 346, 378, 414, 452, 494, 540, 591,
    646, 706, 771, 843, 922, 1007, 1101, 1204,
    1316, 1438, 1572, 1719, 1879, 2053, 2244, 2453,
    2682, 2931, 3204, 3502, 3828, 4184, 4574, 5000,
];

/// Pulse amplitudes (Q15).
pub const PULSE_VAL: [i16; 8] = [
    -31182, -22273, -13364, -4455, 4455, 13364, 22273, 31182,
];

/// Gain of the adaptive codebook (Q11).
pub const ADAPTIVE_GAIN: [i16; 32] = [
    102, 231, 360, 488, 617, 746, 875, 1004,
    1133, 1261, 1390, 1519, 1648, 1777, 1905, 2034,
    2163, 2292, 2421, 2550, 2678, 2807, 2936, 3065,
    3194, 3323, 3451, 3580, 3709, 3838, 3967, 4096,
];

/// Weights of the synthesis filter: powers of two.
pub const BINARY_DECREASING: [i16; 15] = [
    32767, 16384, 8192, 4096, 2048, 1024, 512, 256,
    128, 64, 32, 16, 8, 4, 2,
];

/// Weights of the error correction filter: powers of 0.8.
pub const UNC_DECREASING: [i16; 15] = [
    32767, 26214, 20972, 16777, 13422, 10737, 8590, 6872,
    5498, 4398, 3518, 2815, 2252, 1801, 1441,
];

/// Interpolation filter from 12000 Hz to 11025 Hz, eleven phases of six taps (Q15).
pub const SINC: [i16; 67] = [
    262, 293, 323, 348, 356, 336, 269, 139,
    -67, -358, -733, -1178, -1668, -2162, -2607, -2940,
    -3090, -2986, -2562, -1760, -541, 1110, 3187, 5651,
    8435, 11446, 14568, 17670, 20611, 23251, 25460, 27125,
    28160, 28512, 28160, 27125, 25460, 23251, 20611, 17670,
    14568, 11446, 8435, 5651, 3187, 1110, -541, -1760,
    -2562, -2986, -3090, -2940, -2607, -2162, -1668, -1178,
    -733, -358, -67, 139, 269, 336, 356, 348,
    323, 293, 262,
];

/// `C(72, k)` for `k` from 1 to 7. The eighth entry is `C(72, 8)` modulo 2^32.
pub const C72_BINOMIALS: [i64; 8] = [
    72, 2556, 59640, 1028790, 13991544, 156238908, 1473109704, 3379081753,
];

} // verus!
