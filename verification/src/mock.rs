//! A self-contained stand-in for the judge: the fixed graph of the local
//! tests, a seeded problem generator, and an interactor that answers the
//! scheduler's commands from a generated problem.
use vstd::prelude::*;
use crate::types::{
    Graph, Input, Node, Packet, PacketPath, MAX_COST, MAX_NODE_BATCH, MAX_PATH_LEN, N_NODE,
    N_PACKET_TYPE, N_SPECIAL, SPECIAL_NODE_ID, node_wf, path_wf,
};
use crate::run::graph_fits;
use crate::fallback::fallback_fits;
use crate::libb::{scale, xorshift, Rnd};
use crate::types::{clone_graph, same_graph, MAX_CORES, MAX_PACKETS, MAX_TIME};
use crate::protocol::{fits_fallback, fits_greedy, input_is_valid};
use crate::run::packets_ok;

verus! {

/// The 0-indexed path of each packet type in the fixed graph.
pub open spec fn fixed_path(t: int) -> Seq<usize> {
    if t == 0 {
        seq![
            0, 1, 2, 6, 5, 10, 11, 12, 13,
        ]
    } else if t == 1 {
        seq![
            0, 2, 7, 8, 2, 7, 8, 2, 8, 5, 10, 11, 12, 13,
        ]
    } else if t == 2 {
        seq![
            0, 1, 2, 6, 5, 8, 2, 7, 6, 5, 15, 17, 18, 19, 2, 3, 5, 9,
        ]
    } else if t == 3 {
        seq![
            0, 2, 6, 5, 8, 2, 7, 8, 2, 6, 5, 15, 16,
        ]
    } else if t == 4 {
        seq![
            0, 1, 2, 7, 6, 5, 14, 19, 2, 7, 6, 5, 14, 19, 2, 7, 6, 5, 14, 19, 2, 6, 5, 15, 16,
        ]
    } else if t == 5 {
        seq![
            0, 2, 3, 4, 5, 15, 17, 18, 19, 2, 7, 8, 5, 8, 5, 10, 11, 12, 13,
        ]
    } else {
        seq![
            0, 1, 2, 3, 4, 5, 9,
        ]
    }
}

/// The costs of each node of the fixed graph for batches of 1, 2, ... packets.
pub open spec fn fixed_node_costs(v: int) -> Seq<i64> {
    if v == 0 {
        seq![
            20, 23, 26, 29, 32, 35, 38, 41, 44, 47, 50, 53, 56, 59, 62, 65, 68, 71, 74, 77, 80, 83,
            86, 89, 92, 95, 98, 101, 104, 107, 110, 113, 116, 119, 122, 125, 128, 131, 134, 137,
            140, 143, 146, 149, 152, 155, 158, 161, 164, 167, 170, 173, 176, 179, 182, 185, 188,
            191, 194, 197, 200, 203, 206, 209, 212, 215, 218, 221, 224, 227, 230, 233, 236, 239,
            242, 245, 248, 251, 254, 257, 260, 263, 266, 269, 272, 275, 278, 281, 284, 287, 290,
            293, 296, 299, 302, 305, 308, 311, 314, 317, 320, 323, 326, 329, 332, 335, 338, 341,
            344, 347, 350, 353, 356, 359, 362, 365, 368, 371, 374, 377, 380, 383, 386, 389, 392,
            395, 398, 401,
        ]
    } else if v == 1 {
        seq![
            30, 36, 42, 48, 55, 61, 67, 74, 80, 86, 93, 99, 105, 112, 118, 124, 131, 137, 143, 150,
            156, 162, 169, 175, 181, 188, 194, 200, 207, 213, 219, 226, 235, 244, 253, 263, 272,
            281, 290, 300, 309, 318, 328, 337, 346, 355, 365, 374, 383, 393, 401, 410, 419, 428,
            437, 446, 455, 463, 472, 481, 490, 499, 508, 517,
        ]
    } else if v == 2 {
        seq![
            17, 27, 37, 48, 58, 69, 79, 90, 100, 111, 121, 132, 143, 153, 164, 174, 185, 196, 206,
            217, 228, 238, 249, 259, 270, 281, 291, 302, 313, 323, 334, 345, 357, 370, 383, 395,
            408, 421, 433, 446, 459, 471, 484, 497, 509, 522, 535, 548, 561, 575, 589, 602, 616,
            630, 643, 657, 671, 684, 698, 712, 725, 739, 753, 767, 780, 794, 808, 822, 836, 850,
            864, 878, 891, 905, 919, 933, 947, 961, 975, 988, 1002, 1016, 1030, 1044, 1058, 1072,
            1086, 1099, 1113, 1127, 1141, 1155, 1169, 1183, 1197, 1210, 1224, 1238, 1252, 1266,
            1280, 1294, 1308, 1322, 1336, 1349, 1363, 1377, 1391, 1405, 1419, 1433, 1447, 1461,
            1475, 1488, 1502, 1516, 1530, 1544, 1558, 1572, 1586, 1600, 1614, 1627, 1641, 1655,
        ]
    } else if v == 3 {
        seq![
            5, 6, 7, 8, 10, 11, 12, 14, 15, 16, 17, 18, 19, 20, 21, 22, 23, 24, 26, 27, 28, 29, 30,
            32, 33, 34, 35, 36, 38, 39, 40, 41, 43, 45, 47, 49, 51, 52, 54, 56, 58, 60, 62, 64, 66,
            68, 70, 71, 73, 75, 77, 78, 80, 82, 83, 85, 87, 88, 90, 92, 94, 95, 97, 99, 100, 102,
            104, 106, 108, 109, 111, 113, 115, 116, 118, 120, 122, 124, 125, 127, 129, 131, 133,
            134, 136, 138, 140, 142, 143, 145, 147, 149, 151, 152, 154, 156, 158, 160, 163, 165,
            167, 169, 171, 174, 176, 178, 180, 182, 185, 187, 189, 191, 194, 196, 198, 200, 202,
            205, 207, 209, 211, 214, 216, 218, 220, 222, 225, 227,
        ]
    } else if v == 4 {
        seq![
            13, 20, 27, 34, 41, 48, 55, 62, 67, 76, 83, 90, 98, 104, 111, 118, 125, 132, 139, 146,
            153, 160, 167, 174, 181, 188, 195, 202, 209, 216, 223, 230, 233, 244, 251, 258, 265,
            272, 279, 286, 293, 300, 307, 314, 321, 328, 335, 342, 349, 356, 363, 370, 377, 384,
            391, 398, 405, 412, 419, 426, 430, 440, 447, 454, 461, 468, 475, 482, 489, 496, 503,
            510, 517, 524, 531, 538, 545, 552, 559, 566, 573, 580, 587, 594, 601, 608, 615, 622,
            629, 636, 643, 650, 657, 664, 671, 678,
        ]
    } else if v == 5 {
        seq![
            15, 21, 27, 33, 40, 46, 52, 59, 65, 72, 78, 85, 91, 98, 104, 111, 119, 126, 134, 142,
            150, 157, 165, 173, 180, 188, 196, 204, 211, 219, 227, 235, 244, 253, 262, 271, 280,
            289, 298, 307, 316, 325, 334, 344, 353, 362, 371, 380, 392, 403, 415, 427, 439, 450,
            462, 474, 486, 497, 509, 521, 533, 544, 556, 568, 577, 587, 596, 606, 615, 625, 634,
            644, 653, 663, 672, 682, 691, 701, 710, 720, 729, 739, 748, 758, 767, 777, 786, 796,
            805, 815, 824, 834, 843, 853, 862, 872, 884, 897, 910, 923, 936, 948, 961, 974, 987,
            1000, 1012, 1025, 1038, 1051, 1064, 1076, 1089, 1102, 1115, 1128, 1141, 1153, 1166,
            1179, 1192, 1205, 1217, 1230, 1243, 1256, 1269, 1281,
        ]
    } else if v == 6 {
        seq![
            25, 38, 52, 65, 79, 92, 106, 119, 132, 146, 159, 172, 185, 199, 212, 225, 240, 255,
            270, 284, 299, 314, 329, 344, 358, 373, 388, 403, 418, 432, 446, 459, 472, 486, 499,
            512, 526, 539, 552, 566, 579, 592, 606, 619, 632, 646, 659, 674, 690, 705, 720, 735,
            751, 766, 781, 796, 812, 827, 842, 858, 873, 888, 903, 917, 932, 946, 961, 975, 990,
            1004, 1019, 1033, 1048, 1062, 1077, 1091, 1106, 1121, 1135, 1150, 1164, 1179, 1193,
            1208, 1222, 1237, 1251, 1266, 1280, 1295, 1309, 1324, 1338, 1353, 1367, 1382, 1398,
            1414, 1430, 1446, 1462, 1478, 1494, 1510, 1526, 1542, 1558, 1574, 1590, 1606, 1621,
            1637, 1653, 1669, 1685, 1701, 1717, 1733, 1749, 1765, 1781, 1797, 1813, 1829, 1845,
            1861, 1877, 1893,
        ]
    } else if v == 7 {
        seq![
            5, 9, 13, 17, 21, 24, 28, 31, 35, 38, 41, 45, 48, 51, 54, 57, 60, 63, 66, 69, 72, 75,
            77, 80, 83, 86, 88, 91, 94, 96, 99, 102, 104, 107, 109, 112, 115, 117, 120, 122, 125,
            128, 130, 133, 135, 138, 141, 144, 146, 149, 152, 155, 157, 160, 163, 166, 169, 172,
            175, 179, 182, 185, 188, 192,
        ]
    } else if v == 8 {
        seq![
            27, 37, 48, 58, 69, 80, 90, 101, 109, 117, 125, 133, 141, 149, 157, 165, 173, 181, 189,
            197, 206, 214, 222, 230, 238, 246, 254, 262, 271, 279, 287, 295, 315, 336, 356, 376,
            396, 417, 437, 457, 478, 498, 518, 538, 559, 579, 599, 620, 609, 599, 589, 579, 568,
            558, 548, 537, 527, 517, 507, 496, 486, 476, 466, 455, 470, 484, 499, 513, 528, 542,
            557, 571, 586, 600, 615, 629, 644, 658, 673, 687, 702, 716, 731, 745, 760, 774, 788,
            803, 817, 832, 846, 861, 875, 890, 904, 919, 930, 942, 954, 965, 977, 989, 1000, 1012,
            1024, 1035, 1047, 1059, 1070, 1082, 1094, 1105, 1117, 1129, 1140, 1152, 1163, 1175,
            1187, 1198, 1210, 1222, 1233, 1245, 1257, 1268, 1280, 1292,
        ]
    } else if v == 9 {
        seq![
            3, 3, 3, 3, 3, 3, 3, 3, 3, 3, 3, 3, 3, 3, 3, 4, 4, 4, 4, 4, 4, 4, 4, 4, 4, 4, 4, 4, 4,
            4, 4, 4, 4, 4, 4, 4, 4, 4, 4, 4, 4, 5, 5, 5, 5, 5, 5, 5, 5, 5, 5, 5, 5, 5, 5, 5, 5, 5,
            5, 5, 5, 5, 6, 6, 6, 6, 6, 6, 6, 6, 6, 6, 6, 6, 6, 7, 7, 7, 7, 7, 7, 7, 7, 7, 7, 7, 7,
            7, 7, 7, 7, 7, 7, 7, 7, 7, 8, 8, 8, 8, 8, 8, 8, 8, 8, 8, 8, 8, 8, 8, 8, 8, 8, 8, 8,
        ]
    } else if v == 10 {
        seq![
            7, 12, 18, 24, 30, 36, 42, 48, 54, 60, 66, 72, 78, 84, 90, 96, 102, 108, 114, 120, 126,
            132, 138, 144, 150, 156, 162, 168, 174, 180, 186, 192, 196, 201, 206, 211, 216, 221,
            226, 231, 235, 240, 245, 250, 255, 260, 265, 270, 275,
        ]
    } else if v == 11 {
        seq![
            5, 11, 17, 22, 27, 32, 37, 42, 47, 52, 56, 60, 64, 69, 73, 77, 80, 84, 88, 92, 95, 99,
            102, 105, 109, 112, 116, 119, 122, 126, 129, 132, 135, 139, 142, 146, 149, 152, 156,
            160, 163, 167, 171, 174, 178, 182, 187, 191, 195, 200, 204, 209, 214, 219, 224, 229,
            234, 240, 246, 252, 258, 264, 270, 277,
        ]
    } else if v == 12 {
        seq![
            4, 6, 8, 11, 13, 15, 18, 20, 22, 25, 26, 27, 28, 29, 30, 31, 32, 33, 34, 35, 35, 36,
            37, 38, 39, 40, 41, 42, 43, 44, 44, 45, 46, 47, 48, 48, 49, 50, 51, 52, 52, 53, 54, 55,
            56, 56, 57, 58, 59, 60,
        ]
    } else if v == 13 {
        seq![
            6, 13, 20, 27, 33, 40, 46, 53, 59, 65, 71, 77, 83, 89, 95, 100, 106, 112, 117, 122,
            128, 133, 138, 144, 149, 154, 159, 164, 169, 174, 179, 184, 188, 193, 198, 203, 207,
            212, 216, 221, 225, 230, 234, 239, 243, 248, 252, 257, 261, 266, 270, 274, 279, 283,
            287, 292, 296, 301, 305, 309, 314, 318, 323, 327, 332, 336, 341, 345, 350, 354, 359,
            364, 368, 373, 378, 382, 387, 392, 397, 402, 407, 412, 417, 422, 428, 433, 438, 444,
            449, 455, 460, 466, 471, 477, 483, 489, 495, 501, 507, 514, 520, 526, 533, 539, 546,
            553, 560, 567, 574, 581, 588, 595, 603, 610, 618, 626, 634, 642, 650, 658, 666, 675,
            683, 692, 701, 710, 719, 728,
        ]
    } else if v == 14 {
        seq![
            10, 18, 26, 34, 43, 49, 56, 63, 70, 76, 80, 86, 93, 100, 110, 113,
        ]
    } else if v == 15 {
        seq![
            7, 15, 23, 31, 38, 46, 53, 60, 68, 75, 82, 89, 96, 102, 109, 116, 122, 129, 135, 142,
            148, 155, 161, 167, 173, 179, 185, 192, 198, 204, 209, 215, 221, 227, 233, 239, 245,
            250, 256, 262, 268, 273, 279, 285, 291, 296, 302, 308, 314, 320, 325,
        ]
    } else if v == 16 {
        seq![
            10, 12, 15, 18, 21, 24, 27, 30,
        ]
    } else if v == 17 {
        seq![
            13, 20, 27, 34, 41, 48, 55, 62, 67, 73, 78, 83, 88, 93, 98, 104, 110, 116, 122, 128,
            134, 141, 147, 153, 159, 165, 171, 177, 184, 190, 196, 202, 208, 214, 223, 232, 241,
            249, 258, 267, 276, 285, 293, 302, 311, 320, 329, 337, 346, 354, 363, 371, 380, 388,
            396, 405, 413, 422, 430, 438, 447, 455, 464, 472, 482, 491, 501, 510, 520, 529, 539,
            548, 558, 568, 577, 587, 596, 606, 615, 625, 635, 644, 654, 663, 673, 682, 692, 702,
            711, 721, 730, 740, 749, 759, 769, 778, 789, 799, 810, 821, 831, 842, 853, 863, 874,
            885, 895, 906, 917, 927, 938, 949, 959, 970, 981, 991, 1002, 1013, 1023, 1034, 1045,
            1055, 1066, 1076, 1087, 1098, 1108, 1119,
        ]
    } else if v == 18 {
        seq![
            4, 9, 14, 19, 24, 29, 33, 38, 43, 47, 52, 56, 61, 65, 70, 74, 78, 83, 87, 91, 95, 99,
            104, 108, 112, 116, 120, 124, 128, 132, 135, 139, 143, 147, 151, 154, 158, 162, 165,
            169, 173, 176, 180, 183, 187, 191, 194, 198, 201, 205, 208, 211, 215, 218, 222, 225,
            228, 232, 235, 238, 242, 245, 248, 252, 255, 258, 261, 265, 268, 271, 274, 278, 281,
            284, 287, 291, 294, 297, 300, 304, 307,
        ]
    } else {
        seq![
            10, 15, 21, 27, 32, 38, 44, 50, 55, 61, 67, 72, 78, 84, 89, 95, 101, 106, 112, 117,
            123, 128, 134, 139, 145, 150, 156, 161, 167, 172, 178, 183, 190, 196, 202, 209, 215,
            221, 227, 234, 240, 246, 253, 259, 265, 271, 278, 284, 291, 297, 304, 311, 317, 324,
            331, 337, 344, 351, 357, 364, 371, 377, 384, 390, 397, 403, 409, 416, 422, 428, 435,
            441, 447, 454, 460, 466, 473, 479, 485, 492, 498, 504, 511, 517, 523, 530, 536, 542,
            548, 555, 561, 567, 574, 580, 586, 593, 599, 606, 613, 619, 626, 633, 640, 646, 653,
            660, 666, 673, 680, 686, 693, 700, 706, 713, 720, 726, 733, 740, 747, 753, 760, 767,
            773, 780, 787, 793, 800, 807,
        ]
    }
}

/// The largest batch of each node in the fixed graph.
pub open spec fn fixed_max_batch() -> Seq<int> {
    seq![
        128, 64, 128, 128, 96, 128, 128, 64, 128, 115, 49, 64, 50, 128, 16, 51, 8, 128, 81, 128,
    ]
}

/// A path given with 1-indexed nodes, made 0-indexed.
fn path_from_one_indexed(nodes: Vec<usize>) -> (p: PacketPath)
    requires
        1 <= nodes@.len() <= MAX_PATH_LEN,
        forall|k: int| 0 <= k < nodes@.len() ==> 1 <= #[trigger] nodes@[k] <= N_NODE,
    ensures
        path_wf(p),
        p.path@.len() == nodes@.len(),
        forall|k: int| 0 <= k < nodes@.len() ==> #[trigger] p.path@[k] == nodes@[k] - 1,
{
    let mut v = nodes;
    let ghost orig = v@;
    let n = v.len();
    let mut k: usize = 0;
    while k < n
        invariant
            n == v@.len() == orig.len(),
            1 <= n <= MAX_PATH_LEN,
            k <= n,
            forall|j: int| 0 <= j < n ==> 1 <= #[trigger] orig[j] <= N_NODE,
            forall|j: int| 0 <= j < k ==> #[trigger] v@[j] == orig[j] - 1,
            forall|j: int| k <= j < n ==> #[trigger] v@[j] == orig[j],
        decreases n - k,
    {
        let x = v[k];
        v.set(k, x - 1);
        k = k + 1;
    }
    PacketPath { l: n, path: v }
}

/// A node given by its costs for batches of 1, 2, ...; the cost of an empty batch is 0.
fn node_with_empty_batch(costs: Vec<i64>) -> (n: Node)
    requires
        1 <= costs@.len() <= MAX_NODE_BATCH,
        forall|k: int| 0 <= k < costs@.len() ==> 0 <= #[trigger] costs@[k] <= MAX_COST,
    ensures
        node_wf(n),
        n.costs@ == seq![0i64] + costs@,
{
    let mut c = costs;
    c.insert(0, 0);
    proof {
        assert(c@ =~= seq![0i64] + costs@);
    }
    Node { costs: c }
}

/// The graph of the local tests.
#[verifier::rlimit(40)]
pub fn fixed_graph() -> (g: Graph)
    ensures
        graph_fits(g),
        fallback_fits(g),
        forall|t: int| 0 <= t < N_PACKET_TYPE ==> #[trigger] g.paths@[t].path@ == fixed_path(t),
        forall|v: int| 0 <= v < N_NODE ==> #[trigger] g.max_batch(v) == fixed_max_batch()[v],
        forall|v: int| 0 <= v < N_NODE ==> #[trigger] g.nodes@[v].costs@ == seq![0i64] + fixed_node_costs(v),
        g.special_costs@ == seq![3i64, 5, 8, 11, 14, 17, 29, 73],
{
    let paths: Vec<PacketPath> = vec![
        path_from_one_indexed(
            vec![
                1, 2, 3, 7, 6, 11, 12, 13, 14,
            ],
        ),
        path_from_one_indexed(
            vec![
                1, 3, 8, 9, 3, 8, 9, 3, 9, 6, 11, 12, 13, 14,
            ],
        ),
        path_from_one_indexed(
            vec![
                1, 2, 3, 7, 6, 9, 3, 8, 7, 6, 16, 18, 19, 20, 3, 4, 6, 10,
            ],
        ),
        path_from_one_indexed(
            vec![
                1, 3, 7, 6, 9, 3, 8, 9, 3, 7, 6, 16, 17,
            ],
        ),
        path_from_one_indexed(
            vec![
                1, 2, 3, 8, 7, 6, 15, 20, 3, 8, 7, 6, 15, 20, 3, 8, 7, 6, 15, 20, 3, 7, 6, 16,
                17,
            ],
        ),
        path_from_one_indexed(
            vec![
                1, 3, 4, 5, 6, 16, 18, 19, 20, 3, 8, 9, 6, 9, 6, 11, 12, 13, 14,
            ],
        ),
        path_from_one_indexed(
            vec![
                1, 2, 3, 4, 5, 6, 10,
            ],
        ),
    ];
    let nodes: Vec<Node> = vec![
        node_with_empty_batch(
            vec![
                20, 23, 26, 29, 32, 35, 38, 41, 44, 47, 50, 53, 56, 59, 62, 65, 68, 71, 74, 77,
                80, 83, 86, 89, 92, 95, 98, 101, 104, 107, 110, 113, 116, 119, 122, 125, 128,
                131, 134, 137, 140, 143, 146, 149, 152, 155, 158, 161, 164, 167, 170, 173, 176,
                179, 182, 185, 188, 191, 194, 197, 200, 203, 206, 209, 212, 215, 218, 221, 224,
                227, 230, 233, 236, 239, 242, 245, 248, 251, 254, 257, 260, 263, 266, 269, 272,
                275, 278, 281, 284, 287, 290, 293, 296, 299, 302, 305, 308, 311, 314, 317, 320,
                323, 326, 329, 332, 335, 338, 341, 344, 347, 350, 353, 356, 359, 362, 365, 368,
                371, 374, 377, 380, 383, 386, 389, 392, 395, 398, 401,
            ],
        ),
        node_with_empty_batch(
            vec![
                30, 36, 42, 48, 55, 61, 67, 74, 80, 86, 93, 99, 105, 112, 118, 124, 131, 137,
                143, 150, 156, 162, 169, 175, 181, 188, 194, 200, 207, 213, 219, 226, 235, 244,
                253, 263, 272, 281, 290, 300, 309, 318, 328, 337, 346, 355, 365, 374, 383, 393,
                401, 410, 419, 428, 437, 446, 455, 463, 472, 481, 490, 499, 508, 517,
            ],
        ),
        node_with_empty_batch(
            vec![
                17, 27, 37, 48, 58, 69, 79, 90, 100, 111, 121, 132, 143, 153, 164, 174, 185,
                196, 206, 217, 228, 238, 249, 259, 270, 281, 291, 302, 313, 323, 334, 345, 357,
                370, 383, 395, 408, 421, 433, 446, 459, 471, 484, 497, 509, 522, 535, 548, 561,
                575, 589, 602, 616, 630, 643, 657, 671, 684, 698, 712, 725, 739, 753, 767, 780,
                794, 808, 822, 836, 850, 864, 878, 891, 905, 919, 933, 947, 961, 975, 988, 1002,
                1016, 1030, 1044, 1058, 1072, 1086, 1099, 1113, 1127, 1141, 1155, 1169, 1183,
                1197, 1210, 1224, 1238, 1252, 1266, 1280, 1294, 1308, 1322, 1336, 1349, 1363,
                1377, 1391, 1405, 1419, 1433, 1447, 1461, 1475, 1488, 1502, 1516, 1530, 1544,
                1558, 1572, 1586, 1600, 1614, 1627, 1641, 1655,
            ],
        ),
        node_with_empty_batch(
            vec![
                5, 6, 7, 8, 10, 11, 12, 14, 15, 16, 17, 18, 19, 20, 21, 22, 23, 24, 26, 27, 28,
                29, 30, 32, 33, 34, 35, 36, 38, 39, 40, 41, 43, 45, 47, 49, 51, 52, 54, 56, 58,
                60, 62, 64, 66, 68, 70, 71, 73, 75, 77, 78, 80, 82, 83, 85, 87, 88, 90, 92, 94,
                95, 97, 99, 100, 102, 104, 106, 108, 109, 111, 113, 115, 116, 118, 120, 122,
                124, 125, 127, 129, 131, 133, 134, 136, 138, 140, 142, 143, 145, 147, 149, 151,
                152, 154, 156, 158, 160, 163, 165, 167, 169, 171, 174, 176, 178, 180, 182, 185,
                187, 189, 191, 194, 196, 198, 200, 202, 205, 207, 209, 211, 214, 216, 218, 220,
                222, 225, 227,
            ],
        ),
        node_with_empty_batch(
            vec![
                13, 20, 27, 34, 41, 48, 55, 62, 67, 76, 83, 90, 98, 104, 111, 118, 125, 132,
                139, 146, 153, 160, 167, 174, 181, 188, 195, 202, 209, 216, 223, 230, 233, 244,
                251, 258, 265, 272, 279, 286, 293, 300, 307, 314, 321, 328, 335, 342, 349, 356,
                363, 370, 377, 384, 391, 398, 405, 412, 419, 426, 430, 440, 447, 454, 461, 468,
                475, 482, 489, 496, 503, 510, 517, 524, 531, 538, 545, 552, 559, 566, 573, 580,
                587, 594, 601, 608, 615, 622, 629, 636, 643, 650, 657, 664, 671, 678,
            ],
        ),
        node_with_empty_batch(
            vec![
                15, 21, 27, 33, 40, 46, 52, 59, 65, 72, 78, 85, 91, 98, 104, 111, 119, 126, 134,
                142, 150, 157, 165, 173, 180, 188, 196, 204, 211, 219, 227, 235, 244, 253, 262,
                271, 280, 289, 298, 307, 316, 325, 334, 344, 353, 362, 371, 380, 392, 403, 415,
                427, 439, 450, 462, 474, 486, 497, 509, 521, 533, 544, 556, 568, 577, 587, 596,
                606, 615, 625, 634, 644, 653, 663, 672, 682, 691, 701, 710, 720, 729, 739, 748,
                758, 767, 777, 786, 796, 805, 815, 824, 834, 843, 853, 862, 872, 884, 897, 910,
                923, 936, 948, 961, 974, 987, 1000, 1012, 1025, 1038, 1051, 1064, 1076, 1089,
                1102, 1115, 1128, 1141, 1153, 1166, 1179, 1192, 1205, 1217, 1230, 1243, 1256,
                1269, 1281,
            ],
        ),
        node_with_empty_batch(
            vec![
                25, 38, 52, 65, 79, 92, 106, 119, 132, 146, 159, 172, 185, 199, 212, 225, 240,
                255, 270, 284, 299, 314, 329, 344, 358, 373, 388, 403, 418, 432, 446, 459, 472,
                486, 499, 512, 526, 539, 552, 566, 579, 592, 606, 619, 632, 646, 659, 674, 690,
                705, 720, 735, 751, 766, 781, 796, 812, 827, 842, 858, 873, 888, 903, 917, 932,
                946, 961, 975, 990, 1004, 1019, 1033, 1048, 1062, 1077, 1091, 1106, 1121, 1135,
                1150, 1164, 1179, 1193, 1208, 1222, 1237, 1251, 1266, 1280, 1295, 1309, 1324,
                1338, 1353, 1367, 1382, 1398, 1414, 1430, 1446, 1462, 1478, 1494, 1510, 1526,
                1542, 1558, 1574, 1590, 1606, 1621, 1637, 1653, 1669, 1685, 1701, 1717, 1733,
                1749, 1765, 1781, 1797, 1813, 1829, 1845, 1861, 1877, 1893,
            ],
        ),
        node_with_empty_batch(
            vec![
                5, 9, 13, 17, 21, 24, 28, 31, 35, 38, 41, 45, 48, 51, 54, 57, 60, 63, 66, 69,
                72, 75, 77, 80, 83, 86, 88, 91, 94, 96, 99, 102, 104, 107, 109, 112, 115, 117,
                120, 122, 125, 128, 130, 133, 135, 138, 141, 144, 146, 149, 152, 155, 157, 160,
                163, 166, 169, 172, 175, 179, 182, 185, 188, 192,
            ],
        ),
        node_with_empty_batch(
            vec![
                27, 37, 48, 58, 69, 80, 90, 101, 109, 117, 125, 133, 141, 149, 157, 165, 173,
                181, 189, 197, 206, 214, 222, 230, 238, 246, 254, 262, 271, 279, 287, 295, 315,
                336, 356, 376, 396, 417, 437, 457, 478, 498, 518, 538, 559, 579, 599, 620, 609,
                599, 589, 579, 568, 558, 548, 537, 527, 517, 507, 496, 486, 476, 466, 455, 470,
                484, 499, 513, 528, 542, 557, 571, 586, 600, 615, 629, 644, 658, 673, 687, 702,
                716, 731, 745, 760, 774, 788, 803, 817, 832, 846, 861, 875, 890, 904, 919, 930,
                942, 954, 965, 977, 989, 1000, 1012, 1024, 1035, 1047, 1059, 1070, 1082, 1094,
                1105, 1117, 1129, 1140, 1152, 1163, 1175, 1187, 1198, 1210, 1222, 1233, 1245,
                1257, 1268, 1280, 1292,
            ],
        ),
        node_with_empty_batch(
            vec![
                3, 3, 3, 3, 3, 3, 3, 3, 3, 3, 3, 3, 3, 3, 3, 4, 4, 4, 4, 4, 4, 4, 4, 4, 4, 4, 4,
                4, 4, 4, 4, 4, 4, 4, 4, 4, 4, 4, 4, 4, 4, 5, 5, 5, 5, 5, 5, 5, 5, 5, 5, 5, 5, 5,
                5, 5, 5, 5, 5, 5, 5, 5, 6, 6, 6, 6, 6, 6, 6, 6, 6, 6, 6, 6, 6, 7, 7, 7, 7, 7, 7,
                7, 7, 7, 7, 7, 7, 7, 7, 7, 7, 7, 7, 7, 7, 7, 8, 8, 8, 8, 8, 8, 8, 8, 8, 8, 8, 8,
                8, 8, 8, 8, 8, 8, 8,
            ],
        ),
        node_with_empty_batch(
            vec![
                7, 12, 18, 24, 30, 36, 42, 48, 54, 60, 66, 72, 78, 84, 90, 96, 102, 108, 114,
                120, 126, 132, 138, 144, 150, 156, 162, 168, 174, 180, 186, 192, 196, 201, 206,
                211, 216, 221, 226, 231, 235, 240, 245, 250, 255, 260, 265, 270, 275,
            ],
        ),
        node_with_empty_batch(
            vec![
                5, 11, 17, 22, 27, 32, 37, 42, 47, 52, 56, 60, 64, 69, 73, 77, 80, 84, 88, 92,
                95, 99, 102, 105, 109, 112, 116, 119, 122, 126, 129, 132, 135, 139, 142, 146,
                149, 152, 156, 160, 163, 167, 171, 174, 178, 182, 187, 191, 195, 200, 204, 209,
                214, 219, 224, 229, 234, 240, 246, 252, 258, 264, 270, 277,
            ],
        ),
        node_with_empty_batch(
            vec![
                4, 6, 8, 11, 13, 15, 18, 20, 22, 25, 26, 27, 28, 29, 30, 31, 32, 33, 34, 35, 35,
                36, 37, 38, 39, 40, 41, 42, 43, 44, 44, 45, 46, 47, 48, 48, 49, 50, 51, 52, 52,
                53, 54, 55, 56, 56, 57, 58, 59, 60,
            ],
        ),
        node_with_empty_batch(
            vec![
                6, 13, 20, 27, 33, 40, 46, 53, 59, 65, 71, 77, 83, 89, 95, 100, 106, 112, 117,
                122, 128, 133, 138, 144, 149, 154, 159, 164, 169, 174, 179, 184, 188, 193, 198,
                203, 207, 212, 216, 221, 225, 230, 234, 239, 243, 248, 252, 257, 261, 266, 270,
                274, 279, 283, 287, 292, 296, 301, 305, 309, 314, 318, 323, 327, 332, 336, 341,
                345, 350, 354, 359, 364, 368, 373, 378, 382, 387, 392, 397, 402, 407, 412, 417,
                422, 428, 433, 438, 444, 449, 455, 460, 466, 471, 477, 483, 489, 495, 501, 507,
                514, 520, 526, 533, 539, 546, 553, 560, 567, 574, 581, 588, 595, 603, 610, 618,
                626, 634, 642, 650, 658, 666, 675, 683, 692, 701, 710, 719, 728,
            ],
        ),
        node_with_empty_batch(
            vec![
                10, 18, 26, 34, 43, 49, 56, 63, 70, 76, 80, 86, 93, 100, 110, 113,
            ],
        ),
        node_with_empty_batch(
            vec![
                7, 15, 23, 31, 38, 46, 53, 60, 68, 75, 82, 89, 96, 102, 109, 116, 122, 129, 135,
                142, 148, 155, 161, 167, 173, 179, 185, 192, 198, 204, 209, 215, 221, 227, 233,
                239, 245, 250, 256, 262, 268, 273, 279, 285, 291, 296, 302, 308, 314, 320, 325,
            ],
        ),
        node_with_empty_batch(
            vec![
                10, 12, 15, 18, 21, 24, 27, 30,
            ],
        ),
        node_with_empty_batch(
            vec![
                13, 20, 27, 34, 41, 48, 55, 62, 67, 73, 78, 83, 88, 93, 98, 104, 110, 116, 122,
                128, 134, 141, 147, 153, 159, 165, 171, 177, 184, 190, 196, 202, 208, 214, 223,
                232, 241, 249, 258, 267, 276, 285, 293, 302, 311, 320, 329, 337, 346, 354, 363,
                371, 380, 388, 396, 405, 413, 422, 430, 438, 447, 455, 464, 472, 482, 491, 501,
                510, 520, 529, 539, 548, 558, 568, 577, 587, 596, 606, 615, 625, 635, 644, 654,
                663, 673, 682, 692, 702, 711, 721, 730, 740, 749, 759, 769, 778, 789, 799, 810,
                821, 831, 842, 853, 863, 874, 885, 895, 906, 917, 927, 938, 949, 959, 970, 981,
                991, 1002, 1013, 1023, 1034, 1045, 1055, 1066, 1076, 1087, 1098, 1108, 1119,
            ],
        ),
        node_with_empty_batch(
            vec![
                4, 9, 14, 19, 24, 29, 33, 38, 43, 47, 52, 56, 61, 65, 70, 74, 78, 83, 87, 91,
                95, 99, 104, 108, 112, 116, 120, 124, 128, 132, 135, 139, 143, 147, 151, 154,
                158, 162, 165, 169, 173, 176, 180, 183, 187, 191, 194, 198, 201, 205, 208, 211,
                215, 218, 222, 225, 228, 232, 235, 238, 242, 245, 248, 252, 255, 258, 261, 265,
                268, 271, 274, 278, 281, 284, 287, 291, 294, 297, 300, 304, 307,
            ],
        ),
        node_with_empty_batch(
            vec![
                10, 15, 21, 27, 32, 38, 44, 50, 55, 61, 67, 72, 78, 84, 89, 95, 101, 106, 112,
                117, 123, 128, 134, 139, 145, 150, 156, 161, 167, 172, 178, 183, 190, 196, 202,
                209, 215, 221, 227, 234, 240, 246, 253, 259, 265, 271, 278, 284, 291, 297, 304,
                311, 317, 324, 331, 337, 344, 351, 357, 364, 371, 377, 384, 390, 397, 403, 409,
                416, 422, 428, 435, 441, 447, 454, 460, 466, 473, 479, 485, 492, 498, 504, 511,
                517, 523, 530, 536, 542, 548, 555, 561, 567, 574, 580, 586, 593, 599, 606, 613,
                619, 626, 633, 640, 646, 653, 660, 666, 673, 680, 686, 693, 700, 706, 713, 720,
                726, 733, 740, 747, 753, 760, 767, 773, 780, 787, 793, 800, 807,
            ],
        ),
    ];
    let special_costs: Vec<i64> = vec![3, 5, 8, 11, 14, 17, 29, 73];
    let g = Graph { paths, nodes, special_costs };
    proof {
        assert forall|t: int| 0 <= t < N_PACKET_TYPE implies #[trigger] g.paths@[t].path@ == fixed_path(t) by {
            assert(g.paths@[t].path@ =~= fixed_path(t));
        }
        assert forall|v: int| 0 <= v < N_NODE implies #[trigger] g.nodes@[v].costs@ == seq![0i64] + fixed_node_costs(v) by {
            assert(g.nodes@[v].costs@ =~= seq![0i64] + fixed_node_costs(v));
        }
    }
    g
}

/// Earliest arrival time of a generated packet.
pub const ARRIVE_START: i64 = 1_000_000;

/// Longest arrival window of a generated problem: its last possible arrival
/// still fits the generator's 32-bit range.
pub const MAX_ARRIVE_TERM: i64 = 4_000_000_000;

/// The size of a generated problem.
#[derive(Debug, Clone, Copy)]
pub struct ProblemParams {
    pub n: usize,
    pub n_cores: usize,
    pub arrive_term: i64,
}

impl ProblemParams {
    pub open spec fn wf(&self) -> bool {
        &&& self.n <= MAX_PACKETS
        &&& 1 <= self.n_cores <= MAX_CORES
        &&& 0 <= self.arrive_term <= MAX_ARRIVE_TERM
    }
}

/// The generator's state after `k` draws from state `s`.
pub open spec fn nth_state(s: u32, k: nat) -> u32
    decreases k,
{
    if k == 0 {
        s
    } else {
        xorshift(nth_state(s, (k - 1) as nat))
    }
}

proof fn lemma_nth_state_step(s: u32, k: nat)
    ensures
        nth_state(s, k + 1) == xorshift(nth_state(s, k)),
        nth_state(s, 0) == s,
{
}

/// Packet `i` of a problem generated from state `s0`: its arrival, type and
/// timeout are the three draws after the switch cost and the packets before it.
pub open spec fn mock_packet(s0: u32, i: nat, arrive_term: int) -> Packet {
    let arrive = ARRIVE_START + scale((arrive_term + 1) as nat, nth_state(s0, 2 + 3 * i));
    let packet_type = scale(N_PACKET_TYPE as nat, nth_state(s0, 3 + 3 * i));
    let timeout = 1 + scale(99_999, nth_state(s0, 4 + 3 * i));
    Packet {
        i: i as usize,
        arrive: arrive as i64,
        packet_type: packet_type as usize,
        timeout: timeout as i64,
        time_limit: (arrive + timeout) as i64,
        received_t: -1i64,
    }
}

/// Special work `j` of packet `i` of a problem of `n` packets generated from `s0`:
/// needed when the draw falls in the lower half.
pub open spec fn mock_work(s0: u32, n: nat, i: nat, j: nat) -> bool {
    scale(2, nth_state(s0, 2 + 3 * n + 8 * i + j)) == 0
}

/// The generator's state after generating a problem of `n` packets from `s0`.
pub open spec fn mock_end_state(s0: u32, n: nat) -> u32 {
    nth_state(s0, 1 + 11 * n)
}

/// `(n, input, packets, works)` is the problem generated from state `s0` with `p`.
pub open spec fn is_generated(
    s0: u32,
    p: ProblemParams,
    n: usize,
    input: Input,
    packets: Seq<Packet>,
    works: Seq<[bool; N_SPECIAL]>,
) -> bool {
    &&& n == p.n
    &&& input.cost_r == 20
    &&& input.n_cores == p.n_cores
    &&& input.cost_switch == 1 + scale(20, nth_state(s0, 1))
    &&& packets.len() == n
    &&& works.len() == n
    &&& forall|i: int| 0 <= i < n ==> #[trigger] packets[i] == mock_packet(s0, i as nat, p.arrive_term as int)
    &&& forall|i: int, j: int| 0 <= i < n && 0 <= j < N_SPECIAL ==>
        #[trigger] works[i]@[j] == mock_work(s0, n as nat, i as nat, j as nat)
}

/// A problem drawn from `rnd`: `p.n` packets arriving in the window of
/// `p.arrive_term` after `ARRIVE_START`, and the special works of each packet.
pub fn generate_mock_problem(rnd: &mut Rnd, p: &ProblemParams) -> (r: (usize, Input, Vec<Packet>, Vec<[bool; N_SPECIAL]>))
    requires
        p.wf(),
    ensures
        is_generated(old(rnd).state, *p, r.0, r.1, r.2@, r.3@),
        final(rnd).state == mock_end_state(old(rnd).state, p.n as nat),
        r.1.wf(),
        forall|i: int| 0 <= i < r.0 ==> (#[trigger] r.2@[i]).wf(r.0 as nat),
{
    let ghost s0 = rnd.state;
    let n = p.n;
    let cost_switch = rnd.gen_range(1, 21) as i64;
    proof {
        lemma_nth_state_step(s0, 0);
    }
    let input = Input { cost_r: 20, n_cores: p.n_cores, cost_switch };
    let mut packets: Vec<Packet> = Vec::with_capacity(n);
    let term = p.arrive_term as usize;
    let mut i: usize = 0;
    while i < n
        invariant
            n == p.n,
            p.wf(),
            term == p.arrive_term,
            i <= n,
            packets@.len() == i,
            rnd.state == nth_state(s0, (1 + 3 * i) as nat),
            forall|k: int| 0 <= k < i ==> #[trigger] packets@[k] == mock_packet(s0, k as nat, p.arrive_term as int),
            forall|k: int| 0 <= k < i ==> (#[trigger] packets@[k]).wf(n as nat),
            1 <= input.cost_switch <= 20,
        decreases n - i,
    {
        proof {
            lemma_nth_state_step(s0, (1 + 3 * i) as nat);
            lemma_nth_state_step(s0, (2 + 3 * i) as nat);
            lemma_nth_state_step(s0, (3 + 3 * i) as nat);
        }
        let arrive = rnd.gen_range(1_000_000, 1_000_000 + term + 1) as i64;
        let packet_type = rnd.gen_range(0, N_PACKET_TYPE);
        let timeout = rnd.gen_range(1, 100_000) as i64;
        packets.push(Packet { i, arrive, packet_type, timeout, time_limit: arrive + timeout, received_t: -1 });
        i = i + 1;
    }
    let mut works: Vec<[bool; N_SPECIAL]> = Vec::with_capacity(n);
    let mut i: usize = 0;
    while i < n
        invariant
            n == p.n,
            p.wf(),
            i <= n,
            works@.len() == i,
            rnd.state == nth_state(s0, (1 + 3 * n + 8 * i) as nat),
            forall|k: int, j: int| 0 <= k < i && 0 <= j < N_SPECIAL ==>
                #[trigger] works@[k]@[j] == mock_work(s0, n as nat, k as nat, j as nat),
        decreases n - i,
    {
        let mut bits: [bool; N_SPECIAL] = [false; 8];
        let mut j: usize = 0;
        while j < N_SPECIAL
            invariant
                n == p.n,
                p.wf(),
                i < n,
                j <= N_SPECIAL,
                rnd.state == nth_state(s0, (1 + 3 * n + 8 * i + j) as nat),
                forall|jj: int| 0 <= jj < j ==> #[trigger] bits@[jj] == mock_work(s0, n as nat, i as nat, jj as nat),
            decreases N_SPECIAL - j,
        {
            proof {
                lemma_nth_state_step(s0, (1 + 3 * n + 8 * i + j) as nat);
            }
            let x = rnd.gen_index(2);
            bits[j] = x == 0;
            j = j + 1;
        }
        works.push(bits);
        i = i + 1;
    }
    (n, input, packets, works)
}

/// The generator's starting state for a seed.
pub open spec fn seed_state(seed: u32) -> u32 {
    if seed == 0 {
        u32::MAX
    } else {
        seed
    }
}

proof fn lemma_same_graph_fits(a: Graph, b: Graph)
    requires
        same_graph(a, b),
    ensures
        graph_fits(a) ==> graph_fits(b),
        fallback_fits(a) ==> fallback_fits(b),
{
    if graph_fits(a) {
        assert forall|t: int| 0 <= t < N_PACKET_TYPE implies path_wf(#[trigger] b.paths@[t]) by {
            assert(path_wf(a.paths@[t]));
        }
        assert forall|v: int| 0 <= v < N_NODE implies node_wf(#[trigger] b.nodes@[v]) by {
            assert(node_wf(a.nodes@[v]));
        }
        assert(b.max_batch(SPECIAL_NODE_ID as int) == a.max_batch(SPECIAL_NODE_ID as int));
    }
    if fallback_fits(a) {
        assert forall|t: int| 0 <= t < N_PACKET_TYPE implies path_wf(#[trigger] b.paths@[t]) by {
            assert(path_wf(a.paths@[t]));
        }
        assert forall|v: int| 0 <= v < N_NODE implies node_wf(#[trigger] b.nodes@[v]) by {
            assert(node_wf(a.nodes@[v]));
        }
        assert forall|t: int, k: int|
            0 <= t < N_PACKET_TYPE && 0 <= k < b.path_len(t) implies #[trigger] b.max_batch(
            b.node_at(t, k) as int) >= crate::fallback::fallback_batch(t) by {
            assert(a.path_len(t) == b.path_len(t));
            assert(a.node_at(t, k) == b.node_at(t, k));
            assert(a.max_batch(a.node_at(t, k) as int) >= crate::fallback::fallback_batch(t));
        }
    }
}

/// The packets of `ps` that arrived in `(lo, t]`, in order, each marked received at `t`.
pub open spec fn arrived(ps: Seq<Packet>, lo: int, t: i64) -> Seq<Packet>
    decreases ps.len(),
{
    if ps.len() == 0 {
        seq![]
    } else {
        let rest = arrived(ps.drop_last(), lo, t);
        let p = ps.last();
        if lo < p.arrive && p.arrive <= t {
            rest.push(
                Packet {
                    i: p.i,
                    arrive: p.arrive,
                    packet_type: p.packet_type,
                    timeout: p.timeout,
                    time_limit: p.time_limit,
                    received_t: t,
                },
            )
        } else {
            rest
        }
    }
}

/// An interactor that plays the judge on generated problems: it hands out the
/// packets as they arrive, answers queries for special works once per packet,
/// and moves to a freshly generated problem when a subtask finishes.
pub struct MockInteractor {
    pub n: usize,
    pub graph: Graph,
    pub input: Input,
    pub packets: Vec<Packet>,
    pub packet_works: Vec<[bool; N_SPECIAL]>,
    pub last_core0_t: Option<i64>,
    pub last_t: i64,
    pub queried_works: Vec<bool>,
    pub rnd: Rnd,
    pub p: ProblemParams,
}

impl MockInteractor {
    pub open spec fn wf(&self) -> bool {
        &&& self.p.wf()
        &&& graph_fits(self.graph)
        &&& fallback_fits(self.graph)
        &&& self.input.wf()
        &&& self.n == self.p.n
        &&& self.packets@.len() == self.n
        &&& self.packet_works@.len() == self.n
        &&& self.queried_works@.len() == self.n
        &&& forall|i: int| 0 <= i < self.n ==> (#[trigger] self.packets@[i]).wf(self.n as nat)
        &&& forall|i: int| 0 <= i < self.n ==> (#[trigger] self.packets@[i]).i == i
    }

    /// Whether the interactor is in the shape its methods rely on (`wf`).
    pub fn is_wf(&self) -> (r: bool)
        ensures
            r == self.wf(),
    {
        self.p.n <= MAX_PACKETS && 1 <= self.p.n_cores && self.p.n_cores <= MAX_CORES && 0 <= self.p.arrive_term
            && self.p.arrive_term <= MAX_ARRIVE_TERM && fits_greedy(&self.graph) && fits_fallback(&self.graph)
            && input_is_valid(&self.input) && self.n == self.p.n && self.packets.len() == self.n
            && self.packet_works.len() == self.n && self.queried_works.len() == self.n && packets_ok(
            &self.packets,
            self.n,
        ) && ids_are_indices(&self.packets)
    }

    /// Packets arriving after this time have not been handed out yet.
    pub open spec fn received_until(&self) -> int {
        match self.last_core0_t {
            Some(x) => x as int,
            None => -self.input.cost_r,
        }
    }

    /// The earliest time at which core 0 may receive again.
    pub open spec fn receive_ready_at(&self) -> int {
        self.received_until() + self.input.cost_r
    }

    /// The interactor of the problems drawn from `seed` with `p`, on the fixed graph.
    pub fn new(seed: u32, p: ProblemParams) -> (m: Self)
        requires
            p.wf(),
        ensures
            m.wf(),
            m.p == p,
            is_generated(seed_state(seed), p, m.n, m.input, m.packets@, m.packet_works@),
            m.rnd.state == mock_end_state(seed_state(seed), p.n as nat),
            forall|t: int| 0 <= t < N_PACKET_TYPE ==> #[trigger] m.graph.paths@[t].path@ == fixed_path(t),
            forall|v: int| 0 <= v < N_NODE ==> #[trigger] m.graph.max_batch(v) == fixed_max_batch()[v],
            m.graph.special_costs@ == seq![3i64, 5, 8, 11, 14, 17, 29, 73],
            m.last_core0_t is None,
            m.last_t == 0,
            forall|i: int| 0 <= i < m.n ==> !(#[trigger] m.queried_works@[i]),
    {
        let mut rnd = Rnd::new(seed);
        let graph = fixed_graph();
        let (n, input, packets, packet_works) = generate_mock_problem(&mut rnd, &p);
        Self {
            n,
            graph,
            input,
            packets,
            packet_works,
            last_core0_t: None,
            last_t: 0,
            queried_works: vec_of_false(n),
            rnd,
            p,
        }
    }

    pub fn read_n(&self) -> (r: usize)
        ensures
            r == self.n,
    {
        self.n
    }

    pub fn read_graph(&self) -> (r: Graph)
        requires
            self.wf(),
        ensures
            same_graph(r, self.graph),
            graph_fits(r),
            fallback_fits(r),
    {
        let g = clone_graph(&self.graph);
        proof {
            lemma_same_graph_fits(self.graph, g);
        }
        g
    }

    pub fn read_input(&self) -> (r: Input)
        ensures
            r == self.input,
    {
        self.input
    }

    /// The packets that arrived since the previous receive, up to `t`, marked received at `t`.
    pub fn send_receive_packets(&mut self, t: i64) -> (r: (usize, Vec<Packet>))
        requires
            old(self).wf(),
            t >= old(self).last_t,
            t >= old(self).receive_ready_at(),
        ensures
            r.1@ == arrived(old(self).packets@, old(self).received_until(), t),
            r.0 == r.1@.len(),
            final(self).last_t == t,
            final(self).last_core0_t == Some(t),
            final(self).wf(),
            final(self).n == old(self).n,
            final(self).graph == old(self).graph,
            final(self).input == old(self).input,
            final(self).packets == old(self).packets,
            final(self).packet_works == old(self).packet_works,
            final(self).queried_works == old(self).queried_works,
            final(self).rnd == old(self).rnd,
            final(self).p == old(self).p,
    {
        self.last_t = t;
        let lo: i64 = match self.last_core0_t {
            Some(x) => x,
            None => -self.input.cost_r,
        };
        let mut out: Vec<Packet> = Vec::new();
        let mut k: usize = 0;
        while k < self.packets.len()
            invariant
                k <= self.packets@.len(),
                lo == self.received_until(),
                out@ == arrived(self.packets@.take(k as int), lo as int, t),
            decreases self.packets@.len() - k,
        {
            let p = self.packets[k];
            proof {
                assert(self.packets@.take(k + 1).drop_last() == self.packets@.take(k as int));
            }
            if lo < p.arrive && p.arrive <= t {
                out.push(Packet { received_t: t, ..p });
            }
            k = k + 1;
        }
        proof {
            assert(self.packets@.take(self.packets@.len() as int) == self.packets@);
        }
        self.last_core0_t = Some(t);
        (out.len(), out)
    }

    pub fn send_execute(&mut self, t: i64, _core_id: usize, _node_id: usize, _s: usize, _ids: &[usize])
        requires
            t >= old(self).last_t,
        ensures
            final(self).last_t == t,
            final(self).n == old(self).n,
            final(self).graph == old(self).graph,
            final(self).input == old(self).input,
            final(self).packets == old(self).packets,
            final(self).packet_works == old(self).packet_works,
            final(self).queried_works == old(self).queried_works,
            final(self).last_core0_t == old(self).last_core0_t,
            final(self).rnd == old(self).rnd,
            final(self).p == old(self).p,
    {
        self.last_t = t;
    }

    /// The special works of packet `i`, the first time they are asked for; `None` after that.
    pub fn send_query_works(&mut self, t: i64, i: usize) -> (r: Option<[bool; N_SPECIAL]>)
        requires
            old(self).wf(),
            t >= old(self).last_t,
            i < old(self).n,
        ensures
            final(self).wf(),
            final(self).last_t == t,
            r == (if old(self).queried_works@[i as int] {
                None
            } else {
                Some(old(self).packet_works@[i as int])
            }),
            final(self).queried_works@ == old(self).queried_works@.update(i as int, true),
            final(self).n == old(self).n,
            final(self).graph == old(self).graph,
            final(self).input == old(self).input,
            final(self).packets == old(self).packets,
            final(self).packet_works == old(self).packet_works,
            final(self).last_core0_t == old(self).last_core0_t,
            final(self).rnd == old(self).rnd,
            final(self).p == old(self).p,
    {
        self.last_t = t;
        if self.queried_works[i] {
            return None;
        }
        self.queried_works.set(i, true);
        Some(self.packet_works[i])
    }

    /// Moves on to the next problem, drawn from the interactor's generator.
    pub fn send_finish(&mut self)
        requires
            old(self).wf(),
        ensures
            final(self).wf(),
            is_generated(old(self).rnd.state, old(self).p, final(self).n, final(self).input, final(self).packets@, final(self).packet_works@),
            final(self).rnd.state == mock_end_state(old(self).rnd.state, old(self).p.n as nat),
            final(self).graph == old(self).graph,
            final(self).p == old(self).p,
            final(self).last_core0_t is None,
            final(self).last_t == 0,
            forall|i: int| 0 <= i < final(self).n ==> !(#[trigger] final(self).queried_works@[i]),
    {
        let (n, input, packets, packet_works) = generate_mock_problem(&mut self.rnd, &self.p);
        self.n = n;
        self.input = input;
        self.packets = packets;
        self.packet_works = packet_works;
        self.last_core0_t = None;
        self.last_t = 0;
        self.queried_works = vec_of_false(n);
    }
}

/// Whether each packet of `v` has its index as its id.
fn ids_are_indices(v: &Vec<Packet>) -> (r: bool)
    ensures
        r == forall|i: int| 0 <= i < v@.len() ==> (#[trigger] v@[i]).i == i,
{
    let mut k: usize = 0;
    while k < v.len()
        invariant
            k <= v@.len(),
            forall|i: int| 0 <= i < k ==> (#[trigger] v@[i]).i == i,
        decreases v@.len() - k,
    {
        if v[k].i != k {
            return false;
        }
        k = k + 1;
    }
    true
}

fn vec_of_false(n: usize) -> (v: Vec<bool>)
    ensures
        v@.len() == n,
        forall|i: int| 0 <= i < n ==> !(#[trigger] v@[i]),
{
    let mut v: Vec<bool> = Vec::with_capacity(n);
    let mut i: usize = 0;
    while i < n
        invariant
            i <= n,
            v@.len() == i,
            forall|k: int| 0 <= k < i ==> !(#[trigger] v@[k]),
        decreases n - i,
    {
        v.push(false);
        i = i + 1;
    }
    v
}

} // verus!
