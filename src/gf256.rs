//! Arithmetic in GF(256) with the reducing polynomial 0x11d, and polynomials over it.
use vstd::prelude::*;

verus! {

/// Multiplication by the generator 2: a shift left, reduced by 0x11d on overflow.
pub open spec fn gf_double(y: u8) -> u8 {
    if y < 128 {
        (y << 1u8) as u8
    } else {
        ((y << 1u8) ^ 0x1du8) as u8
    }
}

/// The sum of the `y_i` over the bits `i` set in `x`.
pub open spec fn gf_combine(x: u8, y0: u8, y1: u8, y2: u8, y3: u8, y4: u8, y5: u8, y6: u8, y7: u8) -> u8 {
    (if x & 1 != 0 { y0 } else { 0 }) ^ (if x & 2 != 0 { y1 } else { 0 }) ^ (if x & 4 != 0 {
        y2
    } else {
        0
    }) ^ (if x & 8 != 0 { y3 } else { 0 }) ^ (if x & 16 != 0 { y4 } else { 0 }) ^ (if x & 32
        != 0 {
        y5
    } else {
        0
    }) ^ (if x & 64 != 0 { y6 } else { 0 }) ^ (if x & 128 != 0 { y7 } else { 0 })
}

/// Carry-less product of `x` and `y` reduced by 0x11d: the sum of `2^i * y` over the bits `i` set in `x`.
pub open spec fn gf_mul(x: u8, y: u8) -> u8 {
    let y1 = gf_double(y);
    let y2 = gf_double(y1);
    let y3 = gf_double(y2);
    let y4 = gf_double(y3);
    let y5 = gf_double(y4);
    let y6 = gf_double(y5);
    let y7 = gf_double(y6);
    gf_combine(x, y, y1, y2, y3, y4, y5, y6, y7)
}

/// One step of the Russian-peasant method: the low bit of `x`, then the rest times `2y`.
proof fn lemma_mul_step(x: u8, y: u8)
    ensures
        gf_mul(x, y) == (if x % 2 == 1 { y } else { 0 }) ^ gf_mul(x / 2, gf_double(y)),
{
    assert(gf_mul(x, y) == (if x % 2 == 1 { y } else { 0 }) ^ gf_mul(x / 2, gf_double(y)))
        by (bit_vector);
}

/// Zero is neutral for addition, and every element is its own negative.
pub proof fn lemma_xor_facts()
    ensures
        forall|v: u8| #[trigger] (v ^ 0u8) == v,
        forall|v: u8| #[trigger] (0u8 ^ v) == v,
        forall|v: u8| #[trigger] (v ^ v) == 0u8,
{
    assert(forall|v: u8| #[trigger] (v ^ 0u8) == v) by (bit_vector);
    assert(forall|v: u8| #[trigger] (0u8 ^ v) == v) by (bit_vector);
    assert(forall|v: u8| #[trigger] (v ^ v) == 0u8) by (bit_vector);
}

/// Zero absorbs on either side.
pub proof fn lemma_mul_zero(y: u8)
    ensures
        gf_mul(0, y) == 0,
        gf_mul(y, 0) == 0,
{
    assert(gf_mul(0, y) == 0 && gf_mul(y, 0) == 0) by (bit_vector);
}

proof fn lemma_xor_step(r: u8, rest: u8, y: u8, odd: bool)
    ensures
        (if odd { r ^ y } else { r }) ^ rest == r ^ ((if odd { y } else { 0 }) ^ rest),
{
    assert((r ^ y) ^ rest == r ^ (y ^ rest)) by (bit_vector);
    assert(r ^ rest == r ^ (0 ^ rest)) by (bit_vector);
}

/// Largest degree a polynomial can have, plus one.
pub const MAX_DEGREE: usize = 256;

/// Multiplicative inverses: entry `x` is the inverse of `x`, and entry 0 is 0.
pub const GF256_INVERSE: [u8; 256] = [
    0, 1, 142, 244, 71, 167, 122, 186, 173, 157, 221, 152, 61, 170, 93, 150,
    216, 114, 192, 88, 224, 62, 76, 102, 144, 222, 85, 128, 160, 131, 75, 42,
    108, 237, 57, 81, 96, 86, 44, 138, 112, 208, 31, 74, 38, 139, 51, 110,
    72, 137, 111, 46, 164, 195, 64, 94, 80, 34, 207, 169, 171, 12, 21, 225,
    54, 95, 248, 213, 146, 78, 166, 4, 48, 136, 43, 30, 22, 103, 69, 147,
    56, 35, 104, 140, 129, 26, 37, 97, 19, 193, 203, 99, 151, 14, 55, 65,
    36, 87, 202, 91, 185, 196, 23, 77, 82, 141, 239, 179, 32, 236, 47, 50,
    40, 209, 17, 217, 233, 251, 218, 121, 219, 119, 6, 187, 132, 205, 254, 252,
    27, 84, 161, 29, 124, 204, 228, 176, 73, 49, 39, 45, 83, 105, 2, 245,
    24, 223, 68, 79, 155, 188, 15, 92, 11, 220, 189, 148, 172, 9, 199, 162,
    28, 130, 159, 198, 52, 194, 70, 5, 206, 59, 13, 60, 156, 8, 190, 183,
    135, 229, 238, 107, 235, 242, 191, 175, 197, 100, 7, 123, 149, 154, 174, 182,
    18, 89, 165, 53, 101, 184, 163, 158, 210, 247, 98, 90, 133, 125, 168, 58,
    41, 113, 200, 246, 249, 67, 215, 214, 16, 115, 118, 120, 153, 10, 25, 145,
    20, 63, 230, 240, 134, 177, 226, 241, 250, 116, 243, 180, 109, 33, 178, 106,
    227, 231, 181, 234, 3, 143, 211, 201, 66, 212, 232, 117, 127, 255, 126, 253,
];

/// The inverse that the table gives for `x`.
pub open spec fn inv_of(x: u8) -> u8 {
    GF256_INVERSE[x as int]
}

/// The inverse table as a search on the value of `x`, a form the bit-vector solver reads.
pub open spec fn inv_lookup(x: u8) -> u8 {
    if x < 128 {
        if x < 64 {
            if x < 32 {
                if x < 16 {
                    if x < 8 {
                        if x < 4 {
                            if x < 2 { if x < 1 { 0 } else { 1 } } else { if x < 3 { 142 } else { 244 } }
                        } else {
                            if x < 6 { if x < 5 { 71 } else { 167 } } else { if x < 7 { 122 } else { 186 } }
                        }
                    } else {
                        if x < 12 {
                            if x < 10 { if x < 9 { 173 } else { 157 } } else { if x < 11 { 221 } else { 152 } }
                        } else {
                            if x < 14 { if x < 13 { 61 } else { 170 } } else { if x < 15 { 93 } else { 150 } }
                        }
                    }
                } else {
                    if x < 24 {
                        if x < 20 {
                            if x < 18 { if x < 17 { 216 } else { 114 } } else { if x < 19 { 192 } else { 88 } }
                        } else {
                            if x < 22 { if x < 21 { 224 } else { 62 } } else { if x < 23 { 76 } else { 102 } }
                        }
                    } else {
                        if x < 28 {
                            if x < 26 { if x < 25 { 144 } else { 222 } } else { if x < 27 { 85 } else { 128 } }
                        } else {
                            if x < 30 { if x < 29 { 160 } else { 131 } } else { if x < 31 { 75 } else { 42 } }
                        }
                    }
                }
            } else {
                if x < 48 {
                    if x < 40 {
                        if x < 36 {
                            if x < 34 { if x < 33 { 108 } else { 237 } } else { if x < 35 { 57 } else { 81 } }
                        } else {
                            if x < 38 { if x < 37 { 96 } else { 86 } } else { if x < 39 { 44 } else { 138 } }
                        }
                    } else {
                        if x < 44 {
                            if x < 42 { if x < 41 { 112 } else { 208 } } else { if x < 43 { 31 } else { 74 } }
                        } else {
                            if x < 46 { if x < 45 { 38 } else { 139 } } else { if x < 47 { 51 } else { 110 } }
                        }
                    }
                } else {
                    if x < 56 {
                        if x < 52 {
                            if x < 50 { if x < 49 { 72 } else { 137 } } else { if x < 51 { 111 } else { 46 } }
                        } else {
                            if x < 54 { if x < 53 { 164 } else { 195 } } else { if x < 55 { 64 } else { 94 } }
                        }
                    } else {
                        if x < 60 {
                            if x < 58 { if x < 57 { 80 } else { 34 } } else { if x < 59 { 207 } else { 169 } }
                        } else {
                            if x < 62 { if x < 61 { 171 } else { 12 } } else { if x < 63 { 21 } else { 225 } }
                        }
                    }
                }
            }
        } else {
            if x < 96 {
                if x < 80 {
                    if x < 72 {
                        if x < 68 {
                            if x < 66 { if x < 65 { 54 } else { 95 } } else { if x < 67 { 248 } else { 213 } }
                        } else {
                            if x < 70 { if x < 69 { 146 } else { 78 } } else { if x < 71 { 166 } else { 4 } }
                        }
                    } else {
                        if x < 76 {
                            if x < 74 { if x < 73 { 48 } else { 136 } } else { if x < 75 { 43 } else { 30 } }
                        } else {
                            if x < 78 { if x < 77 { 22 } else { 103 } } else { if x < 79 { 69 } else { 147 } }
                        }
                    }
                } else {
                    if x < 88 {
                        if x < 84 {
                            if x < 82 { if x < 81 { 56 } else { 35 } } else { if x < 83 { 104 } else { 140 } }
                        } else {
                            if x < 86 { if x < 85 { 129 } else { 26 } } else { if x < 87 { 37 } else { 97 } }
                        }
                    } else {
                        if x < 92 {
                            if x < 90 { if x < 89 { 19 } else { 193 } } else { if x < 91 { 203 } else { 99 } }
                        } else {
                            if x < 94 { if x < 93 { 151 } else { 14 } } else { if x < 95 { 55 } else { 65 } }
                        }
                    }
                }
            } else {
                if x < 112 {
                    if x < 104 {
                        if x < 100 {
                            if x < 98 { if x < 97 { 36 } else { 87 } } else { if x < 99 { 202 } else { 91 } }
                        } else {
                            if x < 102 { if x < 101 { 185 } else { 196 } } else { if x < 103 { 23 } else { 77 } }
                        }
                    } else {
                        if x < 108 {
                            if x < 106 { if x < 105 { 82 } else { 141 } } else { if x < 107 { 239 } else { 179 } }
                        } else {
                            if x < 110 { if x < 109 { 32 } else { 236 } } else { if x < 111 { 47 } else { 50 } }
                        }
                    }
                } else {
                    if x < 120 {
                        if x < 116 {
                            if x < 114 { if x < 113 { 40 } else { 209 } } else { if x < 115 { 17 } else { 217 } }
                        } else {
                            if x < 118 { if x < 117 { 233 } else { 251 } } else { if x < 119 { 218 } else { 121 } }
                        }
                    } else {
                        if x < 124 {
                            if x < 122 { if x < 121 { 219 } else { 119 } } else { if x < 123 { 6 } else { 187 } }
                        } else {
                            if x < 126 { if x < 125 { 132 } else { 205 } } else { if x < 127 { 254 } else { 252 } }
                        }
                    }
                }
            }
        }
    } else {
        if x < 192 {
            if x < 160 {
                if x < 144 {
                    if x < 136 {
                        if x < 132 {
                            if x < 130 { if x < 129 { 27 } else { 84 } } else { if x < 131 { 161 } else { 29 } }
                        } else {
                            if x < 134 { if x < 133 { 124 } else { 204 } } else { if x < 135 { 228 } else { 176 } }
                        }
                    } else {
                        if x < 140 {
                            if x < 138 { if x < 137 { 73 } else { 49 } } else { if x < 139 { 39 } else { 45 } }
                        } else {
                            if x < 142 { if x < 141 { 83 } else { 105 } } else { if x < 143 { 2 } else { 245 } }
                        }
                    }
                } else {
                    if x < 152 {
                        if x < 148 {
                            if x < 146 { if x < 145 { 24 } else { 223 } } else { if x < 147 { 68 } else { 79 } }
                        } else {
                            if x < 150 { if x < 149 { 155 } else { 188 } } else { if x < 151 { 15 } else { 92 } }
                        }
                    } else {
                        if x < 156 {
                            if x < 154 { if x < 153 { 11 } else { 220 } } else { if x < 155 { 189 } else { 148 } }
                        } else {
                            if x < 158 { if x < 157 { 172 } else { 9 } } else { if x < 159 { 199 } else { 162 } }
                        }
                    }
                }
            } else {
                if x < 176 {
                    if x < 168 {
                        if x < 164 {
                            if x < 162 { if x < 161 { 28 } else { 130 } } else { if x < 163 { 159 } else { 198 } }
                        } else {
                            if x < 166 { if x < 165 { 52 } else { 194 } } else { if x < 167 { 70 } else { 5 } }
                        }
                    } else {
                        if x < 172 {
                            if x < 170 { if x < 169 { 206 } else { 59 } } else { if x < 171 { 13 } else { 60 } }
                        } else {
                            if x < 174 { if x < 173 { 156 } else { 8 } } else { if x < 175 { 190 } else { 183 } }
                        }
                    }
                } else {
                    if x < 184 {
                        if x < 180 {
                            if x < 178 { if x < 177 { 135 } else { 229 } } else { if x < 179 { 238 } else { 107 } }
                        } else {
                            if x < 182 { if x < 181 { 235 } else { 242 } } else { if x < 183 { 191 } else { 175 } }
                        }
                    } else {
                        if x < 188 {
                            if x < 186 { if x < 185 { 197 } else { 100 } } else { if x < 187 { 7 } else { 123 } }
                        } else {
                            if x < 190 { if x < 189 { 149 } else { 154 } } else { if x < 191 { 174 } else { 182 } }
                        }
                    }
                }
            }
        } else {
            if x < 224 {
                if x < 208 {
                    if x < 200 {
                        if x < 196 {
                            if x < 194 { if x < 193 { 18 } else { 89 } } else { if x < 195 { 165 } else { 53 } }
                        } else {
                            if x < 198 { if x < 197 { 101 } else { 184 } } else { if x < 199 { 163 } else { 158 } }
                        }
                    } else {
                        if x < 204 {
                            if x < 202 { if x < 201 { 210 } else { 247 } } else { if x < 203 { 98 } else { 90 } }
                        } else {
                            if x < 206 { if x < 205 { 133 } else { 125 } } else { if x < 207 { 168 } else { 58 } }
                        }
                    }
                } else {
                    if x < 216 {
                        if x < 212 {
                            if x < 210 { if x < 209 { 41 } else { 113 } } else { if x < 211 { 200 } else { 246 } }
                        } else {
                            if x < 214 { if x < 213 { 249 } else { 67 } } else { if x < 215 { 215 } else { 214 } }
                        }
                    } else {
                        if x < 220 {
                            if x < 218 { if x < 217 { 16 } else { 115 } } else { if x < 219 { 118 } else { 120 } }
                        } else {
                            if x < 222 { if x < 221 { 153 } else { 10 } } else { if x < 223 { 25 } else { 145 } }
                        }
                    }
                }
            } else {
                if x < 240 {
                    if x < 232 {
                        if x < 228 {
                            if x < 226 { if x < 225 { 20 } else { 63 } } else { if x < 227 { 230 } else { 240 } }
                        } else {
                            if x < 230 { if x < 229 { 134 } else { 177 } } else { if x < 231 { 226 } else { 241 } }
                        }
                    } else {
                        if x < 236 {
                            if x < 234 { if x < 233 { 250 } else { 116 } } else { if x < 235 { 243 } else { 180 } }
                        } else {
                            if x < 238 { if x < 237 { 109 } else { 33 } } else { if x < 239 { 178 } else { 106 } }
                        }
                    }
                } else {
                    if x < 248 {
                        if x < 244 {
                            if x < 242 { if x < 241 { 227 } else { 231 } } else { if x < 243 { 181 } else { 234 } }
                        } else {
                            if x < 246 { if x < 245 { 3 } else { 143 } } else { if x < 247 { 211 } else { 201 } }
                        }
                    } else {
                        if x < 252 {
                            if x < 250 { if x < 249 { 66 } else { 212 } } else { if x < 251 { 232 } else { 117 } }
                        } else {
                            if x < 254 { if x < 253 { 127 } else { 255 } } else { if x < 255 { 126 } else { 253 } }
                        }
                    }
                }
            }
        }
    }
}

proof fn lemma_table_is_lookup(x: u8)
    ensures
        inv_of(x) == inv_lookup(x),
{
}

/// Multiplying by a table entry undoes multiplying by its index, on each power of two.
#[verifier::rlimit(100)]
proof fn lemma_table_basis(l: u8, t: u8)
    requires
        l != 0,
        t == inv_lookup(l),
    ensures
        gf_mul(l, gf_mul(1, t)) == 1,
        gf_mul(l, gf_mul(2, t)) == 2,
        gf_mul(l, gf_mul(4, t)) == 4,
        gf_mul(l, gf_mul(8, t)) == 8,
        gf_mul(l, gf_mul(16, t)) == 16,
        gf_mul(l, gf_mul(32, t)) == 32,
        gf_mul(l, gf_mul(64, t)) == 64,
        gf_mul(l, gf_mul(128, t)) == 128,
{
    let z0 = gf_mul(1, t);
    let z1 = gf_mul(2, t);
    let z2 = gf_mul(4, t);
    let z3 = gf_mul(8, t);
    let z4 = gf_mul(16, t);
    let z5 = gf_mul(32, t);
    let z6 = gf_mul(64, t);
    let z7 = gf_mul(128, t);
    assert(gf_mul(l, z0) == 1 && gf_mul(l, z1) == 2 && gf_mul(l, z2) == 4 && gf_mul(l, z3) == 8 && gf_mul(l, z4) == 16 && gf_mul(l, z5) == 32 && gf_mul(l, z6) == 64 && gf_mul(l, z7) == 128) by (bit_vector)
        requires
            l != 0,
            t == inv_lookup(l),
            z0 == gf_mul(1, t),
            z1 == gf_mul(2, t),
            z2 == gf_mul(4, t),
            z3 == gf_mul(8, t),
            z4 == gf_mul(16, t),
            z5 == gf_mul(32, t),
            z6 == gf_mul(64, t),
            z7 == gf_mul(128, t),
    ;
}


proof fn lemma_double_distributes(a: u8, b: u8)
    ensures
        gf_double(a ^ b) == gf_double(a) ^ gf_double(b),
{
    assert(gf_double(a ^ b) == gf_double(a) ^ gf_double(b)) by (bit_vector);
}

/// Multiplication distributes over addition on the right.
pub proof fn lemma_mul_distributes(x: u8, a: u8, b: u8)
    ensures
        gf_mul(x, a ^ b) == gf_mul(x, a) ^ gf_mul(x, b),
{
    let a1 = gf_double(a);
    let a2 = gf_double(a1);
    let a3 = gf_double(a2);
    let a4 = gf_double(a3);
    let a5 = gf_double(a4);
    let a6 = gf_double(a5);
    let a7 = gf_double(a6);
    let b1 = gf_double(b);
    let b2 = gf_double(b1);
    let b3 = gf_double(b2);
    let b4 = gf_double(b3);
    let b5 = gf_double(b4);
    let b6 = gf_double(b5);
    let b7 = gf_double(b6);
    lemma_double_distributes(a, b);
    lemma_double_distributes(a1, b1);
    lemma_double_distributes(a2, b2);
    lemma_double_distributes(a3, b3);
    lemma_double_distributes(a4, b4);
    lemma_double_distributes(a5, b5);
    lemma_double_distributes(a6, b6);
    assert(gf_combine(x, a ^ b, a1 ^ b1, a2 ^ b2, a3 ^ b3, a4 ^ b4, a5 ^ b5, a6 ^ b6, a7 ^ b7)
        == gf_combine(x, a, a1, a2, a3, a4, a5, a6, a7) ^ gf_combine(
        x,
        b,
        b1,
        b2,
        b3,
        b4,
        b5,
        b6,
        b7,
    )) by (bit_vector);
}

/// `v` where bit `k` of `c` is set, else zero.
spec fn pick(c: u8, k: u8, v: u8) -> u8 {
    if c & k != 0 {
        v
    } else {
        0
    }
}

/// A product split over the bits of its left factor.
proof fn lemma_mul_by_bits(c: u8, t: u8)
    ensures
        gf_mul(c, t) == pick(c, 1, gf_mul(1, t)) ^ pick(c, 2, gf_mul(2, t)) ^ pick(
            c,
            4,
            gf_mul(4, t),
        ) ^ pick(c, 8, gf_mul(8, t)) ^ pick(c, 16, gf_mul(16, t)) ^ pick(c, 32, gf_mul(32, t))
            ^ pick(c, 64, gf_mul(64, t)) ^ pick(c, 128, gf_mul(128, t)),
{
    let z0 = gf_mul(1, t);
    let z1 = gf_mul(2, t);
    let z2 = gf_mul(4, t);
    let z3 = gf_mul(8, t);
    let z4 = gf_mul(16, t);
    let z5 = gf_mul(32, t);
    let z6 = gf_mul(64, t);
    let z7 = gf_mul(128, t);
    assert(gf_mul(c, t) == pick(c, 1, z0) ^ pick(c, 2, z1) ^ pick(c, 4, z2) ^ pick(c, 8, z3)
        ^ pick(c, 16, z4) ^ pick(c, 32, z5) ^ pick(c, 64, z6) ^ pick(c, 128, z7)) by (bit_vector)
        requires
            z0 == gf_mul(1, t),
            z1 == gf_mul(2, t),
            z2 == gf_mul(4, t),
            z3 == gf_mul(8, t),
            z4 == gf_mul(16, t),
            z5 == gf_mul(32, t),
            z6 == gf_mul(64, t),
            z7 == gf_mul(128, t),
    ;
}

proof fn lemma_mul_pick(l: u8, c: u8, k: u8, z: u8)
    requires
        gf_mul(l, z) == k,
    ensures
        gf_mul(l, pick(c, k, z)) == pick(c, k, k),
{
    lemma_mul_zero(l);
}

/// For non-zero `l`, multiplying by `l` undoes multiplying by its table inverse.
pub proof fn lemma_mul_inverse_cancels(l: u8, c: u8)
    requires
        l != 0,
    ensures
        gf_mul(l, gf_mul(c, inv_of(l))) == c,
{
    let t = inv_of(l);
    lemma_table_is_lookup(l);
    lemma_table_basis(l, t);
    lemma_mul_by_bits(c, t);
    let p0 = pick(c, 1, gf_mul(1, t));
    let p1 = pick(c, 2, gf_mul(2, t));
    let p2 = pick(c, 4, gf_mul(4, t));
    let p3 = pick(c, 8, gf_mul(8, t));
    let p4 = pick(c, 16, gf_mul(16, t));
    let p5 = pick(c, 32, gf_mul(32, t));
    let p6 = pick(c, 64, gf_mul(64, t));
    let p7 = pick(c, 128, gf_mul(128, t));
    lemma_mul_pick(l, c, 1, gf_mul(1, t));
    lemma_mul_pick(l, c, 2, gf_mul(2, t));
    lemma_mul_pick(l, c, 4, gf_mul(4, t));
    lemma_mul_pick(l, c, 8, gf_mul(8, t));
    lemma_mul_pick(l, c, 16, gf_mul(16, t));
    lemma_mul_pick(l, c, 32, gf_mul(32, t));
    lemma_mul_pick(l, c, 64, gf_mul(64, t));
    lemma_mul_pick(l, c, 128, gf_mul(128, t));
    lemma_mul_distributes(l, p0 ^ p1 ^ p2 ^ p3 ^ p4 ^ p5 ^ p6, p7);
    lemma_mul_distributes(l, p0 ^ p1 ^ p2 ^ p3 ^ p4 ^ p5, p6);
    lemma_mul_distributes(l, p0 ^ p1 ^ p2 ^ p3 ^ p4, p5);
    lemma_mul_distributes(l, p0 ^ p1 ^ p2 ^ p3, p4);
    lemma_mul_distributes(l, p0 ^ p1 ^ p2, p3);
    lemma_mul_distributes(l, p0 ^ p1, p2);
    lemma_mul_distributes(l, p0, p1);
    assert(pick(c, 1, 1) ^ pick(c, 2, 2) ^ pick(c, 4, 4) ^ pick(c, 8, 8) ^ pick(c, 16, 16)
        ^ pick(c, 32, 32) ^ pick(c, 64, 64) ^ pick(c, 128, 128) == c) by (bit_vector);
}

/// Every non-zero element times its table inverse is one.
pub proof fn lemma_inverse_correct(a: u8)
    requires
        a != 0,
    ensures
        gf_mul(a, inv_of(a)) == 1,
{
    lemma_mul_inverse_cancels(a, 1);
    let t = inv_of(a);
    assert(gf_mul(1, t) == t) by (bit_vector);
}

/// Field addition: exclusive or.
pub fn gf256_add(x: u8, y: u8) -> (r: u8)
    ensures
        r == x ^ y,
{
    x ^ y
}

/// Field multiplication by the Russian-peasant method.
pub fn gf256_mult(x: u8, y: u8) -> (r: u8)
    ensures
        r == gf_mul(x, y),
{
    let mut a: u8 = x;
    let mut b: u8 = y;
    let mut result: u8 = 0;
    proof {
        lemma_xor_facts();
    }
    while a > 0
        invariant
            result ^ gf_mul(a, b) == gf_mul(x, y),
        decreases a,
    {
        let odd = a % 2 == 1;
        proof {
            lemma_mul_step(a, b);
            lemma_xor_step(result, gf_mul(a / 2, gf_double(b)), b, odd);
        }
        if odd {
            result = result ^ b;
        }
        a = a / 2;
        b = if b < 128 { b << 1u8 } else { (b << 1u8) ^ 0x1d };
    }
    proof {
        lemma_mul_zero(b);
        lemma_xor_facts();
    }
    result
}

/// The inverse of `x` from the table; zero for zero.
pub fn get_inverse(x: u8) -> (r: u8)
    ensures
        r == inv_of(x),
        x == 0 ==> r == 0,
        x != 0 ==> gf_mul(x, r) == 1,
{
    proof {
        if x != 0 {
            lemma_inverse_correct(x);
        }
    }
    GF256_INVERSE[x as usize]
}

/// Builds the inverse table by search: for each non-zero `x`, the `y` with `x·y == 1`.
pub fn compute_inv_table() -> (r: [u8; 256])
    ensures
        r[0] == 0,
        forall|x: int| 1 <= x < 256 ==> gf_mul(x as u8, #[trigger] r[x]) == 1,
{
    let mut inv = [0u8;256];
    let mut x: u8 = 1;
    loop
        invariant
            1 <= x,
            inv[0] == 0,
            forall|k: int| 1 <= k < x ==> gf_mul(k as u8, #[trigger] inv[k]) == 1,
        ensures
            inv[0] == 0,
            forall|k: int| 1 <= k < 256 ==> gf_mul(k as u8, #[trigger] inv[k]) == 1,
        decreases 256 - x,
    {
        let mut y: u8 = 1;
        proof {
            lemma_inverse_correct(x);
            lemma_mul_zero(x);
        }
        loop
            invariant
                1 <= y,
                x != 0,
                gf_mul(x, inv_of(x)) == 1,
                gf_mul(x, 0) == 0,
                forall|z: u8| 1 <= z < y ==> gf_mul(x, z) != 1,
                inv[0] == 0,
                forall|k: int| 1 <= k < x ==> gf_mul(k as u8, #[trigger] inv[k]) == 1,
            ensures
                inv[0] == 0,
                forall|k: int| 1 <= k <= x ==> gf_mul(k as u8, #[trigger] inv[k]) == 1,
            decreases 256 - y,
        {
            if gf256_mult(x, y) == 1 {
                inv[x as usize] = y;
                break;
            }
            if y == 255 {
                assert(gf_mul(x, inv_of(x)) != 1);
            }
            y += 1;
        }
        if x == 255 {
            break;
        }
        x += 1;
    }
    inv
}

/// Whether every non-zero `i` times `table[i]` is one.
pub fn check_inv_table(table: &[u8]) -> (r: bool)
    ensures
        r == (table@.len() == 256 && forall|i: int| 1 <= i < 256 ==> gf_mul(i as u8, #[trigger] table@[i]) == 1),
{
    if table.len() != 256 {
        return false;
    }
    let mut i: usize = 1;
    while i < 256
        invariant
            table@.len() == 256,
            1 <= i <= 256,
            forall|k: int| 1 <= k < i ==> gf_mul(k as u8, #[trigger] table@[k]) == 1,
        decreases 256 - i,
    {
        if gf256_mult(i as u8, table[i]) != 1 {
            return false;
        }
        i += 1;
    }
    true
}

/// A term of a polynomial: its degree, then its coefficient.
#[derive(Clone, Copy, PartialEq, Eq, Structural, Debug)]
pub struct Term(pub u8, pub u8);

impl Term {
    /// The quotient of two terms; zero where the divisor has the larger degree.
    pub fn div(&self, divisor: Term) -> (r: Term)
        ensures
            divisor.0 > self.0 ==> r == Term(0, 0),
            divisor.0 <= self.0 ==> r == Term(
                (self.0 - divisor.0) as u8,
                gf_mul(self.1, inv_of(divisor.1)),
            ),
    {
        if divisor.degree() > self.degree() {
            return Term::zero();
        }
        let degree = self.degree() - divisor.degree();
        let inv = get_inverse(divisor.coef());
        let coeff = gf256_mult(self.coef(), inv);
        Term(degree, coeff)
    }

    pub fn degree(&self) -> (r: u8)
        ensures
            r == self.0,
    {
        self.0
    }

    pub fn coef(&self) -> (r: u8)
        ensures
            r == self.1,
    {
        self.1
    }

    pub fn zero() -> (r: Term)
        ensures
            r == Term(0, 0),
    {
        Term(0, 0)
    }
}

/// The highest index at or below `d` that holds a non-zero coefficient, or 0.
pub open spec fn top_nonzero(s: Seq<u8>, d: int) -> int
    decreases d,
{
    if d <= 0 {
        0
    } else if s[d] != 0 {
        d
    } else {
        top_nonzero(s, d - 1)
    }
}

/// The degree of a coefficient array: the index of its highest non-zero entry, or 0.
pub open spec fn degree_of(s: Seq<u8>) -> int {
    top_nonzero(s, 255)
}

/// Coefficient-wise sum of two coefficient arrays.
pub open spec fn seq_xor(a: Seq<u8>, b: Seq<u8>) -> Seq<u8> {
    Seq::new(256, |i: int| a[i] ^ b[i])
}

/// The coefficients of a polynomial multiplied by a term: shifted up by its degree and each
/// multiplied by its coefficient.
pub open spec fn shift_scale(s: Seq<u8>, t: Term) -> Seq<u8> {
    Seq::new(256, |i: int| if i >= t.0 { gf_mul(s[i - t.0], t.1) } else { 0 })
}

/// Every coefficient multiplied by `a`.
pub open spec fn scale(s: Seq<u8>, a: u8) -> Seq<u8> {
    Seq::new(256, |i: int| gf_mul(a, s[i]))
}

/// The zero coefficient array.
pub open spec fn zero_seq() -> Seq<u8> {
    Seq::new(256, |i: int| 0u8)
}

/// `s` with the multiples of `g` by each term of `qs` added in turn.
pub open spec fn reduce(s: Seq<u8>, g: Seq<u8>, qs: Seq<Term>) -> Seq<u8>
    decreases qs.len(),
{
    if qs.len() == 0 {
        s
    } else {
        seq_xor(reduce(s, g, qs.drop_last()), shift_scale(g, qs.last()))
    }
}

/// The quotient term that cancels the coefficient of degree `d` of `s` against the leading
/// term of `g`, of degree `gd`.
pub open spec fn quotient_term(s: Seq<u8>, d: int, g: Seq<u8>, gd: int) -> Term {
    Term((d - gd) as u8, gf_mul(s[d], inv_of(g[gd])))
}

/// Long division: cancels the coefficients of `s` from degree `d` down to degree `gd`,
/// each against the leading term of `g`; what is left is the remainder.
pub open spec fn poly_rem(s: Seq<u8>, d: int, g: Seq<u8>, gd: int) -> Seq<u8>
    decreases d + 1,
{
    if d < gd || d < 0 {
        s
    } else {
        poly_rem(seq_xor(s, shift_scale(g, quotient_term(s, d, g, gd))), d - 1, g, gd)
    }
}

/// A polynomial over GF(256); `cof[i]` is the coefficient of degree `i`.
#[derive(Clone, Copy)]
pub struct Poly {
    pub degree: u8,
    pub cof: [u8; MAX_DEGREE],
}

impl Poly {
    /// No coefficient above the degree is non-zero.
    pub open spec fn wf(&self) -> bool {
        forall|i: int| self.degree < i < 256 ==> #[trigger] self.cof[i] == 0
    }

    /// Every coefficient is zero.
    pub open spec fn spec_is_zero(&self) -> bool {
        forall|i: int| 0 <= i < 256 ==> #[trigger] self.cof[i] == 0
    }

    /// The degree is that of the highest non-zero coefficient.
    pub open spec fn normalized(&self) -> bool {
        self.wf() && self.degree == degree_of(self.cof@)
    }

    /// The zero polynomial: degree 0 and every coefficient zero.
    pub fn zero() -> (r: Poly)
        ensures
            r.degree == 0,
            r.cof@ == zero_seq(),
    {
        let r = Poly { degree: 0, cof: [0u8;MAX_DEGREE] };
        assert(r.cof@ =~= zero_seq());
        r
    }

    /// The polynomial of the given degree whose coefficients, highest degree first, are
    /// `coefficients`.
    pub fn from(degree: u8, coefficients: &[u8]) -> (r: Poly)
        requires
            coefficients@.len() == degree + 1,
        ensures
            r.degree == degree,
            r.wf(),
            forall|i: int| 0 <= i <= degree ==> r.cof[i] == coefficients@[degree - i],
    {
        let mut cof = [0u8;MAX_DEGREE];
        let mut d: usize = 0;
        while d <= degree as usize
            invariant
                coefficients@.len() == degree + 1,
                d <= degree + 1,
                forall|i: int| 0 <= i < d ==> cof[i] == coefficients@[degree - i],
                forall|i: int| d <= i < 256 ==> cof[i] == 0,
            decreases degree + 1 - d,
        {
            cof[d] = coefficients[degree as usize - d];
            d += 1;
        }
        Poly { degree, cof }
    }

    pub fn leading_term(&self) -> (r: Term)
        ensures
            r == Term(self.degree, self.cof[self.degree as int]),
    {
        Term(self.degree, self.cof[self.degree as usize])
    }

    pub fn leading_cof(&self) -> (r: u8)
        ensures
            r == self.cof[self.degree as int],
    {
        self.leading_term().coef()
    }

    /// Writes the coefficients into `result`, highest degree first, and returns the degree.
    pub fn coefficients(&self, result: &mut [u8]) -> (r: u8)
        requires
            old(result)@.len() > self.degree,
        ensures
            r == self.degree,
            final(result)@.len() == old(result)@.len(),
            forall|i: int| 0 <= i <= self.degree ==> final(result)@[self.degree - i] == self.cof[i],
            forall|j: int| self.degree < j < old(result)@.len() ==> final(result)@[j] == old(result)@[j],
    {
        let mut i: usize = 0;
        while i <= self.degree as usize
            invariant
                i <= self.degree + 1,
                result@.len() == old(result)@.len(),
                result@.len() > self.degree,
                forall|k: int| 0 <= k < i ==> result@[self.degree - k] == self.cof[k],
                forall|j: int| self.degree < j < old(result)@.len() ==> result@[j] == old(result)@[j],
            decreases self.degree + 1 - i,
        {
            result[self.degree as usize - i] = self.cof[i];
            i += 1;
        }
        self.degree
    }

    pub fn is_zero(&self) -> (r: bool)
        ensures
            r == self.spec_is_zero(),
    {
        let mut i: usize = 0;
        while i < MAX_DEGREE
            invariant
                i <= 256,
                forall|k: int| 0 <= k < i ==> self.cof[k] == 0,
            decreases 256 - i,
        {
            if self.cof[i] != 0 {
                return false;
            }
            i += 1;
        }
        true
    }

    /// Multiplies each coefficient up to the degree by `scalar`.
    pub fn mut_mult_scalar(&mut self, scalar: u8)
        ensures
            final(self).degree == old(self).degree,
            forall|i: int| 0 <= i <= old(self).degree ==> final(self).cof[i] == gf_mul(scalar, old(self).cof[i]),
            forall|i: int| old(self).degree < i < 256 ==> final(self).cof[i] == old(self).cof[i],
    {
        let size = self.degree as usize;
        let mut i: usize = 0;
        while i <= size
            invariant
                size == old(self).degree,
                self.degree == old(self).degree,
                i <= size + 1,
                forall|k: int| 0 <= k < i ==> self.cof[k] == gf_mul(scalar, old(self).cof[k]),
                forall|k: int| i <= k < 256 ==> self.cof[k] == old(self).cof[k],
            decreases size + 1 - i,
        {
            let result = gf256_mult(scalar, self.cof[i]);
            self.cof[i] = result;
            i += 1;
        }
    }

    /// The product with a term: zero for a zero coefficient, else every coefficient multiplied
    /// by the term's and shifted up by its degree.
    pub fn multiply(&self, term: Term) -> (r: Poly)
        requires
            self.wf(),
            term.1 == 0 || self.degree + term.0 <= 255,
        ensures
            r.wf(),
            r.cof@ == shift_scale(self.cof@, term),
            term.1 == 0 ==> r.degree == 0,
            term.1 != 0 ==> r.degree == self.degree + term.0,
    {
        if term.coef() == 0 {
            let r = Poly::zero();
            assert forall|i: int| 0 <= i < 256 implies r.cof@[i] == shift_scale(self.cof@, term)[i] by {
                if i >= term.0 {
                    lemma_mul_zero(self.cof[i - term.0]);
                }
            }
            assert(r.cof@ =~= shift_scale(self.cof@, term));
            return r;
        }
        let shift = term.degree() as usize;
        let mut cof = [0u8;MAX_DEGREE];
        let mut i: usize = 0;
        while i <= self.degree as usize
            invariant
                self.degree + shift <= 255,
                shift == term.0,
                i <= self.degree + 1,
                forall|k: int| 0 <= k < shift ==> cof[k] == 0,
                forall|k: int| shift <= k < shift + i ==> cof[k] == gf_mul(self.cof[k - shift], term.1),
                forall|k: int| shift + i <= k < 256 ==> cof[k] == 0,
            decreases self.degree + 1 - i,
        {
            cof[i + shift] = gf256_mult(self.cof[i], term.coef());
            i += 1;
        }
        let r = Poly { degree: self.degree + term.degree(), cof };
        proof {
            lemma_mul_zero(term.1);
        }
        assert(r.cof@ =~= shift_scale(self.cof@, term));
        r
    }

    /// Adds a term: its coefficient is added to the coefficient of its degree, and the degree
    /// comes down past any leading zeros.
    pub fn mut_add(&mut self, term: Term)
        requires
            old(self).wf(),
        ensures
            final(self).cof@ == old(self).cof@.update(term.0 as int, old(self).cof[term.0 as int] ^ term.1),
            final(self).normalized(),
    {
        let ghost target = old(self).cof@.update(term.0 as int, old(self).cof[term.0 as int] ^ term.1);
        if term.degree() > self.degree {
            assert(self.cof[term.0 as int] == 0);
            proof {
                lemma_xor_facts();
            }
            self.cof[term.degree() as usize] = term.coef();
            self.degree = term.degree();
        } else {
            let d = term.degree() as usize;
            self.cof[d] = gf256_add(self.cof[d], term.coef());
        }
        assert(self.cof@ =~= target);
        while self.degree > 0 && self.cof[self.degree as usize] == 0
            invariant
                self.cof@ == target,
                self.wf(),
            decreases self.degree,
        {
            self.degree = self.degree - 1;
        }
        proof {
            lemma_normalized_degree(self.cof@, self.degree as int);
        }
    }

    /// Adds another polynomial, term by term from its highest degree down.
    pub fn mut_add_poly(&mut self, other: &Poly)
        requires
            old(self).wf(),
            other.wf(),
        ensures
            final(self).cof@ == seq_xor(old(self).cof@, other.cof@),
            final(self).normalized(),
    {
        let mut it = other.terms();
        let ghost start = self.cof@;
        loop
            invariant
                start == old(self).cof@,
                it.poly_of() == *other,
                it.index() <= other.degree + 1,
                self.wf(),
                forall|j: int| 0 <= j < 256 ==> #[trigger] self.cof[j] == if it.index() <= j <= other.degree {
                    start[j] ^ other.cof[j]
                } else {
                    start[j]
                },
                it.index() <= other.degree ==> self.normalized(),
            ensures
                it.index() == 0,
                self.normalized(),
                forall|j: int| 0 <= j < 256 ==> #[trigger] self.cof[j] == if j <= other.degree {
                    start[j] ^ other.cof[j]
                } else {
                    start[j]
                },
            decreases it.index(),
        {
            match it.next() {
                Some(term) => self.mut_add(term),
                None => break,
            }
        }
        proof {
            assert forall|j: int| 0 <= j < 256 implies self.cof@[j] == seq_xor(start, other.cof@)[j] by {
                lemma_xor_facts();
            }
            assert(self.cof@ =~= seq_xor(start, other.cof@));
        }
    }

    /// The terms from the highest degree down to degree 0.
    pub fn terms(&self) -> (r: TermIter)
        ensures
            r.poly_of() == *self,
            r.index() == self.degree + 1,
    {
        TermIter::new(self)
    }

    /// The remainder of the division by `divisor`: multiples of `divisor` are added until the
    /// result is zero or of lower degree than the divisor.
    pub fn div_remainder(&self, divisor: &Poly) -> (r: Poly)
        requires
            self.wf(),
            divisor.wf(),
            divisor.cof[divisor.degree as int] != 0,
        ensures
            r.normalized(),
            r.degree < divisor.degree || (divisor.degree == 0 && r.spec_is_zero()),
            r.cof@ == poly_rem(self.cof@, self.degree as int, divisor.cof@, divisor.degree as int),
            exists|qs: Seq<Term>| r.cof@ == reduce(self.cof@, divisor.cof@, qs),
    {
        let ghost g = divisor.cof@;
        let ghost gd = divisor.degree as int;
        let mut result = *self;
        let divisor_term = divisor.leading_term();
        let ghost mut qs: Seq<Term> = Seq::empty();
        while !result.is_zero() && result.degree >= divisor.degree
            invariant
                result.wf(),
                divisor.wf(),
                divisor_term == Term(divisor.degree, divisor.cof[gd]),
                divisor.cof[gd] != 0,
                g == divisor.cof@,
                gd == divisor.degree,
                poly_rem(result.cof@, result.degree as int, g, gd) == poly_rem(self.cof@, self.degree as int, g, gd),
                result.cof@ == reduce(self.cof@, g, qs),
            decreases result.degree as int + if result.spec_is_zero() { 0int } else { 1int },
        {
            let leading_term = result.leading_term();
            let d = leading_term.div(divisor_term);
            let poly = divisor.multiply(d);
            let ghost before = result.cof@;
            let ghost deg = result.degree as int;
            result.mut_add_poly(&poly);
            proof {
                assert(d == quotient_term(before, deg, g, gd));
                lemma_cancel_step(before, deg, g, gd);
                assert(result.cof@ =~= seq_xor(before, shift_scale(g, d)));
                assert(poly_rem(before, deg, g, gd) == poly_rem(result.cof@, deg - 1, g, gd));
                assert(forall|i: int| deg <= i < 256 ==> result.cof@[i] == 0);
                if deg > 0 {
                    lemma_top_skip(result.cof@, deg - 1, 255);
                    lemma_top_bound(result.cof@, deg - 1);
                    lemma_rem_skip(result.cof@, result.degree as int, deg - 1, g, gd);
                    assert(result.degree <= deg - 1);
                } else {
                    assert forall|i: int| 0 <= i < 256 implies result.cof[i] == 0 by {}
                    lemma_top_skip(result.cof@, 0, 255);
                    lemma_rem_skip(result.cof@, -1, 0, g, gd);
                }
                assert(reduce(self.cof@, g, qs.push(d)) == seq_xor(reduce(self.cof@, g, qs), shift_scale(g, d))) by {
                    assert(qs.push(d).drop_last() =~= qs);
                }
                qs = qs.push(d);
            }
        }
        proof {
            if result.spec_is_zero() {
                lemma_rem_skip(result.cof@, -1, result.degree as int, g, gd);
            }
        }
        let ghost was_zero = result.spec_is_zero();
        result.normalize();
        proof {
            if was_zero {
                lemma_top_skip(result.cof@, 0, 255);
            }
        }
        result
    }

    /// Lowers the degree past leading zero coefficients.
    fn normalize(&mut self)
        requires
            old(self).wf(),
        ensures
            final(self).cof@ == old(self).cof@,
            final(self).normalized(),
            final(self).degree <= old(self).degree,
    {
        while self.degree > 0 && self.cof[self.degree as usize] == 0
            invariant
                self.cof@ == old(self).cof@,
                self.wf(),
                self.degree <= old(self).degree,
            decreases self.degree,
        {
            self.degree = self.degree - 1;
        }
        proof {
            lemma_normalized_degree(self.cof@, self.degree as int);
        }
    }
}

/// The terms of a polynomial, from its degree down to degree 0.
pub struct TermIter<'a> {
    poly: &'a Poly,
    term_idx: u16,
}

impl<'a> TermIter<'a> {
    /// The polynomial walked.
    pub closed spec fn poly_of(&self) -> Poly {
        *self.poly
    }

    /// One more than the degree of the next term; zero when the walk is over.
    pub closed spec fn index(&self) -> nat {
        self.term_idx as nat
    }

    pub fn new(poly: &'a Poly) -> (r: TermIter<'a>)
        ensures
            r.poly_of() == *poly,
            r.index() == poly.degree + 1,
    {
        TermIter { poly, term_idx: poly.degree as u16 + 1 }
    }

    /// The next term, or `None` after the term of degree 0.
    pub fn next(&mut self) -> (r: Option<Term>)
        requires
            old(self).index() <= 256,
        ensures
            final(self).poly_of() == old(self).poly_of(),
            old(self).index() == 0 ==> r is None && final(self).index() == 0,
            old(self).index() > 0 ==> r == Some(
                Term(
                    (old(self).index() - 1) as u8,
                    old(self).poly_of().cof[old(self).index() - 1],
                ),
            ) && final(self).index() == old(self).index() - 1,
    {
        if self.term_idx == 0 {
            return None;
        }
        let index = (self.term_idx - 1) as usize;
        let coeff = self.poly.cof[index];
        self.term_idx -= 1;
        Some(Term(index as u8, coeff))
    }
}

/// Skipping zero coefficients: the highest non-zero index at or below `b` is that at or below
/// `a` when nothing in between is non-zero.
proof fn lemma_top_skip(s: Seq<u8>, a: int, b: int)
    requires
        0 <= a <= b,
        forall|i: int| a < i <= b ==> s[i] == 0,
    ensures
        top_nonzero(s, b) == top_nonzero(s, a),
    decreases b - a,
{
    if b > a {
        lemma_top_skip(s, a, b - 1);
    }
}

/// The highest non-zero index at or below `d` is at most `d`, and nothing above it up to `d` is
/// non-zero.
proof fn lemma_top_bound(s: Seq<u8>, d: int)
    requires
        0 <= d,
    ensures
        0 <= top_nonzero(s, d) <= d,
        forall|i: int| top_nonzero(s, d) < i <= d ==> s[i] == 0,
    decreases d,
{
    if d > 0 && s[d] == 0 {
        lemma_top_bound(s, d - 1);
    }
}

/// A coefficient array that is zero above `d`, and non-zero at `d` unless `d` is 0, has degree `d`.
proof fn lemma_normalized_degree(s: Seq<u8>, d: int)
    requires
        0 <= d <= 255,
        forall|i: int| d < i < 256 ==> s[i] == 0,
        d == 0 || s[d] != 0,
    ensures
        degree_of(s) == d,
{
    lemma_top_skip(s, d, 255);
}

/// Division steps on zero coefficients change nothing.
proof fn lemma_rem_skip(s: Seq<u8>, a: int, b: int, g: Seq<u8>, gd: int)
    requires
        -1 <= a <= b,
        s.len() == 256,
        0 <= gd,
        forall|i: int| a < i <= b ==> s[i] == 0,
    ensures
        poly_rem(s, b, g, gd) == poly_rem(s, a, g, gd),
    decreases b - a,
{
    if b > a && b >= gd {
        let q = quotient_term(s, b, g, gd);
        lemma_mul_zero(inv_of(g[gd]));
        assert forall|i: int| 0 <= i < 256 implies seq_xor(s, shift_scale(g, q))[i] == s[i] by {
            if i >= q.0 {
                lemma_mul_zero(g[i - q.0]);
            }
            lemma_xor_facts();
        }
        assert(seq_xor(s, shift_scale(g, q)) =~= s);
        lemma_rem_skip(s, a, b - 1, g, gd);
    }
}

/// One division step clears the coefficient it cancels and everything above it.
proof fn lemma_cancel_step(s: Seq<u8>, d: int, g: Seq<u8>, gd: int)
    requires
        s.len() == 256,
        g.len() == 256,
        0 <= gd <= d < 256,
        g[gd] != 0,
        forall|i: int| d < i < 256 ==> s[i] == 0,
        forall|i: int| gd < i < 256 ==> g[i] == 0,
    ensures
        forall|i: int| d <= i < 256 ==> #[trigger] seq_xor(s, shift_scale(g, quotient_term(s, d, g, gd)))[i] == 0,
{
    let q = quotient_term(s, d, g, gd);
    assert forall|i: int| d <= i < 256 implies #[trigger] seq_xor(s, shift_scale(g, q))[i] == 0 by {
        if i == d {
            lemma_mul_inverse_cancels(g[gd], s[d]);
            lemma_xor_facts();
        } else {
            lemma_mul_zero(q.1);
            lemma_xor_facts();
        }
    }
}

/// `α^i` for the generator `α = 2`.
pub open spec fn alpha_pow(i: nat) -> u8
    decreases i,
{
    if i == 0 {
        1
    } else {
        gf_mul(alpha_pow((i - 1) as nat), 2)
    }
}

/// The coefficients of the generator polynomial `(x + α^0)(x + α^1)...(x + α^(n-1))`, built as
/// `G_1 = x + 1` and `G_(i+1) = G_i·x + α^i·G_i`.
pub open spec fn gen_coeffs(n: nat) -> Seq<u8>
    decreases n,
{
    if n <= 1 {
        Seq::new(256, |j: int| if j <= 1 { 1u8 } else { 0u8 })
    } else {
        let p = gen_coeffs((n - 1) as nat);
        seq_xor(shift_scale(p, Term(1, 1)), scale(p, alpha_pow((n - 1) as nat)))
    }
}

/// The generator polynomial of degree `size`, which has leading coefficient 1.
pub fn gen_polynomial(size: u8) -> (r: Poly)
    requires
        size >= 1,
    ensures
        r.cof@ == gen_coeffs(size as nat),
        r.degree == size,
        r.normalized(),
        r.cof[size as int] == 1,
{
    let mut p = Poly::from(1, &[1, 1]);
    let mut alpha_i: u8 = 1;
    let x = Term(1, 1);
    assert(p.cof@ =~= gen_coeffs(1));
    proof {
        lemma_normalized_degree(p.cof@, 1);
        assert(gf_mul(1, 1) == 1) by (bit_vector);
    }
    let mut i: u8 = 1;
    while i < size
        invariant
            1 <= i <= size,
            p.cof@ == gen_coeffs(i as nat),
            p.degree == i,
            p.normalized(),
            p.cof[i as int] == 1,
            alpha_i == alpha_pow((i - 1) as nat),
            x == Term(1, 1),
            gf_mul(1, 1) == 1,
        decreases size - i,
    {
        let mut p_x_i = p.multiply(x);
        alpha_i = gf256_mult(alpha_i, 2u8);
        let ghost old_p = p.cof@;
        p.mut_mult_scalar(alpha_i);
        proof {
            lemma_mul_zero(alpha_i);
            assert(p.cof@ =~= scale(old_p, alpha_i));
        }
        p_x_i.mut_add_poly(&p);
        proof {
            lemma_xor_facts();
            assert(p_x_i.cof[i + 1] == 1);
            lemma_normalized_degree(p_x_i.cof@, i + 1);
            assert(p_x_i.cof@ =~= gen_coeffs((i + 1) as nat));
        }
        p = p_x_i;
        i = i + 1;
    }
    p
}

} // verus!
