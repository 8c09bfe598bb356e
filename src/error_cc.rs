//! Error-correction levels: capacities, format words, and Reed-Solomon code-words.
use vstd::prelude::*;
use vstd::slice::slice_subrange;
use crate::gf256::{gen_coeffs, gen_polynomial, poly_rem, shift_scale, Poly, Term};
use crate::segment::EnumEncodingErr;

verus! {

/// Versions with a capacity table: 1 to 5.
pub open spec fn supported(version: u8) -> bool {
    1 <= version <= 5
}

/// Data code-words of a version at level L.
pub open spec fn data_words_of(version: u8) -> nat {
    if version == 1 {
        19
    } else if version == 2 {
        34
    } else if version == 3 {
        55
    } else if version == 4 {
        80
    } else {
        108
    }
}

/// Error-correction code-words of a version at level L.
pub open spec fn ecc_words_of(version: u8) -> nat {
    if version == 1 {
        7
    } else if version == 2 {
        10
    } else if version == 3 {
        15
    } else if version == 4 {
        20
    } else {
        26
    }
}

/// All code-words of a version at level L.
pub open spec fn total_words_of(version: u8) -> nat {
    data_words_of(version) + ecc_words_of(version)
}

/// The 15-bit format word for level L and a mask.
pub open spec fn format_word(mask: u8) -> u32 {
    if mask == 0 {
        0b111011111000100
    } else if mask == 1 {
        0b111001011110011
    } else if mask == 2 {
        0b111110110101010
    } else if mask == 3 {
        0b111100010011101
    } else if mask == 4 {
        0b110011000101111
    } else if mask == 5 {
        0b110001100011000
    } else if mask == 6 {
        0b110110001000001
    } else {
        0b110100101110110
    }
}

/// The coefficients of the polynomial whose coefficients, highest degree first, are `data`.
pub open spec fn data_poly_coeffs(data: Seq<u8>) -> Seq<u8> {
    Seq::new(256, |i: int| if i < data.len() { data[data.len() - 1 - i] } else { 0u8 })
}

/// The `n` error-correction code-words of `data`: the remainder of `data·x^n` divided by the
/// generator of degree `n`, from degree `n-1` down to degree 0.
pub open spec fn ecc_spec(data: Seq<u8>, n: nat) -> Seq<u8> {
    let m = shift_scale(data_poly_coeffs(data), Term(n as u8, 1));
    let r = poly_rem(m, data.len() - 1 + n, gen_coeffs(n), n as int);
    Seq::new(n, |i: int| r[n - 1 - i])
}

/// The block layout of a version: error-correction words per block, and the blocks and data
/// words of its two groups.
#[derive(Clone, Copy, Debug)]
struct DataCapacity {
    ec_words_per_blk: u8,
    grp_1_blks: u8,
    words_per_grp_1: u8,
    grp_2_blks: u8,
    words_per_grp_2: u8,
}

impl DataCapacity {
    /// Data words over both groups.
    spec fn data_words(&self) -> nat {
        (self.words_per_grp_1 * self.grp_1_blks + self.words_per_grp_2 * self.grp_2_blks) as nat
    }

    fn total_data_words(&self) -> (r: usize)
        ensures
            r == self.data_words(),
    {
        let w1 = self.words_per_grp_1 as u32;
        let b1 = self.grp_1_blks as u32;
        let w2 = self.words_per_grp_2 as u32;
        let b2 = self.grp_2_blks as u32;
        assert(w1 * b1 <= 65025 && w2 * b2 <= 65025) by (nonlinear_arith)
            requires
                w1 <= 255,
                b1 <= 255,
                w2 <= 255,
                b2 <= 255,
        ;
        let words_grp_1 = w1 * b1;
        let words_grp_2 = w2 * b2;
        (words_grp_1 + words_grp_2) as usize
    }
}

spec fn capacity_l_spec(version: u8) -> DataCapacity {
    DataCapacity {
        ec_words_per_blk: ecc_words_of(version) as u8,
        grp_1_blks: 1,
        words_per_grp_1: data_words_of(version) as u8,
        grp_2_blks: 0,
        words_per_grp_2: 0,
    }
}

/// The level L layout of a supported version: one block.
fn capacity_l(version: u8) -> (r: DataCapacity)
    requires
        supported(version),
    ensures
        r == capacity_l_spec(version),
        r.data_words() == data_words_of(version),
{
    let (ec, words) = match version {
        1 => (7u8, 19u8),
        2 => (10, 34),
        3 => (15, 55),
        4 => (20, 80),
        _ => (26, 108),
    };
    let r = DataCapacity {
        ec_words_per_blk: ec,
        grp_1_blks: 1,
        words_per_grp_1: words,
        grp_2_blks: 0,
        words_per_grp_2: 0,
    };
    assert(r.data_words() == words) by (nonlinear_arith)
        requires
            r.grp_1_blks == 1,
            r.words_per_grp_1 == words,
            r.grp_2_blks == 0,
    ;
    r
}

/// An error-correction level.
#[derive(Clone, Copy, PartialEq, Eq, Structural, Debug)]
pub enum ErrorLevel {
    L,
    M,
    Q,
    H,
}

impl ErrorLevel {
    /// The format word for this level and `mask`.
    pub fn format_bits(&self, mask: u8) -> (r: u32)
        requires
            *self == ErrorLevel::L,
            mask < 8,
        ensures
            r == format_word(mask),
    {
        let l_mask_pattern: [u32; 8] = [
            0b111011111000100,
            0b111001011110011,
            0b111110110101010,
            0b111100010011101,
            0b110011000101111,
            0b110001100011000,
            0b110110001000001,
            0b110100101110110,
        ];
        l_mask_pattern[mask as usize]
    }

    /// The generator polynomial for the error-correction words of `version`.
    fn get_ecc_gf_poly(&self, version: u8) -> (r: Poly)
        requires
            supported(version),
        ensures
            r.cof@ == gen_coeffs(ecc_words_of(version)),
            r.degree == ecc_words_of(version),
            r.normalized(),
            r.cof[r.degree as int] == 1,
    {
        let ecc_size = capacity_l(version).ec_words_per_blk;
        gen_polynomial(ecc_size)
    }

    /// The block layout of `version` at this level, where one is tabulated.
    fn data_info(&self, version: u8) -> (r: Result<DataCapacity, EnumEncodingErr>)
        ensures
            r is Ok <==> *self == ErrorLevel::L && supported(version),
            r is Ok ==> r->Ok_0 == capacity_l_spec(version),
            r is Err ==> r->Err_0 == EnumEncodingErr::NotSupported,
    {
        match self {
            ErrorLevel::L => {
                if 1 <= version && version <= 5 {
                    Ok(capacity_l(version))
                } else {
                    Err(EnumEncodingErr::NotSupported)
                }
            },
            _ => Err(EnumEncodingErr::NotSupported),
        }
    }

    /// Writes the error-correction code-words of `block_data` for `version` into the start of
    /// `ecc_buffer` and returns how many there are.
    pub fn compute_ecc(&self, version: u8, block_data: &[u8], ecc_buffer: &mut [u8]) -> (r: usize)
        requires
            *self == ErrorLevel::L,
            supported(version),
            1 <= block_data@.len(),
            block_data@.len() - 1 + ecc_words_of(version) <= 255,
            old(ecc_buffer)@.len() >= ecc_words_of(version),
        ensures
            r == ecc_words_of(version),
            final(ecc_buffer)@.len() == old(ecc_buffer)@.len(),
            final(ecc_buffer)@.subrange(0, r as int) == ecc_spec(block_data@, r as nat),
            forall|j: int| r <= j < old(ecc_buffer)@.len() ==> final(ecc_buffer)@[j] == old(ecc_buffer)@[j],
    {
        let ecc_size = match self.data_info(version) {
            Ok(info) => info.ec_words_per_blk as usize,
            Err(_) => 0,
        };
        let data_poly = Poly::from((block_data.len() - 1) as u8, block_data);
        assert(data_poly.cof@ =~= data_poly_coeffs(block_data@));
        let divisor = self.get_ecc_gf_poly(version);
        let data_p = data_poly.multiply(Term(divisor.degree, 1));
        let remainder = data_p.div_remainder(&divisor);
        let mut i: usize = 0;
        while i < ecc_size
            invariant
                ecc_size == ecc_words_of(version),
                ecc_buffer@.len() == old(ecc_buffer)@.len(),
                ecc_size <= ecc_buffer@.len(),
                i <= ecc_size,
                forall|k: int| 0 <= k < i ==> ecc_buffer@[k] == remainder.cof[ecc_size - 1 - k],
                forall|k: int| ecc_size <= k < ecc_buffer@.len() ==> ecc_buffer@[k] == old(ecc_buffer)@[k],
            decreases ecc_size - i,
        {
            ecc_buffer[i] = remainder.cof[ecc_size - 1 - i];
            i += 1;
        }
        assert(ecc_buffer@.subrange(0, ecc_size as int) =~= ecc_spec(block_data@, ecc_size as nat));
        ecc_size
    }

    /// Appends the error-correction code-words of the data code-words of `version`, which
    /// start `msg_buffer`, and returns the number of code-words in all.
    pub fn add_error_codes(&self, version: u8, msg_buffer: &mut [u8]) -> (r: usize)
        requires
            *self == ErrorLevel::L,
            supported(version),
            old(msg_buffer)@.len() >= total_words_of(version),
        ensures
            r == total_words_of(version),
            final(msg_buffer)@.len() == old(msg_buffer)@.len(),
            final(msg_buffer)@.subrange(0, data_words_of(version) as int) == old(
                msg_buffer,
            )@.subrange(0, data_words_of(version) as int),
            final(msg_buffer)@.subrange(data_words_of(version) as int, r as int) == ecc_spec(
                old(msg_buffer)@.subrange(0, data_words_of(version) as int),
                ecc_words_of(version),
            ),
            forall|j: int| r <= j < old(msg_buffer)@.len() ==> final(msg_buffer)@[j] == old(msg_buffer)@[j],
    {
        let capacity_info = capacity_l(version);
        let data_size = capacity_info.total_data_words();
        let mut ecc_words = [0u8;32];
        let ecc_size = ErrorLevel::L.compute_ecc(
            version,
            slice_subrange(msg_buffer, 0, data_size),
            &mut ecc_words,
        );
        let ghost data = old(msg_buffer)@.subrange(0, data_size as int);
        let mut i: usize = 0;
        while i < ecc_size
            invariant
                data_size == data_words_of(version),
                ecc_size == ecc_words_of(version),
                msg_buffer@.len() == old(msg_buffer)@.len(),
                data_size + ecc_size <= msg_buffer@.len(),
                ecc_words@.subrange(0, ecc_size as int) == ecc_spec(data, ecc_size as nat),
                i <= ecc_size,
                forall|k: int| 0 <= k < data_size ==> msg_buffer@[k] == old(msg_buffer)@[k],
                forall|k: int| 0 <= k < i ==> msg_buffer@[data_size + k] == ecc_words@[k],
                forall|k: int| data_size + ecc_size <= k < msg_buffer@.len() ==> msg_buffer@[k] == old(msg_buffer)@[k],
            decreases ecc_size - i,
        {
            msg_buffer[data_size + i] = ecc_words[i];
            i += 1;
        }
        assert(msg_buffer@.subrange(0, data_size as int) =~= data);
        assert(msg_buffer@.subrange(data_size as int, (data_size + ecc_size) as int) =~= ecc_words@.subrange(0, ecc_size as int));
        data_size + ecc_size
    }

    /// All code-words of `v` at this level.
    pub fn total_words(&self, v: u8) -> (r: usize)
        requires
            *self == ErrorLevel::L,
            supported(v),
        ensures
            r == total_words_of(v),
    {
        let info = capacity_l(v);
        info.total_data_words() + info.ec_words_per_blk as usize
    }

    /// The data code-words of `version` at this level.
    pub fn data_code_words(&self, version: u8) -> (r: usize)
        requires
            *self == ErrorLevel::L,
            supported(version),
        ensures
            r == data_words_of(version),
    {
        capacity_l(version).total_data_words()
    }
}

/// Data and error-correction code-words add up to all code-words, with the counts of the
/// level L table.
pub proof fn lemma_capacity_table(v: u8)
    requires
        supported(v),
    ensures
        data_words_of(v) + ecc_words_of(v) == total_words_of(v),
        v == 1 ==> data_words_of(v) == 19 && ecc_words_of(v) == 7 && total_words_of(v) == 26,
        v == 2 ==> data_words_of(v) == 34 && ecc_words_of(v) == 10 && total_words_of(v) == 44,
        v == 3 ==> data_words_of(v) == 55 && ecc_words_of(v) == 15 && total_words_of(v) == 70,
        v == 4 ==> data_words_of(v) == 80 && ecc_words_of(v) == 20 && total_words_of(v) == 100,
        v == 5 ==> data_words_of(v) == 108 && ecc_words_of(v) == 26 && total_words_of(v) == 134,
{
}

} // verus!
