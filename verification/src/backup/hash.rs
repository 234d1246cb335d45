//! Content hashing: a 256-bit collision-resistant digest identifies file
//! content, packed into four machine words, with a hexadecimal rendering
//! used for content-addressed blob names and path-derived save ids.

use vstd::prelude::*;

verus! {

/// The SHA-256 digest of a byte sequence, as `ring::digest::digest`
/// computes it: a function of the input bytes alone.
pub uninterp spec fn digest_of(data: Seq<u8>) -> Seq<u8>;

/// Relies on `ring::digest::digest` with `ring::digest::SHA256`: the digest
/// is a function of the input bytes alone and is `SHA256_OUTPUT_LEN` == 32
/// bytes long. The input bound keeps the message under SHA-256's 2^64 - 1
/// bit limit, past which `ring` panics.
#[verifier::external_body]
fn sha256_digest(data: &[u8]) -> (r: Vec<u8>)
    requires
        data@.len() < 0x2000000000000000,
    ensures
        r@ == digest_of(data@),
        r@.len() == 32,
{
    ring::digest::digest(&ring::digest::SHA256, data).as_ref().to_vec()
}

/// A content hash, the 32 digest bytes packed big-endian into four words,
/// so that the hexadecimal rendering matches the usual digest notation.
#[derive(Debug, Clone, Copy, PartialEq, Eq, Structural)]
pub struct Sha256Sum {
    pub w0: u64,
    pub w1: u64,
    pub w2: u64,
    pub w3: u64,
}

/// The word that bytes `off .. off + 8` of `d` encode, big-endian.
pub open spec fn be_word(d: Seq<u8>, off: int) -> u64 {
    (d[off] * 0x100000000000000 + d[off + 1] * 0x1000000000000 + d[off + 2] * 0x10000000000 + d[
        off + 3] * 0x100000000 + d[off + 4] * 0x1000000 + d[off + 5] * 0x10000 + d[off + 6]
        * 0x100 + d[off + 7]) as u64
}

/// The `Sha256Sum` that packs a 32-byte digest.
pub open spec fn sum_of_digest(d: Seq<u8>) -> Sha256Sum {
    Sha256Sum { w0: be_word(d, 0), w1: be_word(d, 8), w2: be_word(d, 16), w3: be_word(d, 24) }
}

/// The content hash of a byte sequence.
pub open spec fn hash_of(data: Seq<u8>) -> Sha256Sum {
    sum_of_digest(digest_of(data))
}

proof fn lemma_be_word_injective(d1: Seq<u8>, d2: Seq<u8>, off1: int, off2: int)
    requires
        0 <= off1 && off1 + 8 <= d1.len(),
        0 <= off2 && off2 + 8 <= d2.len(),
        be_word(d1, off1) == be_word(d2, off2),
    ensures
        forall|k: int| 0 <= k < 8 ==> d1[off1 + k] == #[trigger] d2[off2 + k],
{
    let s1 = d1[off1] * 0x100000000000000 + d1[off1 + 1] * 0x1000000000000 + d1[off1 + 2]
        * 0x10000000000 + d1[off1 + 3] * 0x100000000 + d1[off1 + 4] * 0x1000000 + d1[off1 + 5]
        * 0x10000 + d1[off1 + 6] * 0x100 + d1[off1 + 7];
    let s2 = d2[off2] * 0x100000000000000 + d2[off2 + 1] * 0x1000000000000 + d2[off2 + 2]
        * 0x10000000000 + d2[off2 + 3] * 0x100000000 + d2[off2 + 4] * 0x1000000 + d2[off2 + 5]
        * 0x10000 + d2[off2 + 6] * 0x100 + d2[off2 + 7];
    assert(0 <= s1 < 0x10000000000000000);
    assert(0 <= s2 < 0x10000000000000000);
    assert(s1 == s2);
    // peel one positional digit at a time: the remainder below each factor
    // is smaller than the factor, so the digits agree
    assert(d1[off1] == d2[off2]);
    assert(d1[off1 + 1] == d2[off2 + 1]);
    assert(d1[off1 + 2] == d2[off2 + 2]);
    assert(d1[off1 + 3] == d2[off2 + 3]);
    assert(d1[off1 + 4] == d2[off2 + 4]);
    assert(d1[off1 + 5] == d2[off2 + 5]);
    assert(d1[off1 + 6] == d2[off2 + 6]);
    assert(d1[off1 + 7] == d2[off2 + 7]);
    assert forall|k: int| 0 <= k < 8 implies d1[off1 + k] == #[trigger] d2[off2 + k] by {
        if k == 0 {
        } else if k == 1 {
        } else if k == 2 {
        } else if k == 3 {
        } else if k == 4 {
        } else if k == 5 {
        } else if k == 6 {
        } else {
            assert(k == 7);
        }
    }
}

/// Packing a digest into words loses nothing: two 32-byte digests that pack
/// to the same `Sha256Sum` are equal, so distinct store keys can only come
/// from distinct digests.
pub proof fn lemma_sum_of_digest_injective(d1: Seq<u8>, d2: Seq<u8>)
    requires
        d1.len() == 32,
        d2.len() == 32,
        sum_of_digest(d1) == sum_of_digest(d2),
    ensures
        d1 == d2,
{
    lemma_be_word_injective(d1, d2, 0, 0);
    lemma_be_word_injective(d1, d2, 8, 8);
    lemma_be_word_injective(d1, d2, 16, 16);
    lemma_be_word_injective(d1, d2, 24, 24);
    assert forall|k: int| 0 <= k < 32 implies d1[k] == d2[k] by {
        if k < 8 {
            assert(d1[0 + k] == d2[0 + k]);
        } else if k < 16 {
            assert(d1[8 + (k - 8)] == d2[8 + (k - 8)]);
        } else if k < 24 {
            assert(d1[16 + (k - 16)] == d2[16 + (k - 16)]);
        } else {
            assert(d1[24 + (k - 24)] == d2[24 + (k - 24)]);
        }
    }
    assert(d1 =~= d2);
}

fn be_word_at(d: &Vec<u8>, off: usize) -> (w: u64)
    requires
        off + 8 <= d@.len(),
    ensures
        w == be_word(d@, off as int),
{
    let _n: usize = d.len();
    (d[off] as u64) * 0x100000000000000 + (d[off + 1] as u64) * 0x1000000000000 + (d[off
        + 2] as u64) * 0x10000000000 + (d[off + 3] as u64) * 0x100000000 + (d[off + 4] as u64)
        * 0x1000000 + (d[off + 5] as u64) * 0x10000 + (d[off + 6] as u64) * 0x100 + (d[off
        + 7] as u64)
}

/// Compute the content hash of in-memory bytes.
pub fn hash(data: &[u8]) -> (h: Sha256Sum)
    requires
        data@.len() < 0x2000000000000000,
    ensures
        h == hash_of(data@),
{
    let d = sha256_digest(data);
    Sha256Sum {
        w0: be_word_at(&d, 0),
        w1: be_word_at(&d, 8),
        w2: be_word_at(&d, 16),
        w3: be_word_at(&d, 24),
    }
}

/// The lower-case hexadecimal character for a value below 16.
pub open spec fn hex_digit_char(n: u8) -> char {
    if n == 0 {
        '0'
    } else if n == 1 {
        '1'
    } else if n == 2 {
        '2'
    } else if n == 3 {
        '3'
    } else if n == 4 {
        '4'
    } else if n == 5 {
        '5'
    } else if n == 6 {
        '6'
    } else if n == 7 {
        '7'
    } else if n == 8 {
        '8'
    } else if n == 9 {
        '9'
    } else if n == 10 {
        'a'
    } else if n == 11 {
        'b'
    } else if n == 12 {
        'c'
    } else if n == 13 {
        'd'
    } else if n == 14 {
        'e'
    } else {
        'f'
    }
}

/// The 16 hexadecimal characters of a word, most significant nibble first.
pub open spec fn hex_of_word(w: u64) -> Seq<char> {
    Seq::new(16, |i: int| hex_digit_char(((w >> (((15 - i) * 4) as u64)) & 0xf) as u8))
}

/// The 64 hexadecimal characters of a content hash.
pub open spec fn hex_of_sum(s: Sha256Sum) -> Seq<char> {
    hex_of_word(s.w0) + hex_of_word(s.w1) + hex_of_word(s.w2) + hex_of_word(s.w3)
}

pub(crate) fn hex_char_str(n: u8) -> (r: &'static str)
    requires
        n < 16,
    ensures
        r@ =~= seq![hex_digit_char(n)],
{
    match n {
        0 => {
            proof {
                reveal_strlit("0");
            }
            "0"
        },
        1 => {
            proof {
                reveal_strlit("1");
            }
            "1"
        },
        2 => {
            proof {
                reveal_strlit("2");
            }
            "2"
        },
        3 => {
            proof {
                reveal_strlit("3");
            }
            "3"
        },
        4 => {
            proof {
                reveal_strlit("4");
            }
            "4"
        },
        5 => {
            proof {
                reveal_strlit("5");
            }
            "5"
        },
        6 => {
            proof {
                reveal_strlit("6");
            }
            "6"
        },
        7 => {
            proof {
                reveal_strlit("7");
            }
            "7"
        },
        8 => {
            proof {
                reveal_strlit("8");
            }
            "8"
        },
        9 => {
            proof {
                reveal_strlit("9");
            }
            "9"
        },
        10 => {
            proof {
                reveal_strlit("a");
            }
            "a"
        },
        11 => {
            proof {
                reveal_strlit("b");
            }
            "b"
        },
        12 => {
            proof {
                reveal_strlit("c");
            }
            "c"
        },
        13 => {
            proof {
                reveal_strlit("d");
            }
            "d"
        },
        14 => {
            proof {
                reveal_strlit("e");
            }
            "e"
        },
        _ => {
            proof {
                reveal_strlit("f");
            }
            "f"
        },
    }
}

fn append_word_hex(out: &mut String, w: u64)
    ensures
        final(out)@ == old(out)@ + hex_of_word(w),
{
    let ghost start: Seq<char> = out@;
    for i in 0..16usize
        invariant
            out@ =~= start + hex_of_word(w).subrange(0, i as int),
    {
        let shift: u64 = (15 - i as u64) * 4;
        let masked: u64 = (w >> shift) & 0xf;
        proof {
            assert((w >> shift) & 0xf < 16) by (bit_vector);
        }
        let nib: u8 = masked as u8;
        out.append(hex_char_str(nib));
        proof {
            assert(hex_of_word(w)[i as int] == hex_digit_char(nib));
            assert(hex_of_word(w).subrange(0, i + 1) =~= hex_of_word(w).subrange(0, i as int)
                + seq![hex_of_word(w)[i as int]]);
        }
    }
    proof {
        assert(hex_of_word(w).subrange(0, 16) =~= hex_of_word(w));
    }
}

impl Sha256Sum {
    /// Render the hash as 64 lower-case hexadecimal characters, the
    /// content-addressed name of its blob.
    pub fn to_hex(&self) -> (r: String)
        ensures
            r@ == hex_of_sum(*self),
    {
        let mut out = String::new();
        append_word_hex(&mut out, self.w0);
        append_word_hex(&mut out, self.w1);
        append_word_hex(&mut out, self.w2);
        append_word_hex(&mut out, self.w3);
        proof {
            assert(out@ =~= hex_of_sum(*self));
        }
        out
    }
}

} // verus!
