//! Text classification by UTF-8 validity of a bounded prefix.
//!
//! A file is treated as text when its first `SAMPLE_LEN` bytes (or
//! all of them, when the file is shorter) form valid UTF-8. An empty
//! file is text. Only the sampled prefix is read: invalid bytes past
//! the sample do not change the verdict — the deliberate
//! truncation-sampling trade-off that keeps classification from
//! reading huge files whole. A multi-byte character cut off by the
//! sample boundary makes the prefix invalid, hence "not text".

use vstd::prelude::*;
use vstd::utf8::{
    valid_utf8, valid_first_scalar, valid_leading_and_continuation_bytes_first_codepoint,
    decode_first_codepoint, length_of_first_scalar, partial_valid_utf8,
    partial_valid_utf8_extend, partial_valid_partial_invalid_utf8,
};

verus! {

/// Number of bytes sampled from the start of a file's content when
/// deciding whether it is text.
pub const SAMPLE_LEN: usize = 1024;

/// How many of the content's bytes the classifier samples.
pub open spec fn sample_size(n: nat) -> nat {
    if n <= SAMPLE_LEN as nat {
        n
    } else {
        SAMPLE_LEN as nat
    }
}

/// Whether a file with the given content is classified as text.
pub open spec fn is_text(content: Seq<u8>) -> bool {
    valid_utf8(content.take(sample_size(content.len()) as int))
}

/// Checks that the first `n` bytes form valid UTF-8.
fn validate_prefix(bytes: &Vec<u8>, n: usize) -> (r: bool)
    requires
        n <= bytes@.len(),
    ensures
        r == valid_utf8(bytes@.take(n as int)),
{
    let ghost pre = bytes@.take(n as int);
    let mut i: usize = 0;
    proof {
        assert(pre.subrange(0, 0) =~= Seq::<u8>::empty());
    }
    loop
        invariant
            i <= n <= bytes@.len(),
            pre == bytes@.take(n as int),
            partial_valid_utf8(pre, i as int),
        decreases n - i,
    {
        if i == n {
            proof {
                assert(pre.subrange(0, n as int) =~= pre);
            }
            return true;
        }
        let ghost rest = pre.subrange(i as int, n as int);
        proof {
            assert forall|k: int| 0 <= k < rest.len() implies rest[k] == bytes@[i + k] by {
                assert(rest[k] == pre[i + k]);
            }
        }
        let b0 = bytes[i];
        let rem = n - i;
        let mut w: usize = 1;
        let mut ok = true;
        if b0 < 0x80 {
            proof {
                assert(decode_first_codepoint(rest) == (b0 & 0x7f) as u32);
                assert((b0 & 0x7f) < 0x80) by (bit_vector);
                assert(valid_first_scalar(rest));
                assert(length_of_first_scalar(rest) == 1);
            }
        } else if b0 < 0xc0 {
            ok = false;
            proof {
                assert(!valid_leading_and_continuation_bytes_first_codepoint(rest));
            }
        } else if b0 < 0xe0 {
            w = 2;
            if rem < 2 {
                ok = false;
            } else {
                let b1 = bytes[i + 1];
                if b1 < 0x80 || b1 > 0xbf {
                    ok = false;
                    proof {
                        assert(rest[1] == b1);
                        assert(!valid_leading_and_continuation_bytes_first_codepoint(rest));
                    }
                } else {
                    let cp: u32 = (((b0 & 0x1f) as u32) << 6u32) | ((b1 & 0x3f) as u32);
                    proof {
                        assert(rest[1] == b1);
                        assert(decode_first_codepoint(rest) == cp);
                        assert((((b0 & 0x1f) as u32) << 6u32) | ((b1 & 0x3f) as u32)
                            <= 0x7ff) by (bit_vector);
                        assert(length_of_first_scalar(rest) == 2);
                    }
                    if cp < 0x80 {
                        ok = false;
                        proof {
                            assert(!valid_first_scalar(rest));
                        }
                    } else {
                        proof {
                            assert(valid_first_scalar(rest));
                        }
                    }
                }
            }
        } else if b0 < 0xf0 {
            w = 3;
            if rem < 3 {
                ok = false;
            } else {
                let b1 = bytes[i + 1];
                let b2 = bytes[i + 2];
                if b1 < 0x80 || b1 > 0xbf || b2 < 0x80 || b2 > 0xbf {
                    ok = false;
                    proof {
                        assert(rest[1] == b1 && rest[2] == b2);
                        assert(!valid_leading_and_continuation_bytes_first_codepoint(rest));
                    }
                } else {
                    let cp: u32 = (((b0 & 0x0f) as u32) << 12u32) | (((b1 & 0x3f) as u32)
                        << 6u32) | ((b2 & 0x3f) as u32);
                    proof {
                        assert(rest[1] == b1 && rest[2] == b2);
                        assert(decode_first_codepoint(rest) == cp);
                        assert((((b0 & 0x0f) as u32) << 12u32) | (((b1 & 0x3f) as u32) << 6u32) | (
                        (b2 & 0x3f) as u32) <= 0xffff) by (bit_vector);
                        assert(length_of_first_scalar(rest) == 3);
                    }
                    if cp < 0x800 || (cp >= 0xd800 && cp <= 0xdfff) {
                        ok = false;
                        proof {
                            assert(!valid_first_scalar(rest));
                        }
                    } else {
                        proof {
                            assert(valid_first_scalar(rest));
                        }
                    }
                }
            }
        } else if b0 < 0xf8 {
            w = 4;
            if rem < 4 {
                ok = false;
            } else {
                let b1 = bytes[i + 1];
                let b2 = bytes[i + 2];
                let b3 = bytes[i + 3];
                if b1 < 0x80 || b1 > 0xbf || b2 < 0x80 || b2 > 0xbf || b3 < 0x80 || b3 > 0xbf {
                    ok = false;
                    proof {
                        assert(rest[1] == b1 && rest[2] == b2 && rest[3] == b3);
                        assert(!valid_leading_and_continuation_bytes_first_codepoint(rest));
                    }
                } else {
                    let cp: u32 = (((b0 & 0x07) as u32) << 18u32) | (((b1 & 0x3f) as u32)
                        << 12u32) | (((b2 & 0x3f) as u32) << 6u32) | ((b3 & 0x3f) as u32);
                    proof {
                        assert(rest[1] == b1 && rest[2] == b2 && rest[3] == b3);
                        assert(decode_first_codepoint(rest) == cp);
                        assert(length_of_first_scalar(rest) == 4);
                    }
                    if cp < 0x10000 || cp > 0x10ffff {
                        ok = false;
                        proof {
                            assert(!valid_first_scalar(rest));
                        }
                    } else {
                        proof {
                            assert(valid_first_scalar(rest));
                        }
                    }
                }
            }
        } else {
            ok = false;
            proof {
                assert(!valid_leading_and_continuation_bytes_first_codepoint(rest));
            }
        }
        if !ok {
            proof {
                assert(rest.len() > 0);
                assert(!valid_utf8(rest));
                partial_valid_partial_invalid_utf8(pre, i as int);
            }
            return false;
        }
        proof {
            assert(valid_first_scalar(rest));
            assert(rest == pre.subrange(i as int, pre.len() as int));
            partial_valid_utf8_extend(pre, i as int);
            assert(length_of_first_scalar(rest) == w);
        }
        i = i + w;
    }
}

/// Classifies content as text: the sampled prefix must be valid
/// UTF-8.
pub fn classify_sample(content: &Vec<u8>) -> (r: bool)
    ensures
        r == is_text(content@),
{
    let n = if content.len() > SAMPLE_LEN {
        SAMPLE_LEN
    } else {
        content.len()
    };
    validate_prefix(content, n)
}

/// Checks an entire byte string for UTF-8 validity.
pub fn is_utf8(bytes: &Vec<u8>) -> (r: bool)
    ensures
        r == valid_utf8(bytes@),
{
    let n = bytes.len();
    let r = validate_prefix(bytes, n);
    proof {
        assert(bytes@.take(n as int) =~= bytes@);
    }
    r
}

/// Law: whatever is classified as text has a sampled prefix that is
/// valid UTF-8.
pub proof fn lemma_text_sample_valid(content: Seq<u8>)
    requires
        is_text(content),
    ensures
        valid_utf8(content.take(sample_size(content.len()) as int)),
{
}

/// Law: classification reads only the sampled prefix. Two contents
/// with the same sample classify alike, however they differ past the
/// sample boundary.
pub proof fn lemma_classification_bounded(c1: Seq<u8>, c2: Seq<u8>)
    requires
        c1.take(sample_size(c1.len()) as int) == c2.take(sample_size(c2.len()) as int),
    ensures
        is_text(c1) == is_text(c2),
{
}

} // verus!
