//! An executable UTF-8 validity check, proved against vstd's model of
//! UTF-8 (`vstd::utf8::valid_utf8`).
use vstd::prelude::*;
use vstd::utf8::*;

verus! {

/// Whether the byte sequence starting at `s[i]` begins with a well-formed
/// encoding of a single Unicode scalar, and if so how many bytes it spans.
///
/// Mirrors `vstd::utf8::valid_first_scalar` byte for byte: the leading byte
/// selects a width, the following bytes must be continuation bytes, and the
/// decoded codepoint must be neither an overlong encoding nor a surrogate.
fn first_scalar_width(s: &[u8], i: usize) -> (r: Option<usize>)
    requires
        i < s@.len(),
    ensures
        ({
            let t = s@.subrange(i as int, s@.len() as int);
            match r {
                Some(w) => valid_first_scalar(t) && w == length_of_first_scalar(t) && i + w
                    <= s@.len(),
                None => !valid_first_scalar(t),
            }
        }),
{
    let ghost t = s@.subrange(i as int, s@.len() as int);
    let n = s.len();
    let b0 = s[i];
    proof {
        assert(t[0] == s@[i as int]);
        assert(t.len() == n - i);
    }
    if b0 <= 0x7f {
        proof {
            assert(is_leading_byte_width_1(t[0]));
            assert(decode_first_codepoint(t) == leading_bits_width_1(t[0]));
            assert((b0 & 0x7f) < 0x80) by (bit_vector);
            assert(leading_bits_width_1(t[0]) == (b0 & 0x7f) as u32);
        }
        Some(1)
    } else if b0 < 0xc0 {
        // A stray continuation byte can head no encoding.
        None
    } else if b0 <= 0xdf {
        if n - i < 2 {
            return None;
        }
        let b1 = s[i + 1];
        proof {
            assert(t[1] == s@[i as int + 1]);
        }
        if !(0x80 <= b1 && b1 <= 0xbf) {
            return None;
        }
        let cp: u32 = (((b0 & 0x1f) as u32) << 6) | ((b1 & 0x3f) as u32);
        proof {
            assert(is_leading_byte_width_2(t[0]));
            assert(!is_leading_byte_width_1(t[0]));
            assert(is_continuation_byte(t[1]));
            assert(cp == codepoint_width_2(t[0], t[1]));
            assert(cp < 0x800) by (bit_vector)
                requires
                    cp == ((((b0 & 0x1f) as u32) << 6) | ((b1 & 0x3f) as u32)),
            ;
        }
        if cp < 0x80 {
            return None;
        }
        Some(2)
    } else if b0 <= 0xef {
        if n - i < 3 {
            return None;
        }
        let b1 = s[i + 1];
        let b2 = s[i + 2];
        proof {
            assert(t[1] == s@[i as int + 1]);
            assert(t[2] == s@[i as int + 2]);
        }
        if !(0x80 <= b1 && b1 <= 0xbf) || !(0x80 <= b2 && b2 <= 0xbf) {
            return None;
        }
        let cp: u32 = (((b0 & 0x0f) as u32) << 12) | (((b1 & 0x3f) as u32) << 6) | ((b2
            & 0x3f) as u32);
        proof {
            assert(is_leading_byte_width_3(t[0]));
            assert(!is_leading_byte_width_1(t[0]));
            assert(!is_leading_byte_width_2(t[0]));
            assert(is_continuation_byte(t[1]));
            assert(is_continuation_byte(t[2]));
            assert(cp == codepoint_width_3(t[0], t[1], t[2]));
            assert(cp < 0x10000) by (bit_vector)
                requires
                    cp == ((((b0 & 0x0f) as u32) << 12) | (((b1 & 0x3f) as u32) << 6) | ((b2
                        & 0x3f) as u32)),
            ;
        }
        if cp < 0x800 {
            return None;
        }
        if 0xd800 <= cp && cp <= 0xdfff {
            return None;
        }
        Some(3)
    } else if b0 <= 0xf7 {
        if n - i < 4 {
            return None;
        }
        let b1 = s[i + 1];
        let b2 = s[i + 2];
        let b3 = s[i + 3];
        proof {
            assert(t[1] == s@[i as int + 1]);
            assert(t[2] == s@[i as int + 2]);
            assert(t[3] == s@[i as int + 3]);
        }
        if !(0x80 <= b1 && b1 <= 0xbf) || !(0x80 <= b2 && b2 <= 0xbf) || !(0x80 <= b3 && b3
            <= 0xbf) {
            return None;
        }
        let cp: u32 = (((b0 & 0x07) as u32) << 18) | (((b1 & 0x3f) as u32) << 12) | (((b2
            & 0x3f) as u32) << 6) | ((b3 & 0x3f) as u32);
        proof {
            assert(is_leading_byte_width_4(t[0]));
            assert(!is_leading_byte_width_1(t[0]));
            assert(!is_leading_byte_width_2(t[0]));
            assert(!is_leading_byte_width_3(t[0]));
            assert(is_continuation_byte(t[1]));
            assert(is_continuation_byte(t[2]));
            assert(is_continuation_byte(t[3]));
            assert(cp == codepoint_width_4(t[0], t[1], t[2], t[3]));
            assert(cp >= 0x10000 ==> !(0xd800 <= cp <= 0xdfff));
        }
        if cp < 0x10000 {
            return None;
        }
        if cp > 0x10ffff {
            return None;
        }
        Some(4)
    } else {
        None
    }
}

/// Whether `s` is a valid UTF-8 encoding, in the sense of
/// `vstd::utf8::valid_utf8`.
pub fn is_utf8(s: &[u8]) -> (r: bool)
    ensures
        r == valid_utf8(s@),
{
    let n = s.len();
    let mut i: usize = 0;
    proof {
        assert(s@.subrange(0, n as int) =~= s@);
    }
    while i < n
        invariant
            i <= n,
            n == s@.len(),
            valid_utf8(s@) == valid_utf8(s@.subrange(i as int, n as int)),
        decreases n - i,
    {
        let ghost t = s@.subrange(i as int, n as int);
        match first_scalar_width(s, i) {
            Some(w) => {
                proof {
                    assert(w >= 1);
                    assert(valid_utf8(t) == valid_utf8(pop_first_scalar(t)));
                    assert(pop_first_scalar(t) =~= s@.subrange(i as int + w as int, n as int));
                }
                i = i + w;
            },
            None => {
                proof {
                    assert(t.len() != 0);
                    assert(!valid_utf8(t));
                }
                return false;
            },
        }
    }
    proof {
        assert(s@.subrange(n as int, n as int) =~= Seq::<u8>::empty());
    }
    true
}

} // verus!
