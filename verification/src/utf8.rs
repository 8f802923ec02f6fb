//! A verified UTF-8 validity check.  String fields of the wire format are
//! carried as raw byte vectors; this module decides whether such bytes form
//! well-formed UTF-8 (no overlong forms, no surrogates, no code point above
//! 0x10FFFF), which is what the string decoders require before accepting a
//! field.

use vstd::prelude::*;

verus! {

/// A UTF-8 continuation byte: high bits `10`.
pub open spec fn is_cont(b: u8) -> bool {
    0x80 <= b <= 0xBF
}

/// Well-formed UTF-8, one code point per step.  The second-byte ranges for
/// lead bytes 0xE0, 0xED, 0xF0 and 0xF4 exclude overlong forms, the
/// surrogate range and code points above 0x10FFFF.
pub open spec fn is_utf8(s: Seq<u8>) -> bool
    decreases s.len(),
{
    if s.len() == 0 {
        true
    } else {
        let b0 = s[0];
        if b0 < 0x80 {
            is_utf8(s.skip(1))
        } else if 0xC2 <= b0 <= 0xDF {
            s.len() >= 2 && is_cont(s[1]) && is_utf8(s.skip(2))
        } else if b0 == 0xE0 {
            s.len() >= 3 && 0xA0 <= s[1] <= 0xBF && is_cont(s[2]) && is_utf8(s.skip(3))
        } else if b0 == 0xED {
            s.len() >= 3 && 0x80 <= s[1] <= 0x9F && is_cont(s[2]) && is_utf8(s.skip(3))
        } else if (0xE1 <= b0 <= 0xEC) || b0 == 0xEE || b0 == 0xEF {
            s.len() >= 3 && is_cont(s[1]) && is_cont(s[2]) && is_utf8(s.skip(3))
        } else if b0 == 0xF0 {
            s.len() >= 4 && 0x90 <= s[1] <= 0xBF && is_cont(s[2]) && is_cont(s[3]) && is_utf8(
                s.skip(4),
            )
        } else if 0xF1 <= b0 <= 0xF3 {
            s.len() >= 4 && is_cont(s[1]) && is_cont(s[2]) && is_cont(s[3]) && is_utf8(s.skip(4))
        } else if b0 == 0xF4 {
            s.len() >= 4 && 0x80 <= s[1] <= 0x8F && is_cont(s[2]) && is_cont(s[3]) && is_utf8(
                s.skip(4),
            )
        } else {
            false
        }
    }
}

/// Decides `is_utf8` on a byte vector.
pub fn validate_utf8(v: &Vec<u8>) -> (r: bool)
    ensures
        r == is_utf8(v@),
{
    let mut i: usize = 0;
    proof {
        assert(v@.skip(0) =~= v@);
    }
    loop
        invariant
            0 <= i <= v@.len(),
            is_utf8(v@) == is_utf8(v@.skip(i as int)),
        ensures
            is_utf8(v@) == (i == v@.len()),
        decreases v@.len() - i,
    {
        if i >= v.len() {
            proof {
                assert(v@.skip(i as int) =~= Seq::<u8>::empty());
            }
            break ;
        }
        let ghost rest = v@.skip(i as int);
        assert(rest[0] == v@[i as int]);
        let b0 = v[i];
        let step: usize;
        let ok: bool;
        if b0 < 0x80 {
            step = 1;
            ok = true;
        } else if 0xC2 <= b0 && b0 <= 0xDF {
            step = 2;
            ok = v.len() - i >= 2 && {
                let b1 = v[i + 1];
                0x80 <= b1 && b1 <= 0xBF
            };
        } else if 0xE0 <= b0 && b0 <= 0xEF {
            step = 3;
            ok = v.len() - i >= 3 && {
                let b1 = v[i + 1];
                let b2 = v[i + 2];
                let lo: u8 = if b0 == 0xE0 {
                    0xA0
                } else {
                    0x80
                };
                let hi: u8 = if b0 == 0xED {
                    0x9F
                } else {
                    0xBF
                };
                lo <= b1 && b1 <= hi && 0x80 <= b2 && b2 <= 0xBF
            };
        } else if 0xF0 <= b0 && b0 <= 0xF4 {
            step = 4;
            ok = v.len() - i >= 4 && {
                let b1 = v[i + 1];
                let b2 = v[i + 2];
                let b3 = v[i + 3];
                let lo: u8 = if b0 == 0xF0 {
                    0x90
                } else {
                    0x80
                };
                let hi: u8 = if b0 == 0xF4 {
                    0x8F
                } else {
                    0xBF
                };
                lo <= b1 && b1 <= hi && 0x80 <= b2 && b2 <= 0xBF && 0x80 <= b3 && b3 <= 0xBF
            };
        } else {
            step = 1;
            ok = false;
        }
        proof {
            if 1 <= rest.len() {
                assert(rest[0] == v@[i as int]);
            }
            if 2 <= rest.len() {
                assert(rest[1] == v@[i + 1]);
            }
            if 3 <= rest.len() {
                assert(rest[2] == v@[i + 2]);
            }
            if 4 <= rest.len() {
                assert(rest[3] == v@[i + 3]);
            }
        }
        if !ok {
            proof {
                assert(!is_utf8(rest));
            }
            break ;
        }
        proof {
            assert(is_utf8(rest) == is_utf8(rest.skip(step as int)));
            assert(v@.skip(i + step as int) =~= rest.skip(step as int));
        }
        i = i + step;
    }
    i == v.len()
}

} // verus!
