//! Base-128 variable-length integers, the primitive of the wire format.
//!
//! An integer is written as a little-endian sequence of 7-bit groups; every
//! byte but the last carries a continuation bit. The reader accepts exactly
//! the writer's output: redundant encodings of the same value are refused,
//! so the encoding is a bijection between integers and their byte strings.

use vstd::prelude::*;
use crate::error::Error;

verus! {

/// The canonical encoding of one integer.
pub open spec fn vint(n: int) -> Seq<u8>
    decreases n,
{
    if n < 128 {
        seq![n as u8]
    } else {
        seq![(n % 128 + 128) as u8] + vint(n / 128)
    }
}

/// `p` stands at position `pos` of `s`, with room before `end`.
pub open spec fn starts_with(s: Seq<u8>, pos: int, end: int, p: Seq<u8>) -> bool {
    &&& 0 <= pos
    &&& pos + p.len() <= end <= s.len()
    &&& s.subrange(pos, pos + p.len()) == p
}

/// Splitting a known concatenation: the head stands at `pos` and the tail
/// stands right after it.
pub proof fn lemma_split(s: Seq<u8>, pos: int, end: int, a: Seq<u8>, b: Seq<u8>)
    requires
        0 <= pos <= end <= s.len(),
        s.subrange(pos, end) == a + b,
    ensures
        starts_with(s, pos, end, a),
        s.subrange(pos + a.len(), end) == b,
{
    assert((a + b).len() == end - pos) by {
        assert(s.subrange(pos, end).len() == end - pos);
    }
    assert(s.subrange(pos, pos + a.len()) =~= a) by {
        assert forall|i: int| 0 <= i < a.len()
            implies s.subrange(pos, pos + a.len())[i] == a[i] by {
            assert(s.subrange(pos, end)[i] == (a + b)[i]);
        }
    }
    assert(s.subrange(pos + a.len(), end) =~= b) by {
        assert forall|i: int| 0 <= i < b.len()
            implies s.subrange(pos + a.len(), end)[i] == b[i] by {
            assert(s.subrange(pos, end)[a.len() + i] == (a + b)[a.len() + i]);
            assert((a + b)[a.len() + i] == b[i]);
            assert(s.subrange(pos, end)[a.len() + i] == s[pos + a.len() + i]);
            assert(s.subrange(pos + a.len(), end)[i] == s[pos + a.len() + i]);
        }
    }
}

/// Two adjacent segments join into their concatenation.
pub proof fn lemma_join(s: Seq<u8>, pos: int, end: int, a: Seq<u8>, b: Seq<u8>)
    requires
        0 <= pos,
        pos + a.len() + b.len() == end <= s.len(),
        s.subrange(pos, pos + a.len()) == a,
        s.subrange(pos + a.len(), end) == b,
    ensures
        s.subrange(pos, end) == a + b,
{
    assert(s.subrange(pos, end) =~= a + b) by {
        assert forall|i: int| 0 <= i < end - pos
            implies #[trigger] s.subrange(pos, end)[i] == (a + b)[i] by {
            if i < a.len() {
                assert(s.subrange(pos, pos + a.len())[i] == a[i]);
            } else {
                assert(s.subrange(pos + a.len(), end)[i - a.len()] == b[i - a.len()]);
            }
        }
    }
}

/// Append one integer's encoding to a buffer.
pub fn write_vint(buf: &mut Vec<u8>, n: u64)
    ensures
        final(buf)@ == old(buf)@ + vint(n as int),
{
    let ghost start = buf@;
    let mut x: u64 = n;
    while x >= 128
        invariant
            start + vint(n as int) =~= buf@ + vint(x as int),
        decreases x,
    {
        buf.push((x % 128 + 128) as u8);
        proof {
            assert(vint(x as int) == seq![(x % 128 + 128) as u8] + vint(x as int / 128));
            assert(start + vint(n as int) =~= buf@ + vint(x as int / 128));
        }
        x = x / 128;
    }
    buf.push(x as u8);
    proof {
        assert(vint(x as int) == seq![x as u8]);
        assert(buf@ =~= start + vint(n as int));
    }
}

/// Read one integer at `pos`, never looking at or past `end`.
///
/// The second postcondition is the one callers use: wherever a canonical
/// encoding stands, the reader returns exactly that integer and stops
/// exactly after it.
pub fn read_vint(buf: &[u8], pos: usize, end: usize) -> (r: Result<(u64, usize), Error>)
    requires
        pos <= end <= buf@.len(),
    ensures
        r matches Ok(o) ==> pos < o.1 <= end && o.1 == pos + vint(o.0 as int).len()
            && starts_with(buf@, pos as int, end as int, vint(o.0 as int)),
        forall|n: u64| #[trigger] starts_with(buf@, pos as int, end as int, vint(n as int))
            ==> r == Ok::<(u64, usize), Error>((n, (pos + vint(n as int).len()) as usize)),
    decreases end - pos,
{
    if pos >= end {
        proof {
            assert forall|n: u64| !starts_with(buf@, pos as int, end as int, vint(n as int)) by {
                assert(vint(n as int).len() >= 1) by {
                    if n < 128 {
                    } else {
                    }
                };
            }
        }
        return Err(Error::Decode("truncated integer".to_owned()));
    }
    let b = buf[pos];
    if b < 128 {
        proof {
            assert forall|n: u64| starts_with(buf@, pos as int, end as int, vint(n as int))
                implies n == b as u64 && vint(n as int).len() == 1 by {
                if n < 128 {
                    assert(vint(n as int) == seq![n as u8]);
                    assert(buf@.subrange(pos as int, pos + 1)[0] == n as u8);
                    assert(buf@[pos as int] == n as u8);
                } else {
                    assert(vint(n as int)[0] == (n % 128 + 128) as u8);
                    assert(buf@[pos as int] == (n % 128 + 128) as u8);
                    assert(b >= 128);
                }
            }
        }
        proof {
            assert(vint(b as int) == seq![b]);
            assert(buf@.subrange(pos as int, pos as int + 1) =~= seq![b]);
        }
        Ok((b as u64, pos + 1))
    } else {
        let rec = read_vint(buf, pos + 1, end);
        match rec {
            Ok((rest, rend)) => {
                if rest == 0 {
                    // a continuation byte followed by zero is no canonical
                    // encoding of anything
                    proof {
                        lemma_no_parse_here(buf@, pos as int, end as int, b, rest);
                    }
                    return Err(Error::Decode("redundant integer encoding".to_owned()));
                }
                if rest > (u64::MAX - (b - 128) as u64) / 128 {
                    proof {
                        lemma_no_parse_here(buf@, pos as int, end as int, b, rest);
                    }
                    return Err(Error::Decode("integer overflow".to_owned()));
                }
                let n = (b - 128) as u64 + 128 * rest;
                proof {
                    assert(n % 128 == (b - 128) as u64 && n / 128 == rest && n >= 128);
                    assert(vint(n as int) == seq![b] + vint(rest as int));
                    assert(starts_with(buf@, pos as int, end as int, vint(n as int))) by {
                        assert(buf@.subrange(pos as int, pos + vint(n as int).len()) =~= seq![b]
                            + vint(rest as int)) by {
                            assert forall|i: int| 0 <= i < 1 + vint(rest as int).len()
                                implies #[trigger] buf@.subrange(
                                    pos as int, pos + 1 + vint(rest as int).len())[i]
                                    == (seq![b] + vint(rest as int))[i] by {
                                if i > 0 {
                                    assert(buf@.subrange(pos + 1, pos + 1 + vint(rest as int).len())[
                                        i - 1] == vint(rest as int)[i - 1]);
                                }
                            }
                        }
                    }
                    assert forall|m: u64| starts_with(buf@, pos as int, end as int, vint(m as int))
                        implies m == n && (pos + vint(m as int).len()) as usize == rend by {
                        lemma_parse_step(buf@, pos as int, end as int, b, m as int);
                        // vint(m / 128) stands at pos + 1, so the recursive
                        // call returned exactly m / 128
                        assert(rest == m as int / 128 && rend == pos + 1 + vint(m as int / 128).len());
                        assert(m == (b - 128) as u64 + 128 * (m / 128)) by {
                            assert(m % 128 == (b - 128) as u64);
                        };
                    }
                }
                Ok((n, rend))
            },
            Err(e) => {
                proof {
                    assert forall|m: u64| !starts_with(buf@, pos as int, end as int, vint(m as int)) by {
                        if starts_with(buf@, pos as int, end as int, vint(m as int)) {
                            lemma_parse_step(buf@, pos as int, end as int, b, m as int);
                        }
                    }
                }
                Err(e)
            },
        }
    }
}

/// Only one integer's encoding can stand at a given position: the format
/// is self-delimiting.
pub proof fn lemma_vint_unique(s: Seq<u8>, pos: int, end: int, a: int, b: int)
    requires
        0 <= a,
        0 <= b,
        starts_with(s, pos, end, vint(a)),
        starts_with(s, pos, end, vint(b)),
    ensures
        a == b,
    decreases a,
{
    let c = s[pos];
    if a < 128 {
        assert(vint(a) == seq![a as u8]);
        assert(s.subrange(pos, pos + 1)[0] == a as u8);
        assert(c == a as u8);
        if b < 128 {
            assert(vint(b) == seq![b as u8]);
            assert(s.subrange(pos, pos + 1)[0] == b as u8);
        } else {
            assert(vint(b)[0] == (b % 128 + 128) as u8);
            assert(s.subrange(pos, pos + vint(b).len())[0] == vint(b)[0]);
            assert(false);
        }
    } else {
        assert(vint(a)[0] == (a % 128 + 128) as u8);
        assert(s.subrange(pos, pos + vint(a).len())[0] == vint(a)[0]);
        assert(c >= 128);
        lemma_parse_step(s, pos, end, c, a);
        lemma_parse_step(s, pos, end, c, b);
        lemma_vint_unique(s, pos + 1, end, a / 128, b / 128);
        assert(a % 128 == b % 128 && a / 128 == b / 128);
    }
}

/// If a canonical encoding of `m` stands at `pos` and the byte there has
/// its continuation bit set, then `m` is large and `vint(m / 128)` stands
/// right after that byte.
proof fn lemma_parse_step(s: Seq<u8>, pos: int, end: int, b: u8, m: int)
    requires
        0 <= m,
        starts_with(s, pos, end, vint(m)),
        pos < s.len(),
        s[pos] == b,
        b >= 128,
    ensures
        m >= 128,
        m % 128 == (b - 128) as int,
        starts_with(s, pos + 1, end, vint(m / 128)),
{
    if m < 128 {
        assert(vint(m) == seq![m as u8]);
        assert(s.subrange(pos, pos + 1)[0] == m as u8);
        assert(false);
    }
    assert(vint(m) == seq![(m % 128 + 128) as u8] + vint(m / 128));
    assert(s.subrange(pos, pos + vint(m).len())[0] == (m % 128 + 128) as u8);
    assert(s.subrange(pos + 1, pos + vint(m).len()) =~= vint(m / 128)) by {
        assert forall|i: int| 0 <= i < vint(m / 128).len()
            implies #[trigger] s.subrange(pos + 1, pos + vint(m).len())[i]
                == vint(m / 128)[i] by {
            assert(s.subrange(pos, pos + vint(m).len())[i + 1]
                == (seq![(m % 128 + 128) as u8] + vint(m / 128))[i + 1]);
        }
    }
}

/// No canonical encoding parses where the continuation byte `b` is
/// followed by a remainder that is zero or too large for the value range.
proof fn lemma_no_parse_here(s: Seq<u8>, pos: int, end: int, b: u8, rest: u64)
    requires
        pos < s.len(),
        s[pos] == b,
        b >= 128,
        pos < end <= s.len(),
        forall|n: u64| #[trigger] starts_with(s, pos + 1, end, vint(n as int))
            ==> rest == n,
        rest == 0 || rest > (u64::MAX - (b - 128) as u64) / 128,
    ensures
        forall|m: u64| !starts_with(s, pos, end, vint(m as int)),
{
    assert forall|m: u64| !starts_with(s, pos, end, vint(m as int)) by {
        if starts_with(s, pos, end, vint(m as int)) {
            lemma_parse_step(s, pos, end, b, m as int);
            assert(starts_with(s, pos + 1, end, vint((m / 128) as int)));
            assert(rest == m / 128);
            if rest == 0 {
                assert(m < 128);
            } else {
                // m = m % 128 + 128 * (m / 128) fits in u64, so the
                // remainder cannot exceed the overflow bound
                assert(m % 128 + 128 * (m / 128) == m);
                assert(128 * rest <= u64::MAX - (b - 128) as u64);
                assert(rest <= (u64::MAX - (b - 128) as u64) / 128);
            }
        }
    }
}

} // verus!
