//! Time-ordered 128-bit request identifiers.
//!
//! An identifier packs a 48-bit millisecond timestamp into its most
//! significant bits, fixed version and variant markers, and random bits in
//! the remainder, so that identifiers sort roughly by creation time while
//! staying collision-resistant without coordination.

use vstd::prelude::*;

verus! {

/// The millisecond timestamp held in the top 48 bits of an identifier.
pub open spec fn timestamp_of(bits: u128) -> u128 {
    bits >> 80
}

/// The fixed marker bits of the time-ordered scheme: a version field of 7
/// in bits 76..80 and a variant field of 2 in bits 62..64.
pub open spec fn has_v7_markers(bits: u128) -> bool {
    &&& (bits >> 76) & 0xf == 7
    &&& (bits >> 62) & 0x3 == 2
}

/// A unique, time-ordered per-request identifier. Immutable once created.
#[derive(Clone, Copy, PartialEq, Eq, Structural, Debug)]
pub struct RequestId {
    bits: u128,
}

impl RequestId {
    /// The raw 128-bit value.
    pub fn bits(&self) -> (r: u128)
        ensures
            r == self.spec_bits(),
    {
        self.bits
    }

    pub closed spec fn spec_bits(&self) -> u128 {
        self.bits
    }

    /// Packs a millisecond timestamp, 12 random bits and 62 random bits
    /// into the time-ordered layout.
    pub fn from_parts(millis: u64, rand_a: u16, rand_b: u64) -> (r: RequestId)
        requires
            millis < 0x1_0000_0000_0000,
            rand_a < 0x1000,
            rand_b < 0x4000_0000_0000_0000,
        ensures
            timestamp_of(r.spec_bits()) == millis,
            has_v7_markers(r.spec_bits()),
    {
        let bits: u128 = ((millis as u128) << 80) | (0x7u128 << 76) | ((rand_a as u128) << 64)
            | (0x2u128 << 62) | (rand_b as u128);
        proof {
            lemma_from_parts_layout(millis, rand_a, rand_b);
        }
        RequestId { bits }
    }

    /// The millisecond timestamp packed into the top 48 bits.
    pub fn timestamp_millis(&self) -> (r: u64)
        ensures
            r == timestamp_of(self.spec_bits()),
            r < 0x1_0000_0000_0000,
    {
        let bb: u128 = self.bits;
        proof {
            assert(bb >> 80 < 0x1_0000_0000_0000) by (bit_vector);
        }
        (bb >> 80) as u64
    }

    /// Draws one fresh time-ordered identifier.
    pub fn generate() -> (r: RequestId)
        ensures
            has_v7_markers(r.spec_bits()),
    {
        RequestId { bits: fresh_time_ordered_bits() }
    }

    /// The canonical lowercase hyphenated hex string of this identifier.
    pub fn canonical(&self) -> (r: String)
        ensures
            r@ == spec_canonical(self.spec_bits()),
            is_canonical_form(r@),
    {
        let mut out = String::new();
        let mut i: usize = 0;
        while i < 36
            invariant
                i <= 36,
                out@ == spec_canonical(self.bits).take(i as int),
            decreases 36 - i,
        {
            if i == 8 || i == 13 || i == 18 || i == 23 {
                proof {
                    reveal_strlit("-");
                }
                out.append("-");
            } else {
                let hi: usize = if i < 8 {
                    i
                } else if i < 13 {
                    i - 1
                } else if i < 18 {
                    i - 2
                } else if i < 23 {
                    i - 3
                } else {
                    i - 4
                };
                let sh: u128 = (4 * (31 - hi)) as u128;
                let bb: u128 = self.bits;
                let nib: u128 = (bb >> sh) & 0xf;
                proof {
                    assert((bb >> sh) & 0xf < 16) by (bit_vector);
                }
                out.append(hex_str(nib as u8));
            }
            proof {
                assert(out@ =~= spec_canonical(self.bits).take(i + 1));
            }
            i = i + 1;
        }
        proof {
            assert(out@ =~= spec_canonical(self.bits));
            lemma_canonical_is_well_formed(self.bits);
        }
        out
    }
}

/// Relies on uuid::Uuid::now_v7 (read through uuid::Uuid::as_u128, which
/// yields the big-endian 128-bit value): whatever timestamp and random bits
/// it draws, the identifier it builds carries version nibble 7 and variant
/// bits binary 10.
#[verifier::external_body]
fn fresh_time_ordered_bits() -> (r: u128)
    ensures
        has_v7_markers(r),
{
    uuid::Uuid::now_v7().as_u128()
}

proof fn lemma_from_parts_layout(millis: u64, rand_a: u16, rand_b: u64)
    requires
        millis < 0x1_0000_0000_0000,
        rand_a < 0x1000,
        rand_b < 0x4000_0000_0000_0000,
    ensures
        ({
            let bits = ((millis as u128) << 80) | (0x7u128 << 76) | ((rand_a as u128) << 64)
                | (0x2u128 << 62) | (rand_b as u128);
            timestamp_of(bits) == millis && has_v7_markers(bits)
        }),
{
    let bits = ((millis as u128) << 80) | (0x7u128 << 76) | ((rand_a as u128) << 64)
        | (0x2u128 << 62) | (rand_b as u128);
    assert(millis < 0x1_0000_0000_0000 && rand_a < 0x1000 && rand_b < 0x4000_0000_0000_0000
        ==> (bits >> 80 == millis && (bits >> 76) & 0xf == 7 && (bits >> 62) & 0x3 == 2))
        by (bit_vector)
        requires
            bits == ((millis as u128) << 80) | (0x7u128 << 76) | ((rand_a as u128) << 64)
                | (0x2u128 << 62) | (rand_b as u128),
    ;
}

/// The lowercase hex digit that stands for `n`.
pub open spec fn hex_char(n: int) -> char {
    if n == 0 {
        '0'
    } else if n == 1 {
        '1'
    } else if n == 2 {
        '2'
    } else if n == 3 {
        '3'
    } else if n == 4 {
        '4'
    } else if n == 5 {
        '5'
    } else if n == 6 {
        '6'
    } else if n == 7 {
        '7'
    } else if n == 8 {
        '8'
    } else if n == 9 {
        '9'
    } else if n == 10 {
        'a'
    } else if n == 11 {
        'b'
    } else if n == 12 {
        'c'
    } else if n == 13 {
        'd'
    } else if n == 14 {
        'e'
    } else {
        'f'
    }
}

/// The `i`-th hex digit of `b`, counting from the most significant nibble.
pub open spec fn nibble_of(b: u128, i: int) -> int {
    ((b >> ((4 * (31 - i)) as u128)) & 0xf) as int
}

/// Which of the 32 hex digits stands at position `i` of the canonical,
/// hyphenated form (positions 8, 13, 18 and 23 hold hyphens).
pub open spec fn hex_index(i: int) -> int {
    if i < 8 {
        i
    } else if i < 13 {
        i - 1
    } else if i < 18 {
        i - 2
    } else if i < 23 {
        i - 3
    } else {
        i - 4
    }
}

pub open spec fn is_hyphen_position(i: int) -> bool {
    i == 8 || i == 13 || i == 18 || i == 23
}

pub open spec fn canonical_char(b: u128, i: int) -> char {
    if is_hyphen_position(i) {
        '-'
    } else {
        hex_char(nibble_of(b, hex_index(i)))
    }
}

/// The canonical lowercase hyphenated hex form of a 128-bit identifier:
/// 36 characters, groups of 8, 4, 4, 4 and 12 hex digits.
pub open spec fn spec_canonical(b: u128) -> Seq<char> {
    Seq::new(36, |i: int| canonical_char(b, i))
}

/// A well-formed canonical identifier string: exactly 36 characters,
/// hyphens at positions 8, 13, 18 and 23, lowercase hex digits elsewhere.
pub open spec fn is_canonical_form(s: Seq<char>) -> bool {
    &&& s.len() == 36
    &&& forall|i: int|
        0 <= i < 36 ==> (if is_hyphen_position(i) {
            s[i] == '-'
        } else {
            is_lower_hex_char(#[trigger] s[i])
        })
}

pub open spec fn is_lower_hex_char(c: char) -> bool {
    ('0' <= c && c <= '9') || ('a' <= c && c <= 'f')
}

/// Every canonical form is a well-formed identifier string.
pub proof fn lemma_canonical_is_well_formed(b: u128)
    ensures
        is_canonical_form(spec_canonical(b)),
{
    assert forall|i: int| 0 <= i < 36 && !is_hyphen_position(i) implies is_lower_hex_char(
        spec_canonical(b)[i],
    ) by {
        let n = nibble_of(b, hex_index(i));
        assert(0 <= n < 16) by {
            let sh = (4 * (31 - hex_index(i))) as u128;
            assert((b >> sh) & 0xf < 16) by (bit_vector);
        }
    }
}

fn hex_str(n: u8) -> (s: &'static str)
    requires
        n < 16,
    ensures
        s@.len() == 1,
        s@[0] == hex_char(n as int),
{
    match n {
        0 => {
            proof {
                reveal_strlit("0");
            }
            "0"
        },
        1 => {
            proof {
                reveal_strlit("1");
            }
            "1"
        },
        2 => {
            proof {
                reveal_strlit("2");
            }
            "2"
        },
        3 => {
            proof {
                reveal_strlit("3");
            }
            "3"
        },
        4 => {
            proof {
                reveal_strlit("4");
            }
            "4"
        },
        5 => {
            proof {
                reveal_strlit("5");
            }
            "5"
        },
        6 => {
            proof {
                reveal_strlit("6");
            }
            "6"
        },
        7 => {
            proof {
                reveal_strlit("7");
            }
            "7"
        },
        8 => {
            proof {
                reveal_strlit("8");
            }
            "8"
        },
        9 => {
            proof {
                reveal_strlit("9");
            }
            "9"
        },
        10 => {
            proof {
                reveal_strlit("a");
            }
            "a"
        },
        11 => {
            proof {
                reveal_strlit("b");
            }
            "b"
        },
        12 => {
            proof {
                reveal_strlit("c");
            }
            "c"
        },
        13 => {
            proof {
                reveal_strlit("d");
            }
            "d"
        },
        14 => {
            proof {
                reveal_strlit("e");
            }
            "e"
        },
        _ => {
            proof {
                reveal_strlit("f");
            }
            "f"
        },
    }
}

/// Strict lexicographic order on character sequences, by code point; for
/// ASCII content this is the order `str` comparison uses.
pub open spec fn lex_lt(a: Seq<char>, b: Seq<char>) -> bool {
    ||| (a.len() < b.len() && (forall|j: int| 0 <= j < a.len() ==> a[j] == b[j]))
    ||| (exists|k: int|
        0 <= k < a.len() && k < b.len() && (forall|j: int| 0 <= j < k ==> a[j] == b[j]) && (
        #[trigger] a[k] as u32) < (b[k] as u32))
}

proof fn lemma_nibble_first_diff(a: u128, b: u128, k: int)
    requires
        a < b,
        0 <= k < 32,
        k == 0 || (a >> ((4 * (32 - k)) as u128)) == (b >> ((4 * (32 - k)) as u128)),
    ensures
        exists|m: int|
            k <= m < 32 && (forall|j: int| k <= j < m ==> nibble_of(a, j) == nibble_of(b, j))
                && nibble_of(a, #[trigger] (m + 0)) < nibble_of(b, m),
    decreases 32 - k,
{
    let sh: u128 = (4 * (32 - k)) as u128;
    let shn: u128 = (4 * (31 - k)) as u128;
    if nibble_of(a, k) == nibble_of(b, k) {
        if k == 31 {
            assert(false) by (bit_vector)
                requires
                    a < b,
                    (a >> 4u128) == (b >> 4u128),
                    (a >> 0u128) & 0xf == (b >> 0u128) & 0xf,
            ;
        } else {
            if k == 0 {
                assert((a >> 124u128) == (b >> 124u128)) by (bit_vector)
                    requires
                        (a >> 124u128) & 0xf == (b >> 124u128) & 0xf,
                ;
            } else {
                assert((a >> shn) == (b >> shn)) by (bit_vector)
                    requires
                        4 <= sh <= 124,
                        shn == sh - 4,
                        (a >> sh) == (b >> sh),
                        (a >> shn) & 0xf == (b >> shn) & 0xf,
                ;
            }
            lemma_nibble_first_diff(a, b, k + 1);
            let m = choose|m: int|
                k + 1 <= m < 32 && (forall|j: int|
                    k + 1 <= j < m ==> nibble_of(a, j) == nibble_of(b, j)) && nibble_of(
                    a,
                    #[trigger] (m + 0),
                ) < nibble_of(b, m);
            assert(forall|j: int| k <= j < m ==> nibble_of(a, j) == nibble_of(b, j));
            assert(nibble_of(a, m + 0) < nibble_of(b, m));
        }
    } else {
        if k == 0 {
            assert((a >> 124u128) & 0xf <= (b >> 124u128) & 0xf) by (bit_vector)
                requires
                    a < b,
            ;
        } else {
            assert((a >> shn) & 0xf <= (b >> shn) & 0xf) by (bit_vector)
                requires
                    a < b,
                    4 <= sh <= 124,
                    shn == sh - 4,
                    (a >> sh) == (b >> sh),
            ;
        }
        assert(nibble_of(a, k + 0) < nibble_of(b, k));
    }
}

proof fn lemma_hex_char_monotone(n1: int, n2: int)
    requires
        0 <= n1 < n2 < 16,
    ensures
        (hex_char(n1) as u32) < (hex_char(n2) as u32),
{
}

/// Which position of the canonical 36-character form carries the `m`-th
/// hex digit.
pub open spec fn position_of_nibble(m: int) -> int {
    if m < 8 {
        m
    } else if m < 12 {
        m + 1
    } else if m < 16 {
        m + 2
    } else if m < 20 {
        m + 3
    } else {
        m + 4
    }
}

/// A smaller 128-bit value has a lexicographically smaller canonical
/// string: the hyphenated lowercase hex form sorts exactly as the raw
/// values do.
pub proof fn lemma_canonical_preserves_order(a: u128, b: u128)
    requires
        a < b,
    ensures
        lex_lt(spec_canonical(a), spec_canonical(b)),
{
    lemma_nibble_first_diff(a, b, 0);
    let m = choose|m: int|
        0 <= m < 32 && (forall|j: int| 0 <= j < m ==> nibble_of(a, j) == nibble_of(b, j))
            && nibble_of(a, #[trigger] (m + 0)) < nibble_of(b, m);
    let p = position_of_nibble(m);
    assert(!is_hyphen_position(p));
    assert(hex_index(p) == m);
    assert(forall|j: int|
        0 <= j < p && !is_hyphen_position(j) ==> #[trigger] hex_index(j) < m);
    let sa = spec_canonical(a);
    let sb = spec_canonical(b);
    assert forall|j: int| 0 <= j < p implies sa[j] == sb[j] by {
        if !is_hyphen_position(j) {
            assert(nibble_of(a, hex_index(j)) == nibble_of(b, hex_index(j)));
        }
    }
    let na = nibble_of(a, m);
    let nb = nibble_of(b, m);
    assert(0 <= na < 16 && 0 <= nb < 16) by {
        let sh = (4 * (31 - m)) as u128;
        assert((a >> sh) & 0xf < 16 && (b >> sh) & 0xf < 16) by (bit_vector);
    }
    lemma_hex_char_monotone(na, nb);
    assert((sa[p] as u32) < (sb[p] as u32));
}

/// Distinct identifiers never share a canonical string.
pub proof fn lemma_canonical_injective(a: u128, b: u128)
    requires
        a != b,
    ensures
        spec_canonical(a) != spec_canonical(b),
{
    let sa = spec_canonical(a);
    let sb = spec_canonical(b);
    if a < b {
        lemma_canonical_preserves_order(a, b);
        if sa == sb {
            let k = choose|k: int|
                0 <= k < sa.len() && k < sb.len() && (forall|j: int| 0 <= j < k ==> sa[j] == sb[j])
                    && (#[trigger] sa[k] as u32) < (sb[k] as u32);
            assert(sa[k] == sb[k]);
            assert(false);
        }
    } else {
        lemma_canonical_preserves_order(b, a);
        if sa == sb {
            let k = choose|k: int|
                0 <= k < sb.len() && k < sa.len() && (forall|j: int| 0 <= j < k ==> sb[j] == sa[j])
                    && (#[trigger] sb[k] as u32) < (sa[k] as u32);
            assert(sb[k] == sa[k]);
            assert(false);
        }
    }
}

/// An identifier whose timestamp field is strictly later compares strictly
/// greater, whatever its random bits hold: as a raw 128-bit value and as a
/// canonical string alike.
pub proof fn lemma_timestamp_order(a: u128, b: u128)
    requires
        timestamp_of(a) < timestamp_of(b),
    ensures
        a < b,
        lex_lt(spec_canonical(a), spec_canonical(b)),
{
    assert(a >> 80 < b >> 80 ==> a < b) by (bit_vector);
    lemma_canonical_preserves_order(a, b);
}

} // verus!
