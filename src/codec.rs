use vstd::prelude::*;
use vstd::string::StrSliceExecFns;
use crate::hex::BitBoard;

verus! {

/// Why a board encoding was refused.
#[derive(PartialEq, Eq, Structural, Clone, Copy, Debug)]
pub enum ParseBoardError {
    /// The encoding is not 32 characters long.
    WrongLength,
    /// A character is not a hexadecimal digit.
    NotHex,
    /// Both players claim some cell.
    Overlap,
}

/// The value of a hexadecimal digit (either case), if it is one.
pub open spec fn hex_digit(c: char) -> Option<nat> {
    if '0' <= c && c <= '9' {
        Some((c as nat - '0' as nat) as nat)
    } else if 'a' <= c && c <= 'f' {
        Some((c as nat - 'a' as nat + 10) as nat)
    } else if 'A' <= c && c <= 'F' {
        Some((c as nat - 'A' as nat + 10) as nat)
    } else {
        None
    }
}

pub open spec fn all_hex(cs: Seq<char>) -> bool {
    forall|i: int| 0 <= i < cs.len() ==> (#[trigger] hex_digit(cs[i])) is Some
}

/// The number that a string of hexadecimal digits writes, most
/// significant digit first.
pub open spec fn hex_value(cs: Seq<char>) -> nat
    decreases cs.len(),
{
    if cs.len() == 0 {
        0
    } else {
        hex_value(cs.drop_last()) * 16 + hex_digit(cs.last())->0
    }
}

/// A board encoding: 32 hexadecimal digits, the first 16 the first
/// player's occupancy mask and the last 16 the second's; the two masks
/// must not share a cell.
pub open spec fn parse_spec(cs: Seq<char>) -> Result<(u64, u64), ParseBoardError> {
    if cs.len() != 32 {
        Err(ParseBoardError::WrongLength)
    } else if !all_hex(cs) {
        Err(ParseBoardError::NotHex)
    } else {
        let p0 = hex_value(cs.subrange(0, 16)) as u64;
        let p1 = hex_value(cs.subrange(16, 32)) as u64;
        if p0 & p1 != 0 {
            Err(ParseBoardError::Overlap)
        } else {
            Ok((p0, p1))
        }
    }
}

fn digit_value(c: char) -> (r: Option<u64>)
    ensures
        r matches Some(v) ==> hex_digit(c) == Some(v as nat) && v < 16,
        r is None ==> hex_digit(c) is None,
{
    if '0' <= c && c <= '9' {
        Some((c as u32 - '0' as u32) as u64)
    } else if 'a' <= c && c <= 'f' {
        Some((c as u32 - 'a' as u32 + 10) as u64)
    } else if 'A' <= c && c <= 'F' {
        Some((c as u32 - 'A' as u32 + 10) as u64)
    } else {
        None
    }
}

pub open spec fn pow16(k: nat) -> nat
    decreases k,
{
    if k == 0 {
        1
    } else {
        16 * pow16((k - 1) as nat)
    }
}

proof fn lemma_pow16_mono(i: nat, j: nat)
    requires
        i <= j,
    ensures
        pow16(i) <= pow16(j),
    decreases j,
{
    if i < j {
        lemma_pow16_mono(i, (j - 1) as nat);
    }
}

/// Reads the 16 hexadecimal digits of `s` from character `start` on.
fn read_hex16(s: &str, start: usize) -> (r: Option<u64>)
    requires
        start + 16 <= s@.len(),
        s@.len() <= usize::MAX,
    ensures
        r is Some <==> all_hex(s@.subrange(start as int, start + 16)),
        r matches Some(v) ==> v as nat == hex_value(s@.subrange(start as int, start + 16)),
{
    let ghost cs = s@.subrange(start as int, start + 16);
    let mut acc: u64 = 0;
    let mut i: usize = 0;
    proof {
        reveal_with_fuel(pow16, 17);
        assert(pow16(15) == 0x1000_0000_0000_0000);
    }
    while i < 16
        invariant
            start + 16 <= s@.len(),
            s@.len() <= usize::MAX,
            cs == s@.subrange(start as int, start + 16),
            i <= 16,
            all_hex(cs.subrange(0, i as int)),
            acc as nat == hex_value(cs.subrange(0, i as int)),
            acc < pow16(i as nat),
            pow16(15) == 0x1000_0000_0000_0000,
        decreases 16 - i,
    {
        let c = s.get_char(start + i);
        assert(c == cs[i as int]);
        match digit_value(c) {
            Some(d) => {
                proof {
                    lemma_pow16_mono(i as nat, 15);
                    assert(cs.subrange(0, i + 1).drop_last() =~= cs.subrange(0, i as int));
                    assert(cs.subrange(0, i + 1).last() == c);
                    assert forall|j: int| 0 <= j < i + 1 implies (#[trigger] hex_digit(cs.subrange(0, i + 1)[j])) is Some by {
                        if j < i {
                            assert(cs.subrange(0, i + 1)[j] == cs.subrange(0, i as int)[j]);
                        }
                    }
                    assert(acc * 16 + d < pow16((i + 1) as nat)) by (nonlinear_arith)
                        requires
                            acc < pow16(i as nat),
                            d < 16,
                            pow16((i + 1) as nat) == 16 * pow16(i as nat),
                    ;
                    assert(acc * 16 + d <= 0xffff_ffff_ffff_ffff) by (nonlinear_arith)
                        requires
                            acc < pow16(i as nat),
                            pow16(i as nat) <= 0x1000_0000_0000_0000,
                            d < 16,
                    ;
                }
                acc = acc * 16 + d;
            },
            None => {
                proof {
                    assert(cs[i as int] == c);
                }
                return None;
            },
        }
        i = i + 1;
    }
    assert(cs.subrange(0, 16) =~= cs);
    Some(acc)
}

/// Decodes a board (see `parse_spec`); the outcome is left to be computed.
pub fn parse_board_hex(s: &str) -> (r: Result<BitBoard, ParseBoardError>)
    ensures
        match parse_spec(s@) {
            Ok((p0, p1)) => r matches Ok(b) && b.p0.bits == p0 && b.p1.bits == p1 && b.outcome is None,
            Err(e) => r == Err::<BitBoard, ParseBoardError>(e),
        },
{
    if s.unicode_len() != 32 {
        return Err(ParseBoardError::WrongLength);
    }
    let first = read_hex16(s, 0);
    let second = read_hex16(s, 16);
    proof {
        let cs = s@;
        if all_hex(cs) {
            assert(all_hex(cs.subrange(0, 16)));
            assert(all_hex(cs.subrange(16, 32)));
        } else {
            let j = choose|j: int| 0 <= j < cs.len() && (#[trigger] hex_digit(cs[j])) is None;
            if j < 16 {
                assert(cs.subrange(0, 16)[j] == cs[j]);
            } else {
                assert(cs.subrange(16, 32)[j - 16] == cs[j]);
            }
        }
        if all_hex(cs.subrange(0, 16)) && all_hex(cs.subrange(16, 32)) {
            assert forall|j: int| 0 <= j < cs.len() implies (#[trigger] hex_digit(cs[j])) is Some by {
                if j < 16 {
                    assert(cs.subrange(0, 16)[j] == cs[j]);
                } else {
                    assert(cs.subrange(16, 32)[j - 16] == cs[j]);
                }
            }
        }
    }
    match (first, second) {
        (Some(p0), Some(p1)) => {
            if p0 & p1 != 0 {
                Err(ParseBoardError::Overlap)
            } else {
                Ok(BitBoard::make(p0, p1))
            }
        },
        _ => Err(ParseBoardError::NotHex),
    }
}

} // verus!
