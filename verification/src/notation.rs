//! Reading turn notation: a face letter (`U D L R F B`), optionally
//! followed by `'` for a counter-clockwise turn or `2` for a 180-degree
//! turn written as two clockwise quarter turns.

use vstd::prelude::*;
use vstd::string::StringSliceAdditionalSpecFns;
use crate::cube::{FaceDir, Turn, TurnDir};

verus! {

/// ASCII whitespace, as the parser trims it.
pub open spec fn is_space_byte(b: u8) -> bool {
    b == 32 || (9 <= b && b <= 13)
}

/// An ASCII lowercase letter raised to uppercase; other bytes unchanged.
pub open spec fn spec_upper_byte(b: u8) -> u8 {
    if 97 <= b && b <= 122 {
        (b - 32) as u8
    } else {
        b
    }
}

/// `bs` without leading ASCII whitespace.
pub open spec fn spec_trim_start(bs: Seq<u8>) -> Seq<u8>
    decreases bs.len(),
{
    if bs.len() > 0 && is_space_byte(bs[0]) {
        spec_trim_start(bs.drop_first())
    } else {
        bs
    }
}

/// `bs` without trailing ASCII whitespace.
pub open spec fn spec_trim_end(bs: Seq<u8>) -> Seq<u8>
    decreases bs.len(),
{
    if bs.len() > 0 && is_space_byte(bs[bs.len() - 1]) {
        spec_trim_end(bs.drop_last())
    } else {
        bs
    }
}

/// The face direction a byte string names: trimmed and raised to
/// uppercase, it must be exactly one of the six face letters.
pub open spec fn spec_face_dir_of_bytes(bs: Seq<u8>) -> Option<FaceDir> {
    let t = spec_trim_end(spec_trim_start(bs));
    if t.len() != 1 {
        Option::None
    } else {
        let b = spec_upper_byte(t[0]);
        if b == 85 {
            Option::Some(FaceDir::Up)
        } else if b == 68 {
            Option::Some(FaceDir::Down)
        } else if b == 76 {
            Option::Some(FaceDir::Left)
        } else if b == 82 {
            Option::Some(FaceDir::Right)
        } else if b == 70 {
            Option::Some(FaceDir::Front)
        } else if b == 66 {
            Option::Some(FaceDir::Back)
        } else {
            Option::None
        }
    }
}

/// The turns one token stands for: a trailing `'` asks for one
/// counter-clockwise turn of the named face, a trailing `2` for two
/// clockwise turns, anything else for one clockwise turn of the whole
/// token's face.
pub open spec fn spec_parse_token(bs: Seq<u8>) -> Option<Seq<Turn>> {
    if bs.len() == 0 {
        Option::None
    } else {
        let last = bs[bs.len() - 1];
        if last == 39 {
            match spec_face_dir_of_bytes(bs.drop_last()) {
                Option::Some(d) => Option::Some(
                    seq![Turn { face_dir: d, turn_dir: TurnDir::CounterClockwise }],
                ),
                Option::None => Option::None,
            }
        } else if last == 50 {
            match spec_face_dir_of_bytes(bs.drop_last()) {
                Option::Some(d) => Option::Some(
                    seq![
                        Turn { face_dir: d, turn_dir: TurnDir::Clockwise },
                        Turn { face_dir: d, turn_dir: TurnDir::Clockwise },
                    ],
                ),
                Option::None => Option::None,
            }
        } else {
            match spec_face_dir_of_bytes(bs) {
                Option::Some(d) => Option::Some(
                    seq![Turn { face_dir: d, turn_dir: TurnDir::Clockwise }],
                ),
                Option::None => Option::None,
            }
        }
    }
}

/// The turns of the first `i` tokens, or nothing if any of them is
/// invalid.
pub open spec fn spec_parse_upto(tokens: Seq<Seq<u8>>, i: int) -> Option<Seq<Turn>>
    decreases i,
{
    if i <= 0 {
        Option::Some(Seq::empty())
    } else {
        match spec_parse_upto(tokens, i - 1) {
            Option::None => Option::None,
            Option::Some(acc) => match spec_parse_token(tokens[i - 1]) {
                Option::None => Option::None,
                Option::Some(ts) => Option::Some(acc + ts),
            },
        }
    }
}

/// One invalid token makes the whole algorithm invalid.
proof fn lemma_parse_none_sticks(tokens: Seq<Seq<u8>>, i: int, j: int)
    requires
        0 <= i <= j,
        spec_parse_upto(tokens, i) is None,
    ensures
        spec_parse_upto(tokens, j) is None,
    decreases j - i,
{
    if i < j {
        lemma_parse_none_sticks(tokens, i, j - 1);
    }
}

/// The byte strings of a list of tokens.
pub open spec fn spec_token_bytes(tokens: Seq<&str>) -> Seq<Seq<u8>> {
    Seq::new(tokens.len(), |i: int| tokens[i].spec_bytes())
}

/// Whether `b` is ASCII whitespace.
fn is_space(b: u8) -> (r: bool)
    ensures
        r == is_space_byte(b),
{
    b == 32 || (9 <= b && b <= 13)
}

/// The slice `bs[from..to]` with ASCII whitespace trimmed from both ends,
/// reported as a narrowed index pair.
fn trim_range(bs: &[u8], from: usize, to: usize) -> (r: (usize, usize))
    requires
        from <= to <= bs@.len(),
    ensures
        from <= r.0 <= r.1 <= to,
        bs@.subrange(r.0 as int, r.1 as int) == spec_trim_end(
            spec_trim_start(bs@.subrange(from as int, to as int)),
        ),
{
    let mut a = from;
    let mut b = to;
    while a < b && is_space(bs[a])
        invariant
            from <= a <= b <= to <= bs@.len(),
            spec_trim_start(bs@.subrange(from as int, to as int)) == spec_trim_start(
                bs@.subrange(a as int, b as int),
            ),
        decreases b - a,
    {
        proof {
            let cur = bs@.subrange(a as int, b as int);
            assert(cur.drop_first() =~= bs@.subrange(a + 1, b as int));
        }
        a += 1;
    }
    proof {
        let cur = bs@.subrange(a as int, b as int);
        assert(spec_trim_start(cur) == cur);
    }
    while a < b && is_space(bs[b - 1])
        invariant
            from <= a <= b <= to <= bs@.len(),
            spec_trim_end(spec_trim_start(bs@.subrange(from as int, to as int)))
                == spec_trim_end(bs@.subrange(a as int, b as int)),
        decreases b,
    {
        proof {
            let cur = bs@.subrange(a as int, b as int);
            assert(cur.drop_last() =~= bs@.subrange(a as int, b - 1));
        }
        b -= 1;
    }
    proof {
        let cur = bs@.subrange(a as int, b as int);
        assert(spec_trim_end(cur) == cur);
    }
    (a, b)
}

/// The face direction named by `bs[from..to]`.
fn face_dir_of_byte_range(bs: &[u8], from: usize, to: usize) -> (r: Option<FaceDir>)
    requires
        from <= to <= bs@.len(),
    ensures
        r == spec_face_dir_of_bytes(bs@.subrange(from as int, to as int)),
{
    let (a, b) = trim_range(bs, from, to);
    let ghost t = spec_trim_end(spec_trim_start(bs@.subrange(from as int, to as int)));
    if b - a != 1 {
        return Option::None;
    }
    let c = bs[a];
    let up = if 97 <= c && c <= 122 {
        c - 32
    } else {
        c
    };
    proof {
        assert(t[0] == bs@.subrange(a as int, b as int)[0]);
    }
    if up == 85 {
        Option::Some(FaceDir::Up)
    } else if up == 68 {
        Option::Some(FaceDir::Down)
    } else if up == 76 {
        Option::Some(FaceDir::Left)
    } else if up == 82 {
        Option::Some(FaceDir::Right)
    } else if up == 70 {
        Option::Some(FaceDir::Front)
    } else if up == 66 {
        Option::Some(FaceDir::Back)
    } else {
        Option::None
    }
}

/// Parses a string naming one face: trimmed and case-blind, it must be one
/// of `U D L R F B`.
///
/// Trimming and case folding are ASCII only: notation is ASCII, and a
/// letter padded with whitespace from beyond ASCII is rejected rather than
/// trimmed.
pub fn string_to_face_dir(s: &String) -> (r: Option<FaceDir>)
    ensures
        r == spec_face_dir_of_bytes(vstd::utf8::encode_utf8(s@)),
{
    let bs = s.as_str().as_bytes();
    let n = bs.len();
    proof {
        assert(bs@.subrange(0, n as int) =~= bs@);
    }
    face_dir_of_byte_range(bs, 0, n)
}

/// Parses a list of tokens as a turn sequence, in the notation above.
/// Returns nothing when any token is invalid.
pub fn parse_algorithm(turns: Vec<&str>) -> (r: Option<Vec<Turn>>)
    ensures
        (match r {
            Option::Some(ts) => spec_parse_upto(
                spec_token_bytes(turns@),
                turns@.len() as int,
            ) matches Option::Some(sts) && sts == ts@,
            Option::None => spec_parse_upto(
                spec_token_bytes(turns@),
                turns@.len() as int,
            ) is None,
        }),
{
    let ghost toks = spec_token_bytes(turns@);
    let n = turns.len();
    let mut result: Vec<Turn> = Vec::new();
    let mut i: usize = 0;
    while i < n
        invariant
            n == turns@.len(),
            toks == spec_token_bytes(turns@),
            i <= n,
            spec_parse_upto(toks, i as int) matches Option::Some(acc) && acc == result@,
        decreases n - i,
    {
        let bs = turns[i].as_bytes();
        let len = bs.len();
        proof {
            assert(toks[i as int] == bs@);
        }
        if len == 0 {
            proof {
                lemma_parse_none_sticks(toks, i + 1, n as int);
            }
            return Option::None;
        }
        let last = bs[len - 1];
        let ghost acc0 = result@;
        if last == 39 {
            proof {
                assert(bs@.drop_last() =~= bs@.subrange(0, len - 1));
            }
            match face_dir_of_byte_range(bs, 0, len - 1) {
                Option::Some(d) => {
                    result.push(Turn { face_dir: d, turn_dir: TurnDir::CounterClockwise });
                    proof {
                        assert(result@ =~= acc0 + seq![
                            Turn { face_dir: d, turn_dir: TurnDir::CounterClockwise },
                        ]);
                    }
                },
                Option::None => {
                    proof {
                        lemma_parse_none_sticks(toks, i + 1, n as int);
                    }
                    return Option::None;
                },
            }
        } else if last == 50 {
            proof {
                assert(bs@.drop_last() =~= bs@.subrange(0, len - 1));
            }
            match face_dir_of_byte_range(bs, 0, len - 1) {
                Option::Some(d) => {
                    result.push(Turn { face_dir: d, turn_dir: TurnDir::Clockwise });
                    result.push(Turn { face_dir: d, turn_dir: TurnDir::Clockwise });
                    proof {
                        assert(result@ =~= acc0 + seq![
                            Turn { face_dir: d, turn_dir: TurnDir::Clockwise },
                            Turn { face_dir: d, turn_dir: TurnDir::Clockwise },
                        ]);
                    }
                },
                Option::None => {
                    proof {
                        lemma_parse_none_sticks(toks, i + 1, n as int);
                    }
                    return Option::None;
                },
            }
        } else {
            proof {
                assert(bs@.subrange(0, len as int) =~= bs@);
            }
            match face_dir_of_byte_range(bs, 0, len) {
                Option::Some(d) => {
                    result.push(Turn { face_dir: d, turn_dir: TurnDir::Clockwise });
                    proof {
                        assert(result@ =~= acc0 + seq![
                            Turn { face_dir: d, turn_dir: TurnDir::Clockwise },
                        ]);
                    }
                },
                Option::None => {
                    proof {
                        lemma_parse_none_sticks(toks, i + 1, n as int);
                    }
                    return Option::None;
                },
            }
        }
        i += 1;
    }
    Option::Some(result)
}

} // verus!
