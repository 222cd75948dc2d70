//! A three-axis classifier for byte blocks and the dispatcher that acts on
//! its coordinates.

use crate::tri_compress::{compress, encoded, fit, zero_free_prefix, zero_position};
use vstd::prelude::*;

verus! {

/// The coordinates of a block: structure, complexity and temporal pattern.
#[derive(Debug, Clone, Copy, PartialEq, Eq, Structural)]
pub struct Coordinates(pub u8, pub u8, pub u8);

/// The classifier and dispatcher; it holds no state.
pub struct TriMotor;

/// The number of positions of `s` whose byte differs from the next one.
pub open spec fn changes(s: Seq<u8>) -> nat
    decreases s.len(),
{
    if s.len() < 2 {
        0
    } else {
        changes(s.drop_last()) + if s[s.len() - 2] != s[s.len() - 1] {
            1nat
        } else {
            0nat
        }
    }
}

/// The structure axis: the length modulo 5.
pub open spec fn structure_axis(s: Seq<u8>) -> u8 {
    (s.len() % 5) as u8
}

/// The complexity axis: 0 below 10 bytes, 1 below 50, 2 from there on.
pub open spec fn complexity_axis(s: Seq<u8>) -> u8 {
    if s.len() < 10 {
        0
    } else if s.len() < 50 {
        1
    } else {
        2
    }
}

/// The temporal axis, by the share of positions that differ from their
/// successor: 3 above four fifths, 2 above one half, 1 otherwise.
pub open spec fn temporal_axis(s: Seq<u8>) -> u8 {
    if 5 * changes(s) > 4 * s.len() {
        3
    } else if 2 * changes(s) > s.len() {
        2
    } else {
        1
    }
}

/// The coordinates of `s`.
pub open spec fn classified(s: Seq<u8>) -> Coordinates {
    Coordinates(structure_axis(s), complexity_axis(s), temporal_axis(s))
}

/// Whether coordinates select the compressing profile.
pub open spec fn selects_compression(coords: Coordinates) -> bool {
    coords.0 == 1 && (coords.1 == 0 || coords.1 == 1) && coords.2 == 3
}

/// The result of the dispatcher: under the compressing profile the encoded
/// form of the first 32 bytes (zero-padded), up to its first zero byte; the
/// data itself under all other coordinates.
pub open spec fn executed(coords: Coordinates, s: Seq<u8>) -> Seq<u8> {
    if selects_compression(coords) {
        let block = encoded(fit(s));
        block.take(zero_free_prefix(block) as int)
    } else {
        s
    }
}

/// The distance between two axis values.
pub open spec fn gap(a: u8, b: u8) -> int {
    if a < b {
        b - a
    } else {
        a - b
    }
}

/// The resonance between two sets of coordinates: a third of the sum of their
/// distances on the three axes, rounded down.
pub open spec fn resonance(last: Coordinates, current: Coordinates) -> int {
    (gap(last.0, current.0) + gap(last.1, current.1) + gap(last.2, current.2)) / 3
}

fn axis_gap(a: u8, b: u8) -> (d: u16)
    ensures
        d == gap(a, b),
{
    if a < b {
        (b - a) as u16
    } else {
        (a - b) as u16
    }
}

impl TriMotor {
    /// Classifies a block by its length and by how often neighbouring bytes
    /// differ.
    pub fn classify(data: &[u8]) -> (coords: Coordinates)
        ensures
            coords == classified(data@),
    {
        let len = data.len();
        let x = (len % 5) as u8;
        let y: u8 = if len < 10 {
            0
        } else if len < 50 {
            1
        } else {
            2
        };
        let unique = Self::estimate_uniqueness(data);
        let z: u8 = if unique as u128 * 5 > len as u128 * 4 {
            3
        } else if unique as u128 * 2 > len as u128 {
            2
        } else {
            1
        };
        Coordinates(x, y, z)
    }

    /// Counts the positions whose byte differs from the next one.
    fn estimate_uniqueness(data: &[u8]) -> (count: usize)
        ensures
            count == changes(data@),
            count <= data@.len(),
    {
        if data.len() == 0 {
            return 0;
        }
        let mut unique_count: usize = 0;
        let mut i: usize = 0;
        proof {
            assert(data@.take(1).len() == 1);
        }
        while i < data.len() - 1
            invariant
                data@.len() > 0,
                i <= data@.len() - 1,
                unique_count == changes(data@.take(i + 1)),
                unique_count <= i,
            decreases data@.len() - i,
        {
            proof {
                let longer = data@.take(i + 2);
                assert(longer.drop_last() =~= data@.take(i + 1));
            }
            if data[i] != data[i + 1] {
                unique_count += 1;
            }
            i += 1;
        }
        proof {
            assert(data@.take(i + 1) =~= data@);
        }
        unique_count
    }

    /// Dispatches on the coordinates: the encoded block under the compressing
    /// profile, a copy of the data under every other.
    pub fn execute(coords: Coordinates, data: &[u8]) -> (out: Vec<u8>)
        ensures
            out@ == executed(coords, data@),
    {
        if coords.0 == 1 && (coords.1 == 0 || coords.1 == 1) && coords.2 == 3 {
            let mut padded = [0u8;32];
            let len: usize = if data.len() < 32 {
                data.len()
            } else {
                32
            };
            let mut i: usize = 0;
            while i < len
                invariant
                    i <= len,
                    len <= 32,
                    len <= data@.len(),
                    forall|j: int|
                        0 <= j < 32 ==> #[trigger] padded@[j] == (if j < i {
                            data@[j]
                        } else {
                            0u8
                        }),
                decreases len - i,
            {
                padded[i] = data[i];
                i += 1;
            }
            assert(padded@ =~= fit(data@));
            let compressed = compress(&padded);
            let comp_end = zero_position(&compressed);
            let mut out: Vec<u8> = Vec::new();
            let mut k: usize = 0;
            while k < comp_end
                invariant
                    k <= comp_end,
                    comp_end <= 64,
                    out@ == compressed@.take(k as int),
                decreases comp_end - k,
            {
                out.push(compressed[k]);
                proof {
                    assert(compressed@.take(k + 1) =~= compressed@.take(k as int).push(
                        compressed@[k as int],
                    ));
                }
                k += 1;
            }
            out
        } else {
            let mut out: Vec<u8> = Vec::new();
            let mut k: usize = 0;
            while k < data.len()
                invariant
                    k <= data@.len(),
                    out@ == data@.take(k as int),
                decreases data@.len() - k,
            {
                out.push(data[k]);
                proof {
                    assert(data@.take(k + 1) =~= data@.take(k as int).push(data@[k as int]));
                }
                k += 1;
            }
            proof {
                assert(data@.take(k as int) =~= data@);
            }
            out
        }
    }

    /// The resonance between the previous coordinates and the current ones;
    /// zero where there are no previous ones.
    pub fn resonance_state(last: Option<Coordinates>, current: Coordinates) -> (r: u8)
        ensures
            r == match last {
                Some(prev) => resonance(prev, current),
                None => 0,
            },
    {
        match last {
            Some(prev) => {
                let dx = axis_gap(prev.0, current.0);
                let dy = axis_gap(prev.1, current.1);
                let dz = axis_gap(prev.2, current.2);
                ((dx + dy + dz) / 3) as u8
            },
            None => 0,
        }
    }
}

/// Classifies a block; see `TriMotor::classify`.
pub fn classify(data: &[u8]) -> (coords: Coordinates)
    ensures
        coords == classified(data@),
{
    TriMotor::classify(data)
}

/// Dispatches on the coordinates; see `TriMotor::execute`.
pub fn execute(coords: Coordinates, data: &[u8]) -> (out: Vec<u8>)
    ensures
        out@ == executed(coords, data@),
{
    TriMotor::execute(coords, data)
}

/// One full pass: the coordinates of the data, what the dispatcher makes of
/// the data under them, and the resonance of a first pass, which is zero.
pub fn full_cycle(data: &[u8]) -> (out: (Coordinates, Vec<u8>, u8))
    ensures
        out.0 == classified(data@),
        out.1@ == executed(classified(data@), data@),
        out.2 == 0,
{
    let coords = classify(data);
    let result = execute(coords, data);
    let resonance = TriMotor::resonance_state(None, coords);
    (coords, result, resonance)
}

} // verus!
