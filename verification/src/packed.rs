//! A mask packed into one byte, with 0 kept free for "not computed yet".

use vstd::prelude::*;
use vstd::std_specs::convert::FromSpecImpl;
use crate::feedback::Correctness;

verus! {

/// Number of different masks.
pub const MAX_MASK_ENUM: usize = 3 * 3 * 3 * 3 * 3;

/// The base-3 digit of a verdict.
pub open spec fn digit(c: Correctness) -> int {
    match c {
        Correctness::Correct => 0,
        Correctness::Misplaced => 1,
        Correctness::Wrong => 2,
    }
}

/// The verdict of a base-3 digit.
pub open spec fn symbol(d: int) -> Correctness {
    if d == 0 {
        Correctness::Correct
    } else if d == 1 {
        Correctness::Misplaced
    } else {
        Correctness::Wrong
    }
}

/// A mask of five verdicts read as a base-3 number, leftmost digit first.
pub open spec fn rank(mask: Seq<Correctness>) -> int {
    digit(mask[0]) * 81 + digit(mask[1]) * 27 + digit(mask[2]) * 9 + digit(mask[3]) * 3 + digit(
        mask[4],
    )
}

/// The first `n` verdicts of a mask read as a base-3 number.
spec fn leading(mask: Seq<Correctness>, n: int) -> int
    decreases n,
{
    if n <= 0 {
        0
    } else {
        leading(mask, n - 1) * 3 + digit(mask[n - 1])
    }
}

/// The `n`-th power of 3.
spec fn place(n: int) -> int
    decreases n,
{
    if n <= 0 {
        1
    } else {
        3 * place(n - 1)
    }
}

/// The verdict that a base-3 digit stands for.
fn verdict(d: u8) -> (c: Correctness)
    ensures
        c == symbol(d as int),
{
    if d == 0 {
        Correctness::Correct
    } else if d == 1 {
        Correctness::Misplaced
    } else {
        Correctness::Wrong
    }
}

/// The byte that stands for a mask: its rank moved up by one.
pub open spec fn pack(mask: Seq<Correctness>) -> int {
    rank(mask) + 1
}

/// The mask that a byte from 1 to 243 stands for.
pub open spec fn unpack(slot: int) -> Seq<Correctness> {
    let v = slot - 1;
    seq![
        symbol(v / 81),
        symbol((v / 27) % 3),
        symbol((v / 9) % 3),
        symbol((v / 3) % 3),
        symbol(v % 3),
    ]
}

/// Packing never gives 0 and stays within one of the 243 codes.
pub proof fn lemma_pack_range(mask: Seq<Correctness>)
    ensures
        1 <= pack(mask) <= 243,
{
}

/// Unpacking what was packed gives the mask back.
pub proof fn lemma_unpack_pack(mask: Seq<Correctness>)
    requires
        mask.len() == 5,
    ensures
        unpack(pack(mask)) == mask,
{
    assert(unpack(pack(mask)) =~= mask);
}

/// Packing what was unpacked gives the byte back.
pub proof fn lemma_pack_unpack(slot: int)
    requires
        1 <= slot <= 243,
    ensures
        unpack(slot).len() == 5,
        pack(unpack(slot)) == slot,
{
    let v: u32 = (slot - 1) as u32;
    assert(v / 81 < 3 && v == (v / 81) * 81 + ((v / 27) % 3) * 27 + ((v / 9) % 3) * 9 + ((v / 3)
        % 3) * 3 + v % 3) by (bit_vector)
        requires
            v < 243,
    ;
}

/// A mask packed into a single byte that is never 0.
#[derive(Debug, Copy, Clone, PartialEq, Eq, Structural)]
pub struct PackedCorrectness(u8);

impl View for PackedCorrectness {
    type V = Seq<Correctness>;

    /// The mask that is packed.
    closed spec fn view(&self) -> Seq<Correctness> {
        unpack(self.0 as int)
    }
}

impl PackedCorrectness {
    #[verifier::type_invariant]
    spec fn in_range(self) -> bool {
        1 <= self.0 <= 243
    }

    /// The byte held: `pack` of the mask for every value that code can make.
    pub closed spec fn slot(self) -> int {
        self.0 as int
    }

    /// The packed form of `mask`.
    pub closed spec fn of(mask: Seq<Correctness>) -> PackedCorrectness {
        PackedCorrectness(pack(mask) as u8)
    }

    /// Two packed masks are the same exactly if they hold the same byte.
    pub proof fn lemma_slot_decides(self, other: PackedCorrectness)
        ensures
            (self == other) == (self.slot() == other.slot()),
    {
    }

    /// `of` packs, and the view unpacks again.
    pub proof fn lemma_of(mask: Seq<Correctness>)
        requires
            mask.len() == 5,
        ensures
            Self::of(mask).slot() == pack(mask),
            Self::of(mask)@ == mask,
    {
        lemma_unpack_pack(mask);
    }

    /// The byte to store for this mask, from 1 to 243.
    pub fn to_slot(self) -> (b: u8)
        ensures
            b == self.slot(),
            1 <= b <= 243,
            b == pack(self@),
            self@.len() == 5,
    {
        proof {
            use_type_invariant(&self);
            lemma_pack_unpack(self.0 as int);
        }
        self.0
    }

    /// Reads a stored byte back: nothing for 0 or a byte that is no code.
    pub fn from_slot(b: u8) -> (r: Option<PackedCorrectness>)
        ensures
            r is Some <==> 1 <= b <= 243,
            r matches Some(p) ==> p.slot() == b && p@ == unpack(b as int),
    {
        if 1 <= b && b <= 243 {
            Some(PackedCorrectness(b))
        } else {
            None
        }
    }

    /// Unpacks the mask.
    pub fn decode(self) -> (mask: [Correctness; 5])
        ensures
            mask@ == self@,
    {
        proof {
            use_type_invariant(&self);
        }
        let v: u8 = self.0 - 1;
        let mask = [
            verdict(v / 81),
            verdict((v / 27) % 3),
            verdict((v / 9) % 3),
            verdict((v / 3) % 3),
            verdict(v % 3),
        ];
        assert(mask@ =~= self@);
        mask
    }
}

impl From<[Correctness; 5]> for PackedCorrectness {
    fn from(c: [Correctness; 5]) -> (packed: Self) {
        let mut acc: u8 = 0;
        let mut i: usize = 0;
        while i < 5
            invariant
                i <= 5,
                acc == leading(c@, i as int),
                acc < place(i as int),
            decreases 5 - i,
        {
            let d: u8 = match c[i] {
                Correctness::Correct => 0,
                Correctness::Misplaced => 1,
                Correctness::Wrong => 2,
            };
            proof {
                reveal_with_fuel(place, 6);
            }
            acc = acc * 3 + d;
            i += 1;
        }
        proof {
            reveal_with_fuel(leading, 6);
        }
        PackedCorrectness(acc + 1)
    }
}

impl FromSpecImpl<[Correctness; 5]> for PackedCorrectness {
    open spec fn obeys_from_spec() -> bool {
        true
    }

    open spec fn from_spec(c: [Correctness; 5]) -> Self {
        PackedCorrectness::of(c@)
    }
}

impl From<PackedCorrectness> for u8 {
    fn from(this: PackedCorrectness) -> (code: u8) {
        proof {
            use_type_invariant(&this);
        }
        this.0 - 1
    }
}

impl FromSpecImpl<PackedCorrectness> for u8 {
    open spec fn obeys_from_spec() -> bool {
        true
    }

    open spec fn from_spec(this: PackedCorrectness) -> u8 {
        (this.slot() - 1) as u8
    }
}

} // verus!
