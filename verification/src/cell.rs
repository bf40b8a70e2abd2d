use vstd::prelude::*;

use crate::rng;

verus! {

/// Outcome classification of `Cell::merge`.
#[derive(Copy, Clone, Debug, PartialEq, Eq, Structural)]
pub enum MergeResult {
    /// mergee and merger are both empty
    BothEmpty,
    /// mergee and merger are both non-empty and of equal value
    Combine,
    /// mergee is non-empty whereas merger is empty
    OtherEmpty,
    /// mergee is empty whereas merger is non-empty
    SelfEmpty,
    /// mergee and merger are both non-empty but of dissimilar value
    UnlikeValues,
}

/// The representation of a cell on the game board: either empty (value 0) or
/// a tile whose value is a power of two of at least 2.
#[derive(Copy, Clone, Debug, PartialEq, Eq, Structural)]
pub struct Cell(pub usize);

/// A power of two: 1, 2, 4, 8, ...
pub open spec fn is_pow2(v: nat) -> bool
    decreases v,
{
    if v == 0 {
        false
    } else if v == 1 {
        true
    } else {
        v % 2 == 0 && is_pow2(v / 2)
    }
}

/// A value a non-empty cell may hold: a power of two of at least 2.
pub open spec fn valid_value(v: usize) -> bool {
    v >= 2 && is_pow2(v as nat)
}

/// Doubling a valid tile value that still fits in `usize` yields a valid
/// tile value.
pub proof fn lemma_double_valid(v: usize)
    requires
        valid_value(v),
        2 * v <= usize::MAX,
    ensures
        valid_value((2 * v) as usize),
{
    let d = (2 * v) as nat;
    assert(d % 2 == 0);
    assert(d / 2 == v as nat);
    assert(is_pow2(d));
}

/// The decimal digits of `v`, most significant first.
pub open spec fn decimal_digits(v: nat) -> Seq<char>
    decreases v,
{
    if v < 10 {
        seq![digit_char(v)]
    } else {
        decimal_digits(v / 10).push(digit_char(v % 10))
    }
}

/// The character for one decimal digit.
pub open spec fn digit_char(d: nat) -> char {
    if d == 0 {
        '0'
    } else if d == 1 {
        '1'
    } else if d == 2 {
        '2'
    } else if d == 3 {
        '3'
    } else if d == 4 {
        '4'
    } else if d == 5 {
        '5'
    } else if d == 6 {
        '6'
    } else if d == 7 {
        '7'
    } else if d == 8 {
        '8'
    } else {
        '9'
    }
}

/// Decides whether a value is a valid tile value: a power of two of at
/// least 2.
pub fn is_valid_value(v: usize) -> (b: bool)
    ensures
        b == valid_value(v),
{
    if v < 2 {
        return false;
    }
    let mut x: usize = v;
    while x % 2 == 0
        invariant
            x >= 1,
            is_pow2(v as nat) == is_pow2(x as nat),
        decreases x,
    {
        x = x / 2;
    }
    x == 1
}

/// Relies on `format!` (std's `Display` for `usize`): it prints exactly the
/// decimal digits of the value, most significant first, with no sign and no
/// leading zeros.
#[verifier::external_body]
fn format_decimal(v: usize) -> (s: String)
    ensures
        s@ == decimal_digits(v as nat),
{
    format!("{}", v)
}

impl Cell {
    /// Returns whether the cell is empty.
    #[inline(always)]
    pub fn is_empty(&self) -> (b: bool)
        ensures
            b == (self.0 == 0),
    {
        self.value() == 0
    }

    /// Returns the value held by the cell; 0 denotes an empty cell.
    #[inline(always)]
    pub fn value(&self) -> (v: usize)
        ensures
            v == self.0,
    {
        self.0
    }

    /// Returns a new, empty instance of a cell.
    pub fn empty() -> (c: Self)
        ensures
            c.0 == 0,
    {
        Self(0)
    }

    /// Returns a cell holding the specified value, which must be a power of
    /// two greater than one.
    ///
    /// # Arguments
    ///
    /// * `value` - the power of two value to initialize the new cell to
    pub fn new(value: usize) -> (c: Self)
        requires
            valid_value(value),
        ensures
            c.0 == value,
    {
        Self(value)
    }

    /// The decimal rendering of the cell's value.
    pub fn to_string(&self) -> (s: String)
        ensures
            s@ == decimal_digits(self.0 as nat),
    {
        format_decimal(self.0)
    }

    /// Attempts to spawn the specified value into the cell.
    /// Fails if the cell is already non-empty.
    ///
    /// # Arguments
    ///
    /// * `val` - the value to spawn into the cell
    pub fn spawn_value(&mut self, val: usize) -> (r: Result<(), ()>)
        ensures
            old(self).0 != 0 ==> r is Err && *final(self) == *old(self),
            old(self).0 == 0 ==> r is Ok && final(self).0 == val,
    {
        if !self.is_empty() {
            return Err(());
        }

        self.0 = val;
        Ok(())
    }

    /// Attempts to randomly spawn a value of either two or four into the
    /// cell; four comes up on one draw in ten.  Fails if the cell is already
    /// non-empty.
    pub fn spawn(&mut self) -> (r: Result<(), ()>)
        ensures
            old(self).0 != 0 ==> r is Err && *final(self) == *old(self),
            old(self).0 == 0 ==> r is Ok && (final(self).0 == 2 || final(self).0 == 4),
    {
        if !self.is_empty() {
            return Err(());
        }

        let val: usize = if rng::random_below(10) == 0 {
            4
        } else {
            2
        };

        self.0 = val;
        Ok(())
    }

    /// Reverts the cell back to an empty state.
    /// Fails if the cell is already empty.
    pub fn despawn(&mut self) -> (r: Result<(), ()>)
        ensures
            old(self).0 == 0 ==> r is Err && *final(self) == *old(self),
            old(self).0 != 0 ==> r is Ok && final(self).0 == 0,
    {
        if self.is_empty() {
            return Err(());
        }
        self.0 = 0;
        Ok(())
    }

    /// Increases the value of the cell by a power of two: doubles it.
    /// Fails, mutating nothing, if the cell is empty or if doubling would
    /// overflow `usize`.
    pub fn grow(&mut self) -> (r: Result<(), ()>)
        ensures
            old(self).0 == 0 ==> r is Err,
            old(self).0 != 0 && 2 * old(self).0 > usize::MAX ==> r is Err,
            r is Err ==> *final(self) == *old(self),
            old(self).0 != 0 && 2 * old(self).0 <= usize::MAX ==> r is Ok && final(self).0
                == 2 * old(self).0,
    {
        if self.is_empty() {
            return Err(());
        }

        if self.0 > usize::MAX / 2 {
            return Err(());
        }

        self.0 = self.0 * 2;
        Ok(())
    }

    /// Attempts to merge the cell with another.
    /// Succeeds iff both cells are non-empty and equal in value.
    /// If successful, the cell's value will grow while the other cell will
    /// despawn.
    ///
    /// # Arguments
    ///
    /// * `other` - the other cell to merge with (that will be despawned)
    pub fn merge(&mut self, other: &mut Cell) -> (r: Result<MergeResult, MergeResult>)
        requires
            old(self).0 == old(other).0 ==> 2 * old(self).0 <= usize::MAX,
        ensures
            old(self).0 == 0 && old(other).0 == 0 ==> r == Err::<MergeResult, MergeResult>(
                MergeResult::BothEmpty,
            ),
            old(self).0 != 0 && old(other).0 == 0 ==> r == Err::<MergeResult, MergeResult>(
                MergeResult::OtherEmpty,
            ),
            old(self).0 == 0 && old(other).0 != 0 ==> r == Err::<MergeResult, MergeResult>(
                MergeResult::SelfEmpty,
            ),
            old(self).0 != 0 && old(other).0 != 0 && old(self).0 != old(other).0 ==> r
                == Err::<MergeResult, MergeResult>(MergeResult::UnlikeValues),
            r is Err ==> *final(self) == *old(self) && *final(other) == *old(other),
            old(self).0 != 0 && old(self).0 == old(other).0 ==> r == Ok::<MergeResult, MergeResult>(
                MergeResult::Combine,
            ) && final(self).0 == 2 * old(self).0 && final(other).0 == 0,
    {
        match (self.is_empty(), other.is_empty()) {
            (false, true) => {
                return Err(MergeResult::OtherEmpty);
            },
            (true, false) => {
                return Err(MergeResult::SelfEmpty);
            },
            (true, true) => {
                return Err(MergeResult::BothEmpty);
            },
            _ => (),
        }

        if self.value() != other.value() {
            return Err(MergeResult::UnlikeValues);
        }

        let grown = self.grow();
        assert(grown is Ok);
        let gone = other.despawn();
        assert(gone is Ok);
        Ok(MergeResult::Combine)
    }
}

/// Randomly initializes the value of the cell to either two or four, as a
/// freshly spawned tile.
impl Default for Cell {
    fn default() -> (c: Self)
        ensures
            c.0 == 2 || c.0 == 4,
    {
        let mut c = Cell::empty();
        let spawned = c.spawn();
        assert(spawned is Ok);
        c
    }
}

} // verus!
