//! Deterministic generators of test strings.
//!
//! A [`Guacamole`] is a pseudo-random source whose stream is fixed by a
//! 64-bit seed. The traits here split string generation into independent
//! draws: one for the length of the string, one for a seed selecting which
//! string of that length comes out. [`IndependentStrings`] composes the two
//! and emits a string of ASCII letters and digits.

use vstd::prelude::*;

use crate::text::push_char;

verus! {

/// Declares rand's `StdRng` so that a field may hold one; the value stays
/// opaque and is only driven through the wrappers below.
#[verifier::external_type_specification]
#[verifier::external_body]
pub struct ExStdRng(rand::rngs::StdRng);

/// A pseudo-random source: a stream of values fixed by the seed it was
/// created from.
pub struct Guacamole {
    rng: rand::rngs::StdRng,
}

impl Guacamole {
    /// Relies on rand's `SeedableRng::seed_from_u64` for `StdRng`: the
    /// stream drawn from the result depends on the seed alone.
    #[verifier::external_body]
    pub fn new(seed: u64) -> Guacamole {
        Guacamole { rng: rand::SeedableRng::seed_from_u64(seed) }
    }

    /// Relies on rand's `RngCore::next_u64`. Nothing is promised of the
    /// value drawn.
    #[verifier::external_body]
    pub fn next_u64(&mut self) -> u64 {
        rand::RngCore::next_u64(&mut self.rng)
    }
}

/// Whether `b` is the code of an ASCII letter or digit.
pub open spec fn is_alnum_byte(b: u8) -> bool {
    (48 <= b && b <= 57) || (65 <= b && b <= 90) || (97 <= b && b <= 122)
}

/// Whether `c` is an ASCII letter or digit.
pub open spec fn is_alnum_char(c: char) -> bool {
    (48 <= c as u32 && c as u32 <= 57) || (65 <= c as u32 && c as u32 <= 90) || (97 <= c as u32
        && c as u32 <= 122)
}

/// Relies on rand's `Alphanumeric` distribution: every sample is the code
/// of an ASCII letter or digit.
#[verifier::external_body]
fn next_alphanumeric(g: &mut Guacamole) -> (b: u8)
    ensures
        is_alnum_byte(b),
{
    rand::Rng::sample(&mut g.rng, rand::distributions::Alphanumeric)
}

/// A generator of strings.
pub trait StringGuacamole {
    /// What the implementation promises of every string it emits.
    spec fn output_ok(&self, s: Seq<char>) -> bool;

    /// Draws a string from `guac`.
    fn guacamole(&self, guac: &mut Guacamole) -> (r: String)
        ensures
            self.output_ok(r@),
    ;
}

/// A generator of string lengths.
pub trait IndependentStringLength {
    /// The length this implementation always draws, where it is fixed.
    spec fn pinned_length(&self) -> Option<usize>;

    /// Draws a length from `guac`.
    fn guacamole(&self, guac: &mut Guacamole) -> (r: usize)
        ensures
            self.pinned_length() matches Some(n) ==> r == n,
    ;
}

/// A generator of the seed that selects which string comes out.
pub trait IndependentStringSelect {
    /// Draws a seed from `guac`.
    fn guacamole(&self, guac: &mut Guacamole) -> u64;
}

/// Generates strings by two independent draws: a length, then a seed that
/// selects which string of that length is emitted. Every character of the
/// result is an ASCII letter or digit.
#[derive(Debug)]
pub struct IndependentStrings<L: IndependentStringLength, S: IndependentStringSelect> {
    pub length: L,
    pub select: S,
}

impl<L: IndependentStringLength, S: IndependentStringSelect> StringGuacamole for IndependentStrings<
    L,
    S,
> {
    /// The string is alphanumeric throughout, and has the length source's
    /// pinned length where that is fixed.
    open spec fn output_ok(&self, s: Seq<char>) -> bool {
        &&& (self.length.pinned_length() matches Some(n) ==> s.len() == n)
        &&& forall|i: int| 0 <= i < s.len() ==> is_alnum_char(#[trigger] s[i])
    }

    fn guacamole(&self, guac: &mut Guacamole) -> (r: String)
        ensures
            self.output_ok(r@),
    {
        let length = self.length.guacamole(guac);
        let select = self.select.guacamole(guac);
        let mut inner = Guacamole::new(select);
        let mut out = String::new();
        let mut i: usize = 0;
        while i < length
            invariant
                i <= length,
                out@.len() == i,
                forall|j: int| 0 <= j < out@.len() ==> is_alnum_char(#[trigger] out@[j]),
            decreases length - i,
        {
            let b = next_alphanumeric(&mut inner);
            let c = b as char;
            push_char(&mut out, c);
            i = i + 1;
        }
        out
    }
}

/// A length source that always draws the same length.
#[derive(Debug)]
pub struct ConstantLength {
    pub constant: usize,
}

impl IndependentStringLength for ConstantLength {
    open spec fn pinned_length(&self) -> Option<usize> {
        Some(self.constant)
    }

    fn guacamole(&self, _guac: &mut Guacamole) -> (r: usize)
        ensures
            self.pinned_length() matches Some(n) ==> r == n,
    {
        self.constant
    }
}

/// A seed source that draws a fresh value from the stream.
#[derive(Debug)]
pub struct RandomSelect {}

impl IndependentStringSelect for RandomSelect {
    fn guacamole(&self, guac: &mut Guacamole) -> u64 {
        guac.next_u64()
    }
}

} // verus!
