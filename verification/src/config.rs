use vstd::prelude::*;

verus! {

/// Configuration of the canonical encoder, chosen once and carried
/// immutably through every stage of the fingerprint pipeline.
///
/// The fingerprint of a dataset depends on these settings: two runs
/// agree only when they use the same configuration.
#[derive(Clone, Copy, Debug)]
pub struct IdHashConfig {
    /// Significant figures retained when canonicalizing a floating-point
    /// value.
    pub digits: u32,
    /// Reserved length limit, stored for interface compatibility; the
    /// encoder's per-value limit is `characters`.
    pub truncation: usize,
    /// Maximum number of characters kept per encoded value before the
    /// sentinel is appended.
    pub characters: usize,
}

/// Builder for [`IdHashConfig`]; unset options fall back to the
/// documented defaults (7 significant digits, 128-character limits).
#[derive(Clone, Copy)]
pub struct IdHashConfigBuilder {
    digits: Option<u32>,
    characters: Option<usize>,
    truncation: Option<usize>,
}

impl IdHashConfigBuilder {
    /// The chosen significant-digit count, if one was set.
    pub closed spec fn spec_digits(self) -> Option<u32> {
        self.digits
    }

    /// The chosen character limit, if one was set.
    pub closed spec fn spec_characters(self) -> Option<usize> {
        self.characters
    }

    /// The chosen reserved truncation limit, if one was set.
    pub closed spec fn spec_truncation(self) -> Option<usize> {
        self.truncation
    }

    pub fn new() -> (b: Self)
        ensures
            b.spec_digits() is None,
            b.spec_characters() is None,
            b.spec_truncation() is None,
    {
        IdHashConfigBuilder { digits: None, characters: None, truncation: None }
    }

    pub fn digits(self, x: u32) -> (b: Self)
        ensures
            b.spec_digits() == Some(x),
            b.spec_characters() == self.spec_characters(),
            b.spec_truncation() == self.spec_truncation(),
    {
        IdHashConfigBuilder { digits: Some(x), ..self }
    }

    pub fn characters(self, x: usize) -> (b: Self)
        ensures
            b.spec_characters() == Some(x),
            b.spec_digits() == self.spec_digits(),
            b.spec_truncation() == self.spec_truncation(),
    {
        IdHashConfigBuilder { characters: Some(x), ..self }
    }

    pub fn truncation(self, x: usize) -> (b: Self)
        ensures
            b.spec_truncation() == Some(x),
            b.spec_digits() == self.spec_digits(),
            b.spec_characters() == self.spec_characters(),
    {
        IdHashConfigBuilder { truncation: Some(x), ..self }
    }

    /// Produce the configuration, filling every unset option with its
    /// default: 7 significant digits, 128-character truncation and
    /// character limits.
    pub fn build(&self) -> (c: IdHashConfig)
        ensures
            c.digits == if self.spec_digits() is Some {
                self.spec_digits()->0
            } else {
                7u32
            },
            c.truncation == if self.spec_truncation() is Some {
                self.spec_truncation()->0
            } else {
                128usize
            },
            c.characters == if self.spec_characters() is Some {
                self.spec_characters()->0
            } else {
                128usize
            },
    {
        IdHashConfig {
            digits: if let Some(digits) = self.digits {
                digits
            } else {
                7
            },
            truncation: if let Some(truncation) = self.truncation {
                truncation
            } else {
                128
            },
            characters: if let Some(characters) = self.characters {
                characters
            } else {
                128
            },
        }
    }
}

impl Default for IdHashConfigBuilder {
    fn default() -> (b: Self)
        ensures
            b.spec_digits() is None,
            b.spec_characters() is None,
            b.spec_truncation() is None,
    {
        Self::new()
    }
}

} // verus!
