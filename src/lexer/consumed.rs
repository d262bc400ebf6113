use super::Error;
use vstd::prelude::*;

verus! {

/// How many characters, and how many UTF-8 bytes, one operation on a
/// [`super::State`] consumed. Each character takes one to four bytes.
#[derive(Debug, Clone, Copy)]
pub struct Consumed {
    chars: usize,
    bytes: u32,
}

impl Consumed {
    /// Number of characters consumed.
    pub closed spec fn count(self) -> nat {
        self.chars as nat
    }

    /// Number of UTF-8 bytes consumed.
    pub closed spec fn width(self) -> nat {
        self.bytes as nat
    }

    /// The byte count is that of `count()` characters of one to four bytes each.
    #[verifier::type_invariant]
    closed spec fn inv(self) -> bool {
        self.chars <= self.bytes <= 4 * self.chars
    }

    /// A record of `chars` characters that took `bytes` bytes.
    pub(crate) fn new(chars: usize, bytes: u32) -> (r: Self)
        requires
            chars <= bytes <= 4 * chars,
        ensures
            r.count() == chars,
            r.width() == bytes,
    {
        Consumed { chars, bytes }
    }

    /// A record that has consumed nothing.
    pub fn zero() -> (r: Self)
        ensures
            r.count() == 0,
            r.width() == 0,
    {
        Consumed { chars: 0, bytes: 0 }
    }

    /// Returns the number of characters consumed.
    pub fn chars(self) -> (r: usize)
        ensures
            r == self.count(),
    {
        self.chars
    }

    /// Returns the number of bytes consumed.
    pub fn bytes(self) -> (r: u32)
        ensures
            r == self.width(),
    {
        self.bytes
    }

    /// Returns true if a non-zero number of bytes were consumed.
    pub fn any(self) -> (r: bool)
        ensures
            r == (self.width() > 0),
            r == (self.count() > 0),
    {
        proof {
            use_type_invariant(&self);
        }
        self.bytes > 0
    }

    /// Returns `Ok(self)` if at least `n` characters were consumed,
    /// otherwise `Err(Error::UnexpectedInput)`.
    pub fn at_least(self, n: usize) -> (r: Result<Self, Error>)
        ensures
            self.count() >= n ==> r == Ok::<Self, Error>(self),
            self.count() < n ==> r == Err::<Self, Error>(Error::UnexpectedInput),
    {
        if self.chars >= n {
            Ok(self)
        } else {
            Err(Error::UnexpectedInput)
        }
    }

    /// Returns `Ok(self)` if at most `n` characters were consumed,
    /// otherwise `Err(Error::UnexpectedInput)`.
    pub fn at_most(self, n: usize) -> (r: Result<Self, Error>)
        ensures
            self.count() <= n ==> r == Ok::<Self, Error>(self),
            self.count() > n ==> r == Err::<Self, Error>(Error::UnexpectedInput),
    {
        if self.chars <= n {
            Ok(self)
        } else {
            Err(Error::UnexpectedInput)
        }
    }
}

} // verus!
