//! Owned storage for object keys.
//!
//! Keys are kept in a `smallstr::SmallString` with an inline buffer, so short
//! keys need no heap allocation.  The buffer is held in the private field of
//! [`KeyStr`], whose contents are named by [`key_str_chars`].
use smallstr::SmallString;
use vstd::prelude::*;

verus! {

/// Number of key bytes kept inline before a key spills to the heap.
pub const KEY_BUF_LEN: usize = 32;

/// An owned key string with inline storage for short keys.
#[verifier::external_body]
#[derive(Debug)]
pub struct KeyStr {
    inner: SmallString<[u8; KEY_BUF_LEN]>,
}

/// The characters held by a [`KeyStr`].
pub uninterp spec fn key_str_chars(s: KeyStr) -> Seq<char>;

/// Copies `s` into a new key buffer (`SmallString::from(&str)`), which holds
/// exactly the characters of `s`.
#[verifier::external_body]
pub fn key_str_from(s: &str) -> (r: KeyStr)
    ensures
        key_str_chars(r) == s@,
{
    KeyStr { inner: SmallString::from(s) }
}

/// Borrows the key as a string slice (`SmallString::as_str`), which holds the
/// key's characters.
#[verifier::external_body]
pub fn key_str_as_str(k: &KeyStr) -> (r: &str)
    ensures
        r@ == key_str_chars(*k),
{
    k.inner.as_str()
}

impl Clone for KeyStr {
    /// Copies the key buffer (the derived `Clone` of `SmallString`), keeping
    /// its characters.
    #[verifier::external_body]
    fn clone(&self) -> (r: Self)
        ensures
            key_str_chars(r) == key_str_chars(*self),
    {
        KeyStr { inner: self.inner.clone() }
    }
}

} // verus!
