//! A field that is computed on first use and remembered after.

use vstd::prelude::*;

verus! {

/// A lazily-evaluated field: empty until first asked for, then holding the
/// value it was first computed to have.
#[derive(Debug)]
pub struct Lazy<T: Copy> {
    /// The value, once computed.
    pub value: Option<T>,
}

impl<T: Copy> Lazy<T> {
    /// A field that has not been computed yet.
    pub fn new() -> (r: Self)
        ensures
            r.value is None,
    {
        Lazy { value: None }
    }

    /// Get the value of the field if it has been computed.
    ///
    /// # Returns
    /// - `Some(T)` if the value of this field has been computed
    /// - `None` if the field has yet to be computed
    pub fn get(&self) -> (r: Option<T>)
        ensures
            r == self.value,
    {
        self.value
    }

    /// Get the value of the field, or compute it with `f` and remember it.
    ///
    /// # Returns
    /// - If the field has already been evaluated, the value of the field,
    ///   and `f` is not called.
    /// - If the field has not been evaluated, the value of `f`, which the
    ///   field then holds.
    pub fn get_or_else<F: FnOnce() -> T>(&mut self, f: F) -> (r: T)
        requires
            old(self).value is None ==> f.requires(()),
        ensures
            old(self).value matches Some(v) ==> r == v && final(self).value == old(self).value,
            old(self).value is None ==> f.ensures((), r) && final(self).value == Some(r),
    {
        match self.value {
            Some(value) => value,
            None => {
                let value = f();
                self.value = Some(value);
                value
            },
        }
    }
}

impl<T: Copy> Clone for Lazy<T> {
    /// A field in the same state, holding the same value if any.
    fn clone(&self) -> (r: Self)
        ensures
            r == *self,
    {
        Lazy { value: self.value }
    }
}

impl<T: Copy> Default for Lazy<T> {
    /// A field that has not been computed yet.
    fn default() -> (r: Self)
        ensures
            r.value is None,
    {
        Self::new()
    }
}

} // verus!
