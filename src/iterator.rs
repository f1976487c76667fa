use vstd::prelude::*;

verus! {

/// Where a disk iterator should move to.
#[derive(Clone, Copy)]
pub enum Seek<'s> {
    /// The first element.
    First,
    /// The last element.
    Last,
    /// The element whose key equals the given key, or the closest smaller one.
    Forward(&'s [u8]),
    /// The element whose key equals the given key, or the closest larger one.
    Backward(&'s [u8]),
}

impl<'s> Seek<'s> {
    /// The key that the seek is relative to, where there is one.
    pub fn get_key(&self) -> (r: Option<&'s [u8]>)
        ensures
            match *self {
                Seek::Forward(k) => r == Some(k),
                Seek::Backward(k) => r == Some(k),
                _ => r is None,
            },
    {
        match self {
            Seek::Forward(key) => Some(*key),
            Seek::Backward(key) => Some(*key),
            _ => None,
        }
    }
}

} // verus!
