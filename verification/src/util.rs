//! Small general helpers shared by the front ends.

use vstd::prelude::*;

verus! {

/// A value paired with the text a front end chose to show for it.
pub struct Formatted<T> {
    value: T,
    text: String,
}

impl<T> Formatted<T> {
    pub closed spec fn value_spec(self) -> T {
        self.value
    }

    pub closed spec fn text_spec(self) -> Seq<char> {
        self.text@
    }

    pub fn new(value: T, text: String) -> (r: Formatted<T>)
        ensures
            r.value_spec() == value,
            r.text_spec() == text@,
    {
        Formatted { value, text }
    }

    pub fn text(&self) -> (t: &String)
        ensures
            t@ == self.text_spec(),
    {
        &self.text
    }

    pub fn value(&self) -> (v: &T)
        ensures
            *v == self.value_spec(),
    {
        &self.value
    }

    pub fn into_value(self) -> (v: T)
        ensures
            v == self.value_spec(),
    {
        self.value
    }
}

/// Swaps the two sides of a `Result`.
pub fn flipped<T, E>(r: Result<T, E>) -> (f: Result<E, T>)
    ensures
        f == (match r {
            Ok(t) => Result::<E, T>::Err(t),
            Err(e) => Result::<E, T>::Ok(e),
        }),
{
    match r {
        Ok(t) => Err(t),
        Err(e) => Ok(e),
    }
}

} // verus!
