//! Support types for component props built with a typed builder: every optional field
//! starts as [`Missing`] and becomes [`Given`] once its setter runs; `build()` reads each
//! optional field with [`OrDefault::or_default`].
use vstd::prelude::*;

verus! {

/// A prop that was not given.
pub struct Missing;

/// A prop that was given (holds the value).
pub struct Given<T>(pub T);

/// Reading an optional prop: a given value wins; otherwise the default closure is called.
/// The default is lazy: it runs only when the prop was not given.
pub trait OrDefault<T>: Sized {
    fn or_default<F: FnOnce() -> T>(self, default: F) -> (r: T)
        requires
            call_requires(default, ());
}

impl<T> OrDefault<T> for Missing {
    /// Calls the default.
    fn or_default<F: FnOnce() -> T>(self, default: F) -> (r: T)
        ensures
            call_ensures(default, (), r),
    {
        default()
    }
}

impl<T> OrDefault<T> for Given<T> {
    /// The given value; the default is not called.
    fn or_default<F: FnOnce() -> T>(self, default: F) -> (r: T)
        ensures
            r == self.0,
    {
        self.0
    }
}

} // verus!
