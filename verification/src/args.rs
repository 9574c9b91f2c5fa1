//! Validation of path arguments and resolution of the worker count.
//! Reading the command line and asking the filesystem whether a path
//! exists happen outside the library; the decisions on what they hand
//! back are made here.

use vstd::prelude::*;

use crate::entry::copy_bytes;

verus! {

/// Why a path argument was rejected.
#[derive(Clone, Copy, Debug, PartialEq, Eq, Structural)]
pub enum ArgError {
    /// The argument was empty.
    EmptyValue,
    /// The argument named a path that does not exist.
    PathNotFound,
}

/// Validates path arguments: an empty value is rejected outright, a
/// non-empty one is accepted exactly when the path exists.
#[derive(Clone, Copy, Debug)]
#[non_exhaustive]
pub struct PathExistsValueParser {}

impl PathExistsValueParser {
    /// A fresh parser.
    pub fn new() -> (r: Self)
        ensures
            r == (PathExistsValueParser {  }),
    {
        Self {  }
    }

    /// Judges one argument. `path_exists` reports whether a metadata
    /// query for the value succeeded; it is consulted only for a
    /// non-empty value.
    pub fn parse_ref(&self, value: &Vec<u8>, path_exists: bool) -> (r: Result<Vec<u8>, ArgError>)
        ensures
            value@.len() == 0 ==> r == Err::<Vec<u8>, ArgError>(ArgError::EmptyValue),
            value@.len() > 0 && !path_exists ==> r == Err::<Vec<u8>, ArgError>(
                ArgError::PathNotFound,
            ),
            value@.len() > 0 && path_exists ==> r is Ok && r->Ok_0@ == value@,
    {
        if value.len() == 0 {
            Err(ArgError::EmptyValue)
        } else if !path_exists {
            Err(ArgError::PathNotFound)
        } else {
            Ok(copy_bytes(value))
        }
    }
}

impl Default for PathExistsValueParser {
    /// A fresh parser.
    fn default() -> (r: Self)
        ensures
            r == (PathExistsValueParser {  }),
    {
        Self::new()
    }
}

/// The worker count for a run: the requested one where given, otherwise
/// the detected one.
pub fn threads(requested: Option<usize>, detected: usize) -> (r: usize)
    requires
        detected >= 1,
        requested is Some ==> requested->0 >= 1,
    ensures
        r >= 1,
        requested is Some ==> r == requested->0,
        requested is None ==> r == detected,
{
    match requested {
        Some(t) => t,
        None => detected,
    }
}

/// Relies on num_cpus::get: the number of available logical CPUs of the
/// current system, which its documentation promises is at least one.
#[verifier::external_body]
fn detected_cpus() -> (r: usize)
    ensures
        r >= 1,
{
    num_cpus::get()
}

/// The worker count used when none is requested and the platform reports
/// none: the number of logical CPUs.
pub fn default_threads() -> (r: usize)
    ensures
        r >= 1,
{
    threads(None, detected_cpus())
}

} // verus!
