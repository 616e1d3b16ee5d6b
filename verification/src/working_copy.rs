//! Working copies: where the files of a repository are output.
use vstd::prelude::*;

verus! {

/// The errors of the input and output of the standard library.
#[verifier::external_type_specification]
#[verifier::external_body]
pub struct ExIoError(std::io::Error);

/// A working copy that files can be output to.
pub trait WorkingCopy {
    type Error;

    /// Whether the file at `path` may be overwritten.
    fn is_writable(&self, path: &str) -> Result<bool, Self::Error>;

    fn create_dir_all(&self, path: &str) -> Result<(), Self::Error>;

    fn remove_path(&self, name: &str, rec: bool) -> Result<(), Self::Error>;

    fn rename(&self, former: &str, new: &str) -> Result<(), Self::Error>;

    fn set_permissions(&self, name: &str, permissions: u16) -> Result<(), Self::Error>;
}

/// A working copy that discards everything written to it.
#[derive(Clone, Copy, Debug)]
pub struct Sink {}

pub fn sink() -> (r: Sink) {
    Sink {}
}

impl WorkingCopy for Sink {
    type Error = std::io::Error;

    /// Nothing can be written to a sink.
    fn is_writable(&self, _path: &str) -> (r: Result<bool, std::io::Error>)
        ensures
            r == Ok::<bool, std::io::Error>(false),
    {
        Ok(false)
    }

    fn create_dir_all(&self, _path: &str) -> (r: Result<(), std::io::Error>)
        ensures
            r is Ok,
    {
        Ok(())
    }

    fn remove_path(&self, _name: &str, _rec: bool) -> (r: Result<(), std::io::Error>)
        ensures
            r is Ok,
    {
        Ok(())
    }

    fn rename(&self, _former: &str, _new: &str) -> (r: Result<(), std::io::Error>)
        ensures
            r is Ok,
    {
        Ok(())
    }

    fn set_permissions(&self, _name: &str, _permissions: u16) -> (r: Result<(), std::io::Error>)
        ensures
            r is Ok,
    {
        Ok(())
    }
}

} // verus!
