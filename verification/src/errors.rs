//! Error values carried through the library.
//!
//! Every error is a bare message; the binary prints it to standard error.

use vstd::prelude::*;

verus! {

/// Error of the installer's top-level operations.
#[derive(Debug, Clone)]
pub struct JmError {
    pub message: String,
}

impl JmError {
    pub fn new(message: String) -> (e: JmError)
        ensures
            e@ == message@,
    {
        JmError { message }
    }

    pub fn message(&self) -> (m: &String)
        ensures
            m@ == self@,
    {
        &self.message
    }
}

impl View for JmError {
    type V = Seq<char>;

    open spec fn view(&self) -> Seq<char> {
        self.message@
    }
}

/// Error of the resolution core (metadata, versions, graph building).
#[derive(Debug, Clone)]
pub struct JmCoreError {
    pub message: String,
}

impl JmCoreError {
    pub fn new(message: String) -> (e: JmCoreError)
        ensures
            e@ == message@,
    {
        JmCoreError { message }
    }

    pub fn message(&self) -> (m: &String)
        ensures
            m@ == self@,
    {
        &self.message
    }
}

impl View for JmCoreError {
    type V = Seq<char>;

    open spec fn view(&self) -> Seq<char> {
        self.message@
    }
}

/// Error of the on-disk cache layer.
#[derive(Debug, Clone)]
pub struct JmCacheError {
    pub message: String,
}

impl JmCacheError {
    pub fn new(message: String) -> (e: JmCacheError)
        ensures
            e@ == message@,
    {
        JmCacheError { message }
    }

    pub fn message(&self) -> (m: &String)
        ensures
            m@ == self@,
    {
        &self.message
    }
}

impl View for JmCacheError {
    type V = Seq<char>;

    open spec fn view(&self) -> Seq<char> {
        self.message@
    }
}

} // verus!
