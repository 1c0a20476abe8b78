//! The checks a scan makes on its settings and input before any query.

use vstd::prelude::*;
use crate::input::DomainLoadResult;

verus! {

/// Why a scan does not start.
#[derive(Debug, Clone, Copy)]
pub enum RunError {
    /// The number of simultaneous lookups is zero.
    ZeroConcurrency,
    /// The domain list holds no valid domain.
    NoDomains,
}

pub open spec fn run_error_text(e: RunError) -> Seq<char> {
    match e {
        RunError::ZeroConcurrency => "--concurrency must be greater than zero"@,
        RunError::NoDomains => "input file contains no valid domains"@,
    }
}

impl RunError {
    /// The message that the scan stops with.
    pub fn message(&self) -> (r: &'static str)
        ensures
            r@ == run_error_text(*self),
    {
        match self {
            RunError::ZeroConcurrency => "--concurrency must be greater than zero",
            RunError::NoDomains => "input file contains no valid domains",
        }
    }
}

/// A scan needs at least one simultaneous lookup.
pub fn check_concurrency(concurrency: usize) -> (r: Result<(), RunError>)
    ensures
        r is Err <==> concurrency == 0,
        r matches Err(e) ==> e == RunError::ZeroConcurrency,
{
    if concurrency == 0 {
        Err(RunError::ZeroConcurrency)
    } else {
        Ok(())
    }
}

/// A scan needs at least one domain to check.
pub fn check_domains_loaded(loaded: &DomainLoadResult) -> (r: Result<(), RunError>)
    ensures
        r is Err <==> loaded.domains@.len() == 0,
        r matches Err(e) ==> e == RunError::NoDomains,
{
    if loaded.domains.len() == 0 {
        Err(RunError::NoDomains)
    } else {
        Ok(())
    }
}

/// The name of the DBL service that a scan uses: the DQS service when a key
/// is given, the public zone otherwise.
pub fn mode_label(dqs_key: Option<&str>) -> (r: &'static str)
    ensures
        r@ == (if dqs_key is Some {
            "DQS"@
        } else {
            "Public DBL"@
        }),
{
    match dqs_key {
        Some(_) => "DQS",
        None => "Public DBL",
    }
}

} // verus!
