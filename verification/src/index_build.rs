//! The decisions of an index build.
use vstd::prelude::*;

verus! {

/// Between two reports of progress so many vectors are inserted.
pub const PROGRESS_STEP: usize = 10000;

/// `num_cpus::get` tells the number of processors, and always at least 1. It depends on the
/// machine, so nothing more is said of it.
#[verifier::external_body]
fn count_processors() -> (n: usize)
    ensures
        n >= 1,
{
    num_cpus::get()
}

/// The number of threads of a build on a machine with so many processors: as many as are
/// asked for, and one for each processor where none are.
pub fn resolve_threads(requested: usize, processors: usize) -> (n: usize)
    ensures
        n == if requested == 0 {
            processors
        } else {
            requested
        },
{
    if requested == 0 {
        processors
    } else {
        requested
    }
}

/// The number of threads of a build on this machine. A number that is asked for is kept;
/// where none is, there is one thread for each processor, so a build never has none.
pub fn build_threads(requested: usize) -> (n: usize)
    ensures
        requested > 0 ==> n == requested,
        n >= 1,
{
    resolve_threads(requested, count_processors())
}

/// Whether progress is reported after so many of `total` vectors: at every full step and
/// at the end.
pub fn reports_progress(inserted: usize, total: usize) -> (r: bool)
    ensures
        r == (inserted as int % PROGRESS_STEP as int == 0 || inserted == total),
{
    inserted % PROGRESS_STEP == 0 || inserted == total
}

} // verus!
