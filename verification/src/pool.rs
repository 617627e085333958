//! Thread pools.
use vstd::prelude::*;

verus! {

/// The type of thread pools.
#[verifier::external_type_specification]
#[verifier::external_body]
pub struct ExThreadPool(rayon::ThreadPool);

/// The type of the reasons why a pool cannot be built.
#[verifier::external_type_specification]
#[verifier::external_body]
pub struct ExThreadPoolBuildError(rayon::ThreadPoolBuildError);

/// The number of threads that a pool was built with.
pub uninterp spec fn pool_threads(pool: rayon::ThreadPool) -> int;

/// `rayon::ThreadPoolBuilder::num_threads` and `build`: a pool with the given number of threads,
/// or the reason why the system does not give them. A builder takes any positive number below its
/// own maximum, which is no less than 255.
#[verifier::external_body]
fn build_pool(threads: usize) -> (result: Result<
    rayon::ThreadPool,
    rayon::ThreadPoolBuildError,
>)
    requires
        0 < threads <= 255,
    ensures
        result matches Ok(pool) ==> pool_threads(pool) == threads,
{
    rayon::ThreadPoolBuilder::new().num_threads(threads).build()
}

/// The text that a `rayon::ThreadPoolBuildError` is displayed as. It comes from the system, and
/// nothing is said of it.
#[verifier::external_body]
fn build_error_message(error: &rayon::ThreadPoolBuildError) -> (message: String) {
    error.to_string()
}

/// `rayon::ThreadPool::current_num_threads`: the number of threads that the pool was built with.
#[verifier::external_body]
pub(crate) fn current_num_threads(pool: &rayon::ThreadPool) -> (threads: usize)
    ensures
        threads == pool_threads(*pool),
{
    pool.current_num_threads()
}

/// Whether a pool of `threads` threads was asked for and refused with `message`.
pub closed spec fn is_build_failure(threads: usize, message: Seq<char>) -> bool {
    exists|error: rayon::ThreadPoolBuildError, text: String|
        call_ensures(build_pool, (threads,), Err(error)) && #[trigger] call_ensures(
            build_error_message,
            (&error,),
            text,
        ) && text@ == message
}

/// A pool of `threads` threads, or why the system does not give them.
pub fn thread_pool(threads: usize) -> (result: Result<rayon::ThreadPool, String>)
    requires
        0 < threads <= 255,
    ensures
        match result {
            Ok(pool) => pool_threads(pool) == threads,
            Err(message) => is_build_failure(threads, message@),
        },
{
    match build_pool(threads) {
        Ok(pool) => Ok(pool),
        Err(error) => Err(build_error_message(&error)),
    }
}

/// `num_cpus::get_physical`: the number of physical cores. It depends on the machine, and nothing
/// is said of it.
pub assume_specification[ num_cpus::get_physical ]() -> usize;

/// Whether `threads` is the number to use on a machine with `cores` cores.
pub open spec fn is_for_cores(threads: usize, cores: usize) -> bool {
    threads == if cores == 0 {
        1
    } else {
        cores
    }
}

/// The number of threads to use on a machine with `cores` cores.
pub fn threads_for_cores(cores: usize) -> (threads: usize)
    ensures
        is_for_cores(threads, cores),
{
    if cores == 0 {
        1
    } else {
        cores
    }
}

/// The number of physical cores, or of logical ones where the physical are not known; at least
/// one. It is the number for what `num_cpus::get_physical` returned.
pub fn default_threads() -> (threads: usize)
    ensures
        threads >= 1,
        exists|cores: usize|
            call_ensures(num_cpus::get_physical, (), cores) && #[trigger] is_for_cores(
                threads,
                cores,
            ),
{
    threads_for_cores(num_cpus::get_physical())
}

} // verus!
