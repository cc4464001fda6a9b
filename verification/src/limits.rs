//! How many change files are kept open.

use vstd::prelude::*;

verus! {

/// What is known of the number of files that may be open.
pub enum FileLimit {
    /// The limit of a Unix process, if it could be read.
    Unix(Option<u64>),
    /// Another system, where nothing is known.
    Other,
}

/// The number of processors is needed and not known.
#[derive(Debug)]
pub struct UnknownParallelism;

/// The number of change files to keep open: half of the limit, shared among
/// the processors, and at least one.
pub open spec fn files_per_processor(limit: usize, parallelism: usize) -> int {
    let n = limit as int / (2 * parallelism);
    if n < 1 {
        1
    } else {
        n
    }
}

/// The number of change files to keep open.
pub open spec fn files_allowed(limit: FileLimit, parallelism: Option<usize>) -> Option<int> {
    match limit {
        FileLimit::Unix(Some(n)) => match parallelism {
            Some(p) => Some(files_per_processor(n as usize, p)),
            None => None,
        },
        FileLimit::Unix(None) => Some(256),
        FileLimit::Other => Some(1),
    }
}

/// The number of change files to keep open, where `limit` is what is known of
/// the limit, and `parallelism` is the number of processors, if it is known.
pub fn max_files_for(limit: FileLimit, parallelism: Option<usize>) -> (r: Result<
    usize,
    UnknownParallelism,
>)
    requires
        parallelism matches Some(p) ==> 0 < p && 2 * p <= usize::MAX,
    ensures
        match files_allowed(limit, parallelism) {
            Some(n) => r matches Ok(m) && m == n,
            None => r is Err,
        },
{
    match limit {
        FileLimit::Unix(Some(n)) => match parallelism {
            Some(p) => {
                let limit: usize = n as usize;
                let files: usize = limit / (2 * p);
                if files < 1 {
                    Ok(1)
                } else {
                    Ok(files)
                }
            },
            None => Err(UnknownParallelism),
        },
        FileLimit::Unix(None) => Ok(256),
        FileLimit::Other => Ok(1),
    }
}

/// `rlimit::getrlimit`, for the number of open files: the soft limit of the
/// process, which can be any number, or nothing if it cannot be read.
#[verifier::external_body]
fn open_files() -> Option<u64> {
    let (soft, _) = rlimit::getrlimit(rlimit::Resource::NOFILE).ok()?;
    Some(soft)
}

/// The number of change files that a Unix process keeps open, which is at least
/// one.
pub fn max_files(parallelism: Option<usize>) -> (r: Result<usize, UnknownParallelism>)
    requires
        parallelism matches Some(p) ==> 0 < p && 2 * p <= usize::MAX,
    ensures
        exists|limit: Option<u64>|
            {
                match #[trigger] files_allowed(FileLimit::Unix(limit), parallelism) {
                    Some(n) => r matches Ok(m) && m == n,
                    None => r is Err,
                }
            },
        r matches Ok(n) ==> n >= 1,
        parallelism is Some ==> r is Ok,
{
    max_files_for(FileLimit::Unix(open_files()), parallelism)
}

/// Of a limit that is known, every processor keeps its share of one half open,
/// as large as it can be, and at least one file. The number of processors
/// matters only there.
pub proof fn law_shares_of_the_limit(limit: u64, p: usize, any: Option<usize>)
    requires
        limit <= usize::MAX,
        0 < p,
        2 * p <= usize::MAX,
    ensures
        files_allowed(FileLimit::Unix(Some(limit)), Some(p)) matches Some(n) && {
            &&& n >= 1
            &&& n == 1 || 2 * p * n <= limit
            &&& limit < 2 * p * (n + 1)
        },
        files_allowed(FileLimit::Unix(Some(limit)), None) is None,
        files_allowed(FileLimit::Unix(None), any) == Some(256int),
        files_allowed(FileLimit::Other, any) == Some(1int),
{
    let d = 2 * p as int;
    let q = limit as int / d;
    vstd::arithmetic::div_mod::lemma_fundamental_div_mod(limit as int, d);
    vstd::arithmetic::div_mod::lemma_mod_bound(limit as int, d);
    assert(d * (q + 1) == d * q + d) by (nonlinear_arith);
    if q < 1 {
        assert(d * 2 >= d * (q + 1)) by (nonlinear_arith)
            requires
                q < 1,
                d > 0,
        ;
    }
}

/// The number of files that are kept open is the share of a processor, where the
/// limit is known, and is not known itself only if that number of processors is
/// not.
pub proof fn law_files_kept_open(
    limit: u64,
    p: usize,
    any: Option<usize>,
    a: Result<usize, UnknownParallelism>,
    b: Result<usize, UnknownParallelism>,
    c: Result<usize, UnknownParallelism>,
    d: Result<usize, UnknownParallelism>,
    e: Result<usize, UnknownParallelism>,
)
    requires
        limit <= usize::MAX,
        0 < p,
        2 * p <= usize::MAX,
        call_ensures(max_files_for, (FileLimit::Unix(Some(limit)), Some(p)), a),
        call_ensures(max_files_for, (FileLimit::Unix(Some(limit)), None), b),
        call_ensures(max_files_for, (FileLimit::Unix(None), any), c),
        call_ensures(max_files_for, (FileLimit::Other, any), d),
        call_ensures(max_files, (Some(p),), e),
    ensures
        a matches Ok(n) && n >= 1 && (n == 1 || 2 * p * n <= limit) && limit < 2 * p * (n + 1),
        b is Err,
        c matches Ok(n) && n == 256,
        d matches Ok(n) && n == 1,
        e matches Ok(n) && n >= 1,
{
    law_shares_of_the_limit(limit, p, any);
}

} // verus!
