//! What the launcher hands to the test executable.

use vstd::prelude::*;

verus! {

/// An environment entry `key=value`.
pub open spec fn env_entry(key: Seq<char>, value: Seq<char>) -> Seq<char> {
    key + "="@ + value
}

/// The environment of the test executable: a single test thread first, then
/// the inherited `vars`, then backtraces switched on.
pub fn test_environment(vars: &Vec<(String, String)>) -> (r: Vec<String>)
    ensures
        r@.len() == vars@.len() + 2,
        r@[0]@ == "RUST_TEST_THREADS=1"@,
        r@[r@.len() - 1]@ == "RUST_BACKTRACE=1"@,
        forall|i: int|
            0 <= i < vars@.len() ==> (#[trigger] r@[i + 1])@ == env_entry(vars@[i].0@, vars@[i].1@),
{
    let mut r: Vec<String> = Vec::new();
    r.push("RUST_TEST_THREADS=1".to_string());
    let mut i: usize = 0;
    while i < vars.len()
        invariant
            0 <= i <= vars@.len(),
            r@.len() == i + 1,
            r@[0]@ == "RUST_TEST_THREADS=1"@,
            forall|k: int| 0 <= k < i ==> (#[trigger] r@[k + 1])@ == env_entry(vars@[k].0@, vars@[k].1@),
        decreases vars@.len() - i,
    {
        let entry = vars[i].0.clone().concat("=").concat(vars[i].1.as_str());
        r.push(entry);
        i = i + 1;
    }
    r.push("RUST_BACKTRACE=1".to_string());
    r
}

} // verus!
