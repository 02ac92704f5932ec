//! Names for the devices and mount points a test creates.
use vstd::prelude::*;
use vstd::string::StringExecFns;
use crate::decimal::{decimal, format_u64, lemma_decimal_injective};

verus! {

/// `dmtest-<n>`.
pub open spec fn name_of(n: u64) -> Seq<char> {
    "dmtest-"@ + decimal(n as nat)
}

/// The name that the `n`-th request for a fresh name gets.
pub fn rand_name(n: u64) -> (s: String)
    ensures
        s@ == name_of(n),
{
    let mut s = String::from_str("dmtest-");
    s.append(format_u64(n).as_str());
    s
}

/// Different counts give different names.
pub proof fn lemma_names_distinct(a: u64, b: u64)
    requires
        a != b,
    ensures
        name_of(a) != name_of(b),
{
    let p = "dmtest-"@;
    if name_of(a) == name_of(b) {
        assert(decimal(a as nat) =~= name_of(a).skip(p.len() as int));
        assert(decimal(b as nat) =~= name_of(b).skip(p.len() as int));
        lemma_decimal_injective(a as nat, b as nat);
    }
}

} // verus!
