//! Shaping of user-facing terminal output (printing is left to the caller).

use vstd::prelude::*;

use crate::text::{chars_of, string_of};

verus! {

/// The rule printed under a heading: one `-` per character of the heading,
/// at most 60.
pub open spec fn heading_rule_spec(heading: Seq<char>) -> Seq<char> {
    Seq::new(if heading.len() < 60 { heading.len() } else { 60 }, |i: int| '-')
}

/// The rule printed under `heading`.
pub fn heading_rule(heading: &str) -> (r: String)
    ensures
        r@ == heading_rule_spec(heading@),
{
    let count = chars_of(heading).len();
    let n = if count < 60 {
        count
    } else {
        60
    };
    let mut rule: Vec<char> = Vec::new();
    for i in 0..n
        invariant
            rule@ == Seq::new(i as nat, |k: int| '-'),
    {
        rule.push('-');
        assert(rule@ == Seq::new((i + 1) as nat, |k: int| '-'));
    }
    string_of(&rule)
}

} // verus!
