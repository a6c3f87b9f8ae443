//! What the command line asks for, read from its arguments.

use vstd::prelude::*;
use crate::index::{Tier, tier_key};
use crate::text::{chars_of, string_of, lower_chars, same_chars, lower};
use crate::number::{append_str, append_chars};

verus! {

pub open spec fn all_tiers() -> Seq<Tier> {
    seq![Tier::Lookup, Tier::Ranks, Tier::Inbound]
}

/// The tier whose key is `key`.
pub open spec fn tier_named(key: Seq<char>) -> Option<Tier> {
    if key == tier_key(Tier::Lookup) {
        Some(Tier::Lookup)
    } else if key == tier_key(Tier::Ranks) {
        Some(Tier::Ranks)
    } else if key == tier_key(Tier::Inbound) {
        Some(Tier::Inbound)
    } else {
        None
    }
}

/// Reading the tier names `reqs` after the ones that gave `acc`: every tier
/// once in the order first named, all of them at `all`, or the first name
/// that is no tier.
pub open spec fn tiers_from(reqs: Seq<Seq<char>>, acc: Seq<Tier>) -> Result<Seq<Tier>, Seq<char>>
    decreases reqs.len(),
{
    if reqs.len() == 0 {
        Ok(acc)
    } else {
        let raw = reqs[0];
        if lower(raw) == "all"@ {
            Ok(all_tiers())
        } else {
            match tier_named(lower(raw)) {
                Some(t) => tiers_from(reqs.drop_first(), if acc.contains(t) { acc } else { acc.push(t) }),
                None => Err(raw),
            }
        }
    }
}

/// The tiers a command names: all of them when it names none.
pub open spec fn spec_parse_tiers(reqs: Seq<Seq<char>>) -> Result<Seq<Tier>, Seq<char>> {
    if reqs.len() == 0 { Ok(all_tiers()) } else { tiers_from(reqs, Seq::empty()) }
}

/// The message for a name that is no tier.
pub open spec fn unknown_tier_message(raw: Seq<char>) -> Seq<char> {
    "невідомий рівень «"@ + raw + "» — доступні: lookup, ranks, inbound"@
}

fn all_vec() -> (v: Vec<Tier>)
    ensures
        v@ == all_tiers(),
{
    let mut v: Vec<Tier> = Vec::new();
    v.push(Tier::Lookup);
    v.push(Tier::Ranks);
    v.push(Tier::Inbound);
    assert(v@ =~= all_tiers());
    v
}

fn tier_from_key(key: &Vec<char>) -> (r: Option<Tier>)
    ensures
        r == tier_named(key@),
{
    if same_chars(key, &chars_of("lookup")) {
        Some(Tier::Lookup)
    } else if same_chars(key, &chars_of("ranks")) {
        Some(Tier::Ranks)
    } else if same_chars(key, &chars_of("inbound")) {
        Some(Tier::Inbound)
    } else {
        None
    }
}

fn holds(tiers: &Vec<Tier>, t: Tier) -> (r: bool)
    ensures
        r == tiers@.contains(t),
{
    let mut i: usize = 0;
    while i < tiers.len()
        invariant
            i <= tiers@.len(),
            forall|j: int| 0 <= j < i ==> tiers@[j] != t,
        decreases tiers.len() - i,
    {
        if tiers[i] == t {
            assert(tiers@[i as int] == t);
            return true;
        }
        i = i + 1;
    }
    false
}

/// The tiers `requested` names, each once; `all` (in any letter case) or
/// naming none means every tier. A name that is no tier is refused with a
/// message listing the valid ones.
pub fn parse_tiers(requested: &[String]) -> (r: Result<Vec<Tier>, String>)
    ensures
        match r {
            Ok(v) => spec_parse_tiers(requested@.map_values(|s: String| s@)) == Ok::<Seq<Tier>, Seq<char>>(v@),
            Err(m) => exists|raw: Seq<char>| spec_parse_tiers(requested@.map_values(|s: String| s@)) == Err::<Seq<Tier>, Seq<char>>(raw)
                && m@ == unknown_tier_message(raw),
        },
{
    let ghost reqs = requested@.map_values(|s: String| s@);
    if requested.len() == 0 {
        return Ok(all_vec());
    }
    let mut tiers: Vec<Tier> = Vec::new();
    let mut i: usize = 0;
    proof {
        assert(reqs.subrange(0, reqs.len() as int) =~= reqs);
    }
    while i < requested.len()
        invariant
            i <= requested@.len(),
            reqs == requested@.map_values(|s: String| s@),
            reqs.len() > 0,
            spec_parse_tiers(reqs) == tiers_from(reqs.subrange(i as int, reqs.len() as int), tiers@),
        decreases requested.len() - i,
    {
        let raw = &requested[i];
        let lowered = lower_chars(&chars_of(raw.as_str()));
        let ghost rest = reqs.subrange(i as int, reqs.len() as int);
        proof {
            assert(rest[0] == raw@);
            assert(rest.drop_first() =~= reqs.subrange(i + 1, reqs.len() as int));
        }
        if same_chars(&lowered, &chars_of("all")) {
            return Ok(all_vec());
        }
        match tier_from_key(&lowered) {
            Some(t) => {
                if !holds(&tiers, t) {
                    tiers.push(t);
                }
            },
            None => {
                let mut m: Vec<char> = Vec::new();
                append_str(&mut m, "невідомий рівень «");
                append_str(&mut m, raw.as_str());
                append_str(&mut m, "» — доступні: lookup, ranks, inbound");
                let msg = string_of(&m);
                proof {
                    assert(tiers_from(rest, tiers@) == Err::<Seq<Tier>, Seq<char>>(raw@));
                    assert(msg@ =~= unknown_tier_message(raw@));
                    assert(spec_parse_tiers(requested@.map_values(|s: String| s@)) == Err::<Seq<Tier>, Seq<char>>(raw@)
                        && msg@ == unknown_tier_message(raw@));
                }
                return Err(msg);
            },
        }
        i = i + 1;
    }
    proof {
        assert(reqs.subrange(i as int, reqs.len() as int) =~= Seq::<Seq<char>>::empty());
    }
    Ok(tiers)
}

} // verus!
