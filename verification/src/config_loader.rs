//! Configuration: stage profiles (stage name to its keywords) and expert
//! combos.

use vstd::prelude::*;
use crate::str_map::{pairs_to_map, StrMap};
use crate::text::clone_strings;

verus! {

/// A named combination of skills recommended by experts.
#[derive(Debug, Clone)]
pub struct ExpertCombo {
    pub name: String,
    pub skills: Vec<String>,
    pub description: Option<String>,
}

/// Stage profiles: each cognitive stage with its keywords.
pub type StageProfiles = StrMap<Vec<String>>;

/// Why a configuration text was refused.
#[derive(Debug)]
pub enum ConfigError {
    /// The stage profiles are not a YAML mapping from names to lists of
    /// strings; the parser's message.
    InvalidStageProfiles(String),
}

/// What `serde_yaml::from_str` reads from the YAML text `content` as a
/// mapping from strings to lists of strings, its entries in increasing key
/// order; `None` where it refuses the text.
pub uninterp spec fn spec_yaml_stage_entries(
    content: Seq<char>,
) -> Option<Seq<(Seq<char>, Seq<Seq<char>>)>>;

/// `serde_yaml::from_str` into a `BTreeMap<String, Vec<String>>`, its entries
/// listed in key order: the outcome is a function of the text alone; on a
/// refusal, the parser's message (nothing is stated of the message).
#[verifier::external_body]
fn yaml_stage_entries(content: &str) -> (r: Result<Vec<(String, Vec<String>)>, String>)
    ensures
        match r {
            Ok(v) => spec_yaml_stage_entries(content@) == Some(v.deep_view()),
            Err(_) => spec_yaml_stage_entries(content@) is None,
        },
{
    match serde_yaml::from_str::<std::collections::BTreeMap<String, Vec<String>>>(content) {
        Ok(m) => Ok(m.into_iter().collect()),
        Err(e) => Err(e.to_string()),
    }
}

/// The stage profiles that the YAML text `content` holds.
pub fn parse_stage_profiles(content: &str) -> (r: Result<StageProfiles, ConfigError>)
    ensures
        r is Ok <==> spec_yaml_stage_entries(content@) is Some,
        r matches Ok(p) ==> p@ == pairs_to_map(spec_yaml_stage_entries(content@).unwrap()),
{
    match yaml_stage_entries(content) {
        Ok(entries) => Ok(stage_profiles_from(&entries)),
        Err(msg) => Err(ConfigError::InvalidStageProfiles(msg)),
    }
}

/// The stage profiles holding `entries`, a later entry of a stage replacing
/// an earlier one.
pub fn stage_profiles_from(entries: &Vec<(String, Vec<String>)>) -> (r: StageProfiles)
    ensures
        r@ == pairs_to_map(entries.deep_view()),
{
    let ghost dv = entries.deep_view();
    let mut p: StageProfiles = StrMap::new();
    let mut i: usize = 0;
    while i < entries.len()
        invariant
            i <= entries.len(),
            dv == entries.deep_view(),
            p@ == pairs_to_map(dv.take(i as int)),
        decreases entries.len() - i,
    {
        let key = entries[i].0.clone();
        let kws = clone_strings(&entries[i].1);
        assert(dv[i as int] == (key@, kws.deep_view()));
        p.insert(key, kws);
        assert(dv.take(i + 1).drop_last() =~= dv.take(i as int));
        i += 1;
    }
    assert(dv.take(entries.len() as int) =~= dv);
    p
}


/// The stages of the profiles read from a YAML text are exactly the keys of
/// its entries.
pub proof fn law_stages_are_the_entry_keys(entries: Seq<(Seq<char>, Seq<Seq<char>>)>)
    ensures
        forall|k: Seq<char>|
            pairs_to_map(entries).dom().contains(k) <==> exists|i: int|
                0 <= i < entries.len() && entries[i].0 == k,
    decreases entries.len(),
{
    if entries.len() > 0 {
        let init = entries.drop_last();
        law_stages_are_the_entry_keys(init);
        assert forall|k: Seq<char>|
            pairs_to_map(entries).dom().contains(k) <==> exists|i: int|
                0 <= i < entries.len() && entries[i].0 == k by {
            if pairs_to_map(entries).dom().contains(k) && k != entries.last().0 {
                assert(pairs_to_map(init).dom().contains(k));
                let i = choose|i: int| 0 <= i < init.len() && init[i].0 == k;
                assert(entries[i] == init[i]);
            }
            if exists|i: int| 0 <= i < entries.len() && entries[i].0 == k {
                let i = choose|i: int| 0 <= i < entries.len() && entries[i].0 == k;
                if i < entries.len() - 1 {
                    assert(init[i] == entries[i]);
                    assert(pairs_to_map(init).dom().contains(k));
                }
            }
        }
    }
}

} // verus!
