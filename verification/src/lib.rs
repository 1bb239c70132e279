//! Skill catalogue logic: parsing of SKILL.md documents into condensed
//! "DNA" summaries, stage profiles, expert combos and the catalogue of
//! indexed skills with its lookup and keyword-matching rules.

pub mod config_loader;
pub mod dna_extractor;
pub mod skills_index;
pub mod str_map;
pub mod text;

pub use dna_extractor::{
    extract_dna, extract_frontmatter, extract_key_rules, extract_sections, format_dna_compact,
    Metadata, SkillDna,
};
pub use config_loader::{parse_stage_profiles, ConfigError, ExpertCombo, StageProfiles};
pub use str_map::StrMap;
pub use skills_index::{keyword_hits, skill_id_from_dir_name, expert_dna_summary, SkillEntry, SkillsIndexer};
