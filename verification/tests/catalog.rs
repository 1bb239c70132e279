use std::path::PathBuf;

use sequential_combination::{
    expert_dna_summary, keyword_hits, parse_stage_profiles, skill_id_from_dir_name, ExpertCombo,
    SkillsIndexer, StageProfiles, StrMap,
};

fn profiles() -> StageProfiles {
    parse_stage_profiles("planning:\n  - plan\n  - roadmap\nanalysis: [data, metrics]\nDesign: [ui]\n")
        .unwrap()
}

fn combos() -> Vec<ExpertCombo> {
    vec![
        ExpertCombo { name: "Planning".to_string(), skills: vec!["a".to_string()], description: None },
        ExpertCombo {
            name: "planning".to_string(),
            skills: vec![],
            description: Some("second".to_string()),
        },
    ]
}

fn catalog() -> SkillsIndexer {
    SkillsIndexer::new(PathBuf::from("/skills"), profiles(), combos())
}

#[test]
fn stage_profiles_parse_from_yaml() {
    let p = profiles();
    assert_eq!(p.len(), 3);
    assert_eq!(p.get("analysis"), Some(&vec!["data".to_string(), "metrics".to_string()]));
    assert!(p.get("missing").is_none());
}

#[test]
fn stage_profiles_refuse_what_is_not_a_mapping_of_lists() {
    assert!(parse_stage_profiles("- just\n- a list\n").is_err());
    assert!(parse_stage_profiles("stage: [unclosed").is_err());
}

#[test]
fn stages_are_listed_in_order() {
    assert_eq!(catalog().list_stages(), vec!["Design", "analysis", "planning"]);
    let empty = SkillsIndexer::new(PathBuf::from("/"), StageProfiles::new(), vec![]);
    assert!(empty.list_stages().is_empty());
}

#[test]
fn stage_keywords_of_unknown_stage_are_empty() {
    let c = catalog();
    assert_eq!(c.stage_keywords("planning"), vec!["plan", "roadmap"]);
    assert!(c.stage_keywords("Planning").is_empty());
}

#[test]
fn skill_ids_are_lowercase_with_dashes() {
    assert_eq!(skill_id_from_dir_name(Some("My Great Skill")), "my-great-skill");
    assert_eq!(skill_id_from_dir_name(None), "unknown");
    assert_eq!(skill_id_from_dir_name(Some("ÉCOLE Ünï")), "école-ünï");
}

#[test]
fn added_skill_is_found_by_id_and_by_name() {
    let mut c = catalog();
    let doc = c.add_skill(
        PathBuf::from("/skills/Deep Work/SKILL.md"),
        Some("Deep Work"),
        "---\ndescription: Focus\n---\n# Intro\n## Rules\n",
    );
    assert_eq!(doc, "deep-work Focus");
    let e = &c.skills()[0];
    assert_eq!(e.id, "deep-work");
    assert_eq!(e.name, "deep-work");
    assert_eq!(e.description, "Focus");
    assert_eq!(e.content_preview, "Intro, Rules");
    assert_eq!(c.find_skill_path("deep-work"), Some(PathBuf::from("/skills/Deep Work/SKILL.md")));
    assert_eq!(c.find_skill_path("DEEP-WORK"), Some(PathBuf::from("/skills/Deep Work/SKILL.md")));
    assert_eq!(c.find_skill_path("deep work"), None);
}

#[test]
fn lookup_returns_the_first_skill_that_answers() {
    let mut c = catalog();
    c.add_skill(PathBuf::from("/a/SKILL.md"), Some("Same"), "# A");
    c.add_skill(PathBuf::from("/b/SKILL.md"), Some("same"), "# B");
    assert_eq!(c.skills().len(), 2);
    assert_eq!(c.find_skill(c.skills()[1].id.as_str()), Some(0));
    assert_eq!(c.find_skill_path("same"), Some(PathBuf::from("/a/SKILL.md")));
}

#[test]
fn expert_combo_is_matched_case_insensitively_first_wins() {
    let c = catalog();
    let found = c.expert_combo_for_stage("PLANNING").unwrap();
    assert_eq!(found.skills, vec!["a".to_string()]);
    assert!(c.expert_combo_for_stage("design").is_none());
    assert_eq!(c.get_expert_combos().len(), 2);
}

#[test]
fn keyword_hits_count_keywords_and_task_words() {
    let kws = vec!["plan".to_string(), "road".to_string(), "zzz".to_string()];
    let (stage, words) =
        keyword_hits(&kws, "  Build a ROADMAP  now ", "roadmap-builder", "Helps you PLAN things");
    assert_eq!(stage, 2);
    // "build" (id), "a" (id and description), "roadmap" (id); "now" nowhere
    assert_eq!(words, 3);
    assert_eq!(keyword_hits(&vec![], "", "", ""), (0, 0));
}

#[test]
fn expert_dna_summary_names_unknown_directories() {
    assert_eq!(expert_dna_summary(None, "# Only"), "## unknown\n**Description**: Only\n**Sections**: Only");
    assert_eq!(expert_dna_summary(Some("Dir"), ""), "## Dir\n**Description**: ");
}

#[test]
fn str_map_insert_replaces_and_get_reads_back() {
    let mut m: StrMap<String> = StrMap::new();
    m.insert("k".to_string(), "1".to_string());
    m.insert("j".to_string(), "2".to_string());
    m.insert("k".to_string(), "3".to_string());
    assert_eq!(m.len(), 2);
    assert_eq!(m.get("k").map(|s| s.as_str()), Some("3"));
    assert_eq!(m.sorted_keys(), vec!["j", "k"]);
}
