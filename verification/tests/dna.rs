use sequential_combination::{
    expert_dna_summary, extract_dna, extract_frontmatter, extract_key_rules, extract_sections, format_dna_compact,
};

const DOC: &str = "---\nname: writer\ndescription: \"Writes clear prose\"\nowner : team a \n---\n# Writing\n\nSome text.\n\n## Style\n- **Be brief** always\n* **Use examples**\n### Checklist\n#### Too deep\n";

#[test]
fn dna_takes_description_from_front_matter() {
    let dna = extract_dna("writer-skill", DOC);
    assert_eq!(dna.name, "writer-skill");
    assert_eq!(dna.description, "Writes clear prose");
    assert_eq!(dna.sections, vec!["Writing", "Style", "Checklist"]);
    assert_eq!(dna.key_rules, vec!["Be brief", "Use examples"]);
    assert_eq!(dna.metadata.len(), 3);
    assert_eq!(dna.metadata.get("owner").map(|s| s.as_str()), Some("team a"));
    assert_eq!(dna.metadata.get("name").map(|s| s.as_str()), Some("writer"));
}

#[test]
fn dna_falls_back_to_first_heading_then_empty() {
    let dna = extract_dna("s", "intro\n## First\n## Second\n");
    assert_eq!(dna.description, "First");
    assert_eq!(dna.metadata.len(), 0);
    let bare = extract_dna("s", "no headings here\n");
    assert_eq!(bare.description, "");
    assert!(bare.sections.is_empty());
    assert!(bare.key_rules.is_empty());
}

#[test]
fn sections_stop_at_ten_and_rules_at_five() {
    let mut doc = String::new();
    for i in 0..12 {
        doc.push_str(&format!("# H{}\n- **R{}** x\n", i, i));
    }
    let sections = extract_sections(&doc);
    assert_eq!(sections.len(), 10);
    assert_eq!(sections[9], "H9");
    let rules = extract_key_rules(&doc);
    assert_eq!(rules, vec!["R0", "R1", "R2", "R3", "R4"]);
}

#[test]
fn headings_need_one_to_three_hashes_and_whitespace() {
    assert_eq!(extract_sections("#NoSpace\n#### four\n###\tTab  \n"), vec!["Tab"]);
    assert_eq!(extract_sections("text # not a heading\n"), Vec::<String>::new());
}

#[test]
fn rules_need_a_bold_span_on_one_line() {
    assert_eq!(extract_key_rules("- **open\nclose**\n- plain\n-   ** spaced ** tail"), vec!["spaced"]);
}

#[test]
fn front_matter_needs_an_opening_and_closing_fence() {
    assert_eq!(extract_frontmatter("no fence: here").len(), 0);
    assert_eq!(extract_frontmatter("---\nk: v\n").len(), 0);
    let m = extract_frontmatter("---\nk: 1\r\nk: \"2\"\nno colon\n---");
    assert_eq!(m.len(), 1);
    assert_eq!(m.get("k").map(|s| s.as_str()), Some("2"));
}

#[test]
fn compact_form_lists_present_parts_only() {
    let dna = extract_dna("writer", DOC);
    assert_eq!(
        format_dna_compact(&dna),
        "## writer\n**Description**: Writes clear prose\n**Sections**: Writing, Style, Checklist\n**Key Rules**: Be brief; Use examples"
    );
    let bare = extract_dna("x", "plain");
    assert_eq!(format_dna_compact(&bare), "## x\n**Description**: ");
}

#[test]
fn summary_is_the_compact_form_of_the_dna() {
    assert_eq!(expert_dna_summary(Some("writer"), DOC), format_dna_compact(&extract_dna("writer", DOC)));
}

#[test]
fn whitespace_running_to_the_end_gives_an_empty_heading() {
    assert_eq!(extract_sections("#  \n"), vec![""]);
    assert_eq!(extract_sections("# \n"), Vec::<String>::new());
    assert_eq!(extract_sections("#\n\n Title\n"), vec!["Title"]);
}
