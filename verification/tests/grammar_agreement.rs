use regex::Regex;
use sequential_combination::{extract_frontmatter, extract_key_rules, extract_sections};
use std::collections::HashMap;
use std::sync::OnceLock;

fn compiled(slot: &'static OnceLock<Regex>, pattern: &str) -> &'static Regex {
    slot.get_or_init(|| Regex::new(pattern).unwrap())
}

static SECTION: OnceLock<Regex> = OnceLock::new();
static RULE: OnceLock<Regex> = OnceLock::new();
static FRONT: OnceLock<Regex> = OnceLock::new();

fn regex_sections(content: &str) -> Vec<String> {
    let re = compiled(&SECTION, r"(?m)^#{1,3}\s+(.+)$");
    re.captures_iter(content).map(|c| c[1].trim().to_string()).take(10).collect()
}

fn regex_rules(content: &str) -> Vec<String> {
    let re = compiled(&RULE, r"(?m)^[-*]\s+\*\*(.+?)\*\*.*$");
    re.captures_iter(content).map(|c| c[1].trim().to_string()).take(5).collect()
}

fn regex_frontmatter(content: &str) -> HashMap<String, String> {
    let re = compiled(&FRONT, r"(?s)^---\n(.+?)\n---");
    let mut map = HashMap::new();
    if let Some(caps) = re.captures(content) {
        for line in caps.get(1).map_or("", |m| m.as_str()).lines() {
            if let Some((k, v)) = line.split_once(':') {
                map.insert(k.trim().to_string(), v.trim().trim_matches('"').to_string());
            }
        }
    }
    map
}

struct Lcg(u64);

impl Lcg {
    fn next(&mut self) -> u64 {
        self.0 = self.0.wrapping_mul(6364136223846793005).wrapping_add(1442695040888963407);
        self.0 >> 33
    }
}

const ALPHABET: [char; 14] =
    ['#', '-', '*', ' ', '\n', '\t', 'a', 'b', '\r', '"', ':', '\u{a0}', '\u{2028}', 'é'];

fn random_doc(rng: &mut Lcg, len: usize) -> String {
    let mut s = String::new();
    if rng.next() % 3 == 0 {
        s.push_str("---\n");
    }
    for _ in 0..len {
        let c = ALPHABET[(rng.next() % ALPHABET.len() as u64) as usize];
        s.push(c);
        if rng.next() % 11 == 0 {
            s.push_str(["\n---", "**", "\n## ", "\n- **", "key: \"v\"\n"][(rng.next() % 5) as usize]);
        }
    }
    s
}

fn check(doc: &str) {
    assert_eq!(extract_sections(doc), regex_sections(doc), "sections of {:?}", doc);
    assert_eq!(extract_key_rules(doc), regex_rules(doc), "rules of {:?}", doc);
    let expected = regex_frontmatter(doc);
    let meta = extract_frontmatter(doc);
    assert_eq!(meta.len(), expected.len(), "metadata size of {:?}", doc);
    for (k, v) in &expected {
        assert_eq!(meta.get(k), Some(v), "metadata {:?} of {:?}", k, doc);
    }
}

#[test]
fn scanners_agree_with_the_patterns_on_random_documents() {
    let mut rng = Lcg(0x5eed);
    for round in 0..1500 {
        let len = (round % 60) as usize;
        let doc = random_doc(&mut rng, len);
        check(&doc);
    }
}

#[test]
fn scanners_agree_with_the_patterns_on_edge_cases() {
    for doc in [
        "",
        "#",
        "# ",
        "#  \n",
        "# \n\n",
        "#\n\n x",
        "#\n## B",
        "#### four\n### three",
        "## Title  \n# Next\n",
        "-\n**a**",
        "- ***a**",
        "- **a\nb**",
        "* ** x ** tail\n- **y**",
        "---\n\n---",
        "---\na\n\n---",
        "---\nk: v\r\nq:\"w\"\n---\n# H",
        "---\nk: 1\nk: 2\n---",
        "---\nname: x\ndescription:  \"quoted\" \n---\nbody",
    ] {
        check(doc);
    }
}
