//! DNA extraction: the condensed summary of a SKILL.md document.
//!
//! A document may open with a front-matter block (`---` on the first line,
//! `key: value` lines, then a line starting with `---`); headings are lines
//! that start with one to three `#` and whitespace; key rules are list items
//! (`-` or `*`, whitespace) whose text opens with a bold span `**...**`.

use vstd::prelude::*;
use crate::str_map::{pairs_to_map, StrMap};
use crate::text::{
    chars_of, find_char_from, lemma_run_end, line_end, line_end_of, lines, lines_from,
    not_char_pred, run_end, slice_vec, string_of_range, strip_both, strip_cr, strip_range, trim,
    trim_range, is_char_pred, is_line_start, is_whitespace, is_ws, same_run_end, ws_pred,
    ws_run_end, join, join_strings, trim_start, trim_end, contains_seq, lemma_contains_concat,
    lemma_contains_self, lemma_contains_trans, law_join_contains_parts,
};

verus! {

/// The key/value metadata of a document's front matter.
pub type Metadata = StrMap<String>;

// ---------------------------------------------------------------------------
// Front matter
// ---------------------------------------------------------------------------

/// The first `j' >= j` where `"\n---"` starts.
pub open spec fn fm_close(s: Seq<char>, j: int) -> Option<int>
    decreases s.len() - j,
{
    if j < 0 || j + 4 > s.len() {
        None
    } else if s[j] == '\n' && s[j + 1] == '-' && s[j + 2] == '-' && s[j + 3] == '-' {
        Some(j)
    } else {
        fm_close(s, j + 1)
    }
}

/// The front-matter block of a document: it opens with `"---\n"`; the block
/// is the shortest non-empty text after that which `"\n---"` follows.
pub open spec fn frontmatter_block(s: Seq<char>) -> Option<Seq<char>> {
    if s.len() >= 4 && s[0] == '-' && s[1] == '-' && s[2] == '-' && s[3] == '\n' {
        match fm_close(s, 5) {
            Some(j) => Some(s.subrange(4, j)),
            None => None,
        }
    } else {
        None
    }
}

/// The entry that a front-matter line gives: the line holds a `':'`; the key
/// is the trimmed text before the first `':'`, the value the trimmed text
/// after it without its surrounding `'"'`s.
pub open spec fn line_entry(line: Seq<char>) -> Option<(Seq<char>, Seq<char>)> {
    let k = run_end(line, 0, not_char_pred(':'));
    if k < line.len() {
        Some(
            (
                trim(line.subrange(0, k)),
                strip_both(trim(line.subrange(k + 1, line.len() as int)), '"'),
            ),
        )
    } else {
        None
    }
}

/// The entries of the lines that hold one, in order.
pub open spec fn entries_of_lines(ls: Seq<Seq<char>>) -> Seq<(Seq<char>, Seq<char>)>
    decreases ls.len(),
{
    if ls.len() == 0 {
        seq![]
    } else {
        entries_of_lines(ls.drop_last()) + match line_entry(ls.last()) {
            Some(e) => seq![e],
            None => seq![],
        }
    }
}

/// The metadata of a document: the entries of its front-matter lines, a
/// later entry of a key replacing an earlier one; empty without front matter.
pub open spec fn frontmatter(s: Seq<char>) -> Map<Seq<char>, Seq<char>> {
    match frontmatter_block(s) {
        Some(b) => pairs_to_map(entries_of_lines(lines(b))),
        None => Map::empty(),
    }
}

fn parse_line_entry(line: &Vec<char>) -> (r: Option<(String, String)>)
    ensures
        match r {
            Some((k, v)) => line_entry(line@) == Some((k@, v@)),
            None => line_entry(line@) is None,
        },
{
    let k = find_char_from(line, 0, ':');
    if k >= line.len() {
        return None;
    }
    proof {
        lemma_run_end(line@, 0, not_char_pred(':'));
    }
    let (a, b) = trim_range(line, 0, k);
    let (c, d) = trim_range(line, k + 1, line.len());
    let (e, f) = strip_range(line, c, d, '"');
    Some((string_of_range(line, a, b), string_of_range(line, e, f)))
}

/// The metadata of the document's front matter.
pub fn extract_frontmatter(content: &str) -> (r: Metadata)
    ensures
        r@ == frontmatter(content@),
{
    let v = chars_of(content);
    let mut meta = Metadata::new();
    if !(v.len() >= 4 && v[0] == '-' && v[1] == '-' && v[2] == '-' && v[3] == '\n') {
        return meta;
    }
    let mut j: usize = 5;
    while j <= v.len() - 4 && !(v[j] == '\n' && v[j + 1] == '-' && v[j + 2] == '-' && v[j + 3]
        == '-')
        invariant
            5 <= j,
            v.len() >= 4,
            fm_close(v@, 5) == fm_close(v@, j as int),
        decreases v.len() - j,
    {
        j += 1;
    }
    if j > v.len() - 4 {
        return meta;
    }
    let b = slice_vec(&v, 4, j);
    let mut p: usize = 0;
    let ghost mut done: Seq<Seq<char>> = seq![];
    while p < b.len()
        invariant
            p <= b.len(),
            lines_from(b@, 0) == done + lines_from(b@, p as int),
            meta@ == pairs_to_map(entries_of_lines(done)),
        decreases b.len() - p,
    {
        let e = line_end_of(&b, p);
        proof {
            lemma_run_end(b@, p as int, not_char_pred('\n'));
        }
        let le = if e < b.len() && e > p && b[e - 1] == '\r' {
            e - 1
        } else {
            e
        };
        let line = slice_vec(&b, p, le);
        let ghost piece = if e < b.len() {
            strip_cr(b@.subrange(p as int, e as int))
        } else {
            b@.subrange(p as int, b.len() as int)
        };
        assert(line@ =~= piece);
        let ghost old_done = done;
        let ghost old_meta = meta@;
        proof {
            done = done.push(line@);
            assert(done.drop_last() =~= old_done);
        }
        match parse_line_entry(&line) {
            Some((k, val)) => {
                let ghost es = entries_of_lines(old_done);
                let ghost ent = (k@, val@);
                meta.insert(k, val);
                assert((es + seq![ent]).drop_last() =~= es);
                assert(entries_of_lines(done) =~= es + seq![ent]);
            },
            None => {
                assert(entries_of_lines(done) =~= entries_of_lines(old_done));
            },
        }
        if e < b.len() {
            assert(lines_from(b@, p as int) == seq![piece] + lines_from(b@, e + 1));
            assert(old_done + lines_from(b@, p as int) =~= done + lines_from(b@, e + 1));
            p = e + 1;
        } else {
            assert(lines_from(b@, p as int) == seq![piece]);
            assert(lines_from(b@, b.len() as int) =~= seq![]);
            assert(old_done + lines_from(b@, p as int) =~= done + lines_from(b@, b.len() as int));
            p = b.len();
        }
    }
    assert(lines_from(b@, p as int) =~= seq![]);
    assert(done =~= lines_from(b@, 0));
    meta
}


// ---------------------------------------------------------------------------
// Headings
// ---------------------------------------------------------------------------

/// The heading that starts at line start `p`, with the position where its
/// match ends: one to three `'#'`, whitespace, then the text up to the end of
/// the line where the whitespace run stops, trimmed. (The whitespace run may
/// cross line breaks; when it runs to the end of the document and holds a
/// character other than `'\n'` after its first, the heading is empty.)
pub open spec fn heading_at(s: Seq<char>, p: int) -> Option<(Seq<char>, int)> {
    let q = run_end(s, p, is_char_pred('#'));
    if !(1 <= q - p <= 3 && q < s.len() && is_ws(s[q])) {
        None
    } else {
        let r = run_end(s, q, ws_pred());
        if r < s.len() {
            Some((trim(s.subrange(r, line_end(s, r))), line_end(s, r)))
        } else if exists|t: int| q < t < s.len() && s[t] != '\n' {
            Some((seq![], s.len() as int))
        } else {
            None
        }
    }
}

/// The headings found scanning from `from`: at each line start a heading is
/// taken and the scan goes on where its match ends.
pub open spec fn heading_scan(s: Seq<char>, from: int) -> Seq<Seq<char>>
    decreases s.len() - from,
{
    if from < 0 || from >= s.len() {
        seq![]
    } else if is_line_start(s, from) && heading_at(s, from) is Some {
        let end = heading_at(s, from).unwrap().1;
        proof {
            lemma_heading_end(s, from);
        }
        seq![heading_at(s, from).unwrap().0] + heading_scan(s, end)
    } else {
        heading_scan(s, from + 1)
    }
}

pub proof fn lemma_heading_end(s: Seq<char>, p: int)
    requires
        0 <= p < s.len(),
        heading_at(s, p) is Some,
    ensures
        p < heading_at(s, p).unwrap().1 <= s.len(),
{
    let q = run_end(s, p, is_char_pred('#'));
    lemma_run_end(s, p, is_char_pred('#'));
    lemma_run_end(s, q, ws_pred());
    let r = run_end(s, q, ws_pred());
    if r < s.len() {
        lemma_run_end(s, r, not_char_pred('\n'));
    }
}

/// At most the first `n` items of `s`.
pub open spec fn first_n<T>(s: Seq<T>, n: nat) -> Seq<T> {
    if s.len() <= n {
        s
    } else {
        s.take(n as int)
    }
}

fn heading_match(v: &Vec<char>, p: usize) -> (r: Option<(String, usize)>)
    requires
        p < v.len(),
    ensures
        match r {
            Some((t, e)) => heading_at(v@, p as int) == Some((t@, e as int)),
            None => heading_at(v@, p as int) is None,
        },
{
    let q = same_run_end(v, p, '#');
    proof {
        lemma_run_end(v@, p as int, is_char_pred('#'));
    }
    if !(1 <= q - p && q - p <= 3 && q < v.len() && is_whitespace(v[q])) {
        return None;
    }
    let r = ws_run_end(v, q);
    proof {
        lemma_run_end(v@, q as int, ws_pred());
    }
    if r < v.len() {
        let e = line_end_of(v, r);
        proof {
            lemma_run_end(v@, r as int, not_char_pred('\n'));
        }
        let (a, b) = trim_range(v, r, e);
        return Some((string_of_range(v, a, b), e));
    }
    let mut t = q + 1;
    while t < v.len()
        invariant
            q < t <= v.len(),
            p < q,
            q as int == run_end(v@, p as int, is_char_pred('#')),
            1 <= q - p <= 3,
            is_ws(v@[q as int]),
            run_end(v@, q as int, ws_pred()) == v.len(),
            forall|k: int| q < k < t ==> v@[k] == '\n',
        decreases v.len() - t,
    {
        if v[t] != '\n' {
            assert(q < t < v.len() && v@[t as int] != '\n');
            let empty = String::new();
            assert(empty@ =~= seq![]);
            return Some((empty, v.len()));
        }
        t += 1;
    }
    None
}

/// The first ten headings of the document, trimmed.
pub fn extract_sections(content: &str) -> (r: Vec<String>)
    ensures
        r.deep_view() == first_n(heading_scan(content@, 0), 10),
{
    let v = chars_of(content);
    let mut r: Vec<String> = Vec::new();
    let mut p: usize = 0;
    assert(r.deep_view() =~= seq![]);
    while p < v.len() && r.len() < 10
        invariant
            p <= v.len(),
            r.len() <= 10,
            v@ == content@,
            heading_scan(v@, 0) == r.deep_view() + heading_scan(v@, p as int),
        decreases v.len() - p,
    {
        let at_line_start = p == 0 || v[p - 1] == '\n';
        let found = if at_line_start {
            heading_match(&v, p)
        } else {
            None
        };
        match found {
            Some((t, e)) => {
                proof {
                    lemma_heading_end(v@, p as int);
                }
                let ghost old_r = r.deep_view();
                r.push(t);
                assert(r.deep_view() =~= old_r.push(heading_at(v@, p as int).unwrap().0));
                assert(old_r + heading_scan(v@, p as int) =~= r.deep_view() + heading_scan(
                    v@,
                    e as int,
                ));
                p = e;
            },
            None => {
                assert(heading_scan(v@, p as int) == heading_scan(v@, p + 1));
                p += 1;
            },
        }
    }
    if r.len() < 10 {
        assert(heading_scan(v@, p as int) =~= seq![]);
        assert(r.deep_view() + heading_scan(v@, p as int) =~= r.deep_view());
    } else {
        assert((r.deep_view() + heading_scan(v@, p as int)).take(10) =~= r.deep_view());
    }
    r
}


// ---------------------------------------------------------------------------
// Key rules
// ---------------------------------------------------------------------------

/// The first `j' >= j` where a bold span closes: `"**"` starts at `j'`, and
/// no `'\n'` lies in `s[j - 1 .. j']`.
pub open spec fn bold_close(s: Seq<char>, j: int) -> Option<int>
    decreases s.len() - j,
{
    if j < 1 || j >= s.len() || s[j - 1] == '\n' {
        None
    } else if j + 1 < s.len() && s[j] == '*' && s[j + 1] == '*' {
        Some(j)
    } else {
        bold_close(s, j + 1)
    }
}

pub proof fn lemma_bold_close(s: Seq<char>, j: int)
    requires
        bold_close(s, j) is Some,
    ensures
        j <= bold_close(s, j).unwrap(),
        bold_close(s, j).unwrap() + 1 < s.len(),
    decreases s.len() - j,
{
    if !(j < 1 || j >= s.len() || s[j - 1] == '\n') && !(j + 1 < s.len() && s[j] == '*' && s[j
        + 1] == '*') {
        lemma_bold_close(s, j + 1);
    }
}

/// The key rule that starts at line start `p`, with the position where its
/// match ends: `'-'` or `'*'`, whitespace, `"**"`, the rule text (at least
/// one character, no line break, up to the first `"**"` after it), the rest
/// of that line. The rule is the text, trimmed.
pub open spec fn rule_at(s: Seq<char>, p: int) -> Option<(Seq<char>, int)> {
    if !(0 <= p && p + 1 < s.len() && (s[p] == '-' || s[p] == '*') && is_ws(s[p + 1])) {
        None
    } else {
        let r = run_end(s, p + 1, ws_pred());
        if !(r + 1 < s.len() && s[r] == '*' && s[r + 1] == '*') {
            None
        } else {
            match bold_close(s, r + 3) {
                Some(j) => Some((trim(s.subrange(r + 2, j)), line_end(s, j + 2))),
                None => None,
            }
        }
    }
}

pub proof fn lemma_rule_end(s: Seq<char>, p: int)
    requires
        0 <= p < s.len(),
        rule_at(s, p) is Some,
    ensures
        p < rule_at(s, p).unwrap().1 <= s.len(),
{
    lemma_run_end(s, p + 1, ws_pred());
    let r = run_end(s, p + 1, ws_pred());
    lemma_bold_close(s, r + 3);
    let j = bold_close(s, r + 3).unwrap();
    lemma_run_end(s, j + 2, not_char_pred('\n'));
}

/// The key rules found scanning from `from`, as `heading_scan` does.
pub open spec fn rule_scan(s: Seq<char>, from: int) -> Seq<Seq<char>>
    decreases s.len() - from,
{
    if from < 0 || from >= s.len() {
        seq![]
    } else if is_line_start(s, from) && rule_at(s, from) is Some {
        let end = rule_at(s, from).unwrap().1;
        proof {
            lemma_rule_end(s, from);
        }
        seq![rule_at(s, from).unwrap().0] + rule_scan(s, end)
    } else {
        rule_scan(s, from + 1)
    }
}

/// `bold_close(v, c0 + 1)`: the close of a bold span whose text starts at `c0`.
fn bold_close_after(v: &Vec<char>, c0: usize) -> (r: Option<usize>)
    ensures
        r is Some <==> bold_close(v@, c0 + 1) is Some,
        r matches Some(j) ==> bold_close(v@, c0 + 1) == Some(j as int),
{
    if c0 >= v.len() {
        return None;
    }
    let j0 = c0 + 1;
    let mut j = j0;
    loop
        invariant
            1 <= j0 <= j,
            j0 == c0 + 1,
            bold_close(v@, j0 as int) == bold_close(v@, j as int),
        decreases v.len() - j,
    {
        if j >= v.len() || v[j - 1] == '\n' {
            return None;
        }
        if j + 1 < v.len() && v[j] == '*' && v[j + 1] == '*' {
            return Some(j);
        }
        j += 1;
    }
}

fn rule_match(v: &Vec<char>, p: usize) -> (r: Option<(String, usize)>)
    requires
        p < v.len(),
    ensures
        match r {
            Some((t, e)) => rule_at(v@, p as int) == Some((t@, e as int)),
            None => rule_at(v@, p as int) is None,
        },
{
    if !(p + 1 < v.len() && (v[p] == '-' || v[p] == '*') && is_whitespace(v[p + 1])) {
        return None;
    }
    let r = ws_run_end(v, p + 1);
    proof {
        lemma_run_end(v@, p + 1, ws_pred());
    }
    if !(r < v.len() - 1 && v[r] == '*' && v[r + 1] == '*') {
        return None;
    }
    match bold_close_after(v, r + 2) {
        Some(j) => {
            proof {
                lemma_bold_close(v@, r + 3);
            }
            let e = line_end_of(v, j + 2);
            let (a, b) = trim_range(v, r + 2, j);
            Some((string_of_range(v, a, b), e))
        },
        None => None,
    }
}

/// The first five key rules of the document, trimmed.
pub fn extract_key_rules(content: &str) -> (r: Vec<String>)
    ensures
        r.deep_view() == first_n(rule_scan(content@, 0), 5),
{
    let v = chars_of(content);
    let mut r: Vec<String> = Vec::new();
    let mut p: usize = 0;
    assert(r.deep_view() =~= seq![]);
    while p < v.len() && r.len() < 5
        invariant
            p <= v.len(),
            r.len() <= 5,
            v@ == content@,
            rule_scan(v@, 0) == r.deep_view() + rule_scan(v@, p as int),
        decreases v.len() - p,
    {
        let at_line_start = p == 0 || v[p - 1] == '\n';
        let found = if at_line_start {
            rule_match(&v, p)
        } else {
            None
        };
        match found {
            Some((t, e)) => {
                proof {
                    lemma_rule_end(v@, p as int);
                }
                let ghost old_r = r.deep_view();
                r.push(t);
                assert(r.deep_view() =~= old_r.push(rule_at(v@, p as int).unwrap().0));
                assert(old_r + rule_scan(v@, p as int) =~= r.deep_view() + rule_scan(
                    v@,
                    e as int,
                ));
                p = e;
            },
            None => {
                assert(rule_scan(v@, p as int) == rule_scan(v@, p + 1));
                p += 1;
            },
        }
    }
    if r.len() < 5 {
        assert(rule_scan(v@, p as int) =~= seq![]);
        assert(r.deep_view() + rule_scan(v@, p as int) =~= r.deep_view());
    } else {
        assert((r.deep_view() + rule_scan(v@, p as int)).take(5) =~= r.deep_view());
    }
    r
}


// ---------------------------------------------------------------------------
// Skill DNA
// ---------------------------------------------------------------------------

/// The condensed summary of a skill document.
#[derive(Debug, Clone)]
pub struct SkillDna {
    pub name: String,
    pub description: String,
    pub sections: Vec<String>,
    pub key_rules: Vec<String>,
    pub metadata: Metadata,
}

/// The description of a skill: its front-matter `description` when there is
/// one, else its first heading, else empty.
pub open spec fn dna_description(
    meta: Map<Seq<char>, Seq<char>>,
    sections: Seq<Seq<char>>,
) -> Seq<char> {
    if meta.dom().contains("description"@) {
        meta["description"@]
    } else if sections.len() > 0 {
        sections[0]
    } else {
        seq![]
    }
}

/// `dna` is the DNA of the document `content` of the skill `name`.
pub open spec fn is_dna_of(dna: SkillDna, name: Seq<char>, content: Seq<char>) -> bool {
    &&& dna.name@ == name
    &&& dna.metadata@ == frontmatter(content)
    &&& dna.sections.deep_view() == first_n(heading_scan(content, 0), 10)
    &&& dna.key_rules.deep_view() == first_n(rule_scan(content, 0), 5)
    &&& dna.description@ == dna_description(dna.metadata@, dna.sections.deep_view())
}

/// The DNA of the skill `skill_name` whose SKILL.md text is `content`.
pub fn extract_dna(skill_name: &str, content: &str) -> (r: SkillDna)
    ensures
        is_dna_of(r, skill_name@, content@),
        r.sections.len() <= 10,
        r.key_rules.len() <= 5,
        r.description@ == if r.metadata@.dom().contains("description"@) {
            r.metadata@["description"@]
        } else if r.sections.len() > 0 {
            r.sections[0]@
        } else {
            Seq::<char>::empty()
        },
{
    let metadata = extract_frontmatter(content);
    let sections = extract_sections(content);
    let key_rules = extract_key_rules(content);
    let description = match metadata.get("description") {
        Some(d) => d.clone(),
        None => {
            if sections.len() > 0 {
                sections[0].clone()
            } else {
                String::new()
            }
        },
    };
    assert(key_rules.deep_view().len() == key_rules.len());
    assert(sections.len() > 0 ==> sections.deep_view()[0] == sections[0]@);
    assert(sections.deep_view().len() == sections.len());
    SkillDna { name: String::from_str(skill_name), description, sections, key_rules, metadata }
}

/// The lines of the compact form of a DNA: `"## name"`, then
/// `"**Description**: ..."`, then the headings joined by `", "` and the key
/// rules joined by `"; "`, each only when there are any.
pub open spec fn compact_lines(
    name: Seq<char>,
    description: Seq<char>,
    sections: Seq<Seq<char>>,
    key_rules: Seq<Seq<char>>,
) -> Seq<Seq<char>> {
    seq!["## "@ + name, "**Description**: "@ + description] + (if sections.len() > 0 {
        seq!["**Sections**: "@ + join(sections, ", "@)]
    } else {
        seq![]
    }) + (if key_rules.len() > 0 {
        seq!["**Key Rules**: "@ + join(key_rules, "; "@)]
    } else {
        seq![]
    })
}

/// The compact text of a DNA: its lines joined by `'\n'`.
pub open spec fn compact_text(dna: SkillDna) -> Seq<char> {
    join(
        compact_lines(
            dna.name@,
            dna.description@,
            dna.sections.deep_view(),
            dna.key_rules.deep_view(),
        ),
        "\n"@,
    )
}

/// The compact, Markdown form of a DNA.
pub fn format_dna_compact(dna: &SkillDna) -> (r: String)
    ensures
        r@ == compact_text(*dna),
        dna.sections.len() > 0 ==> contains_seq(
            r@,
            "**Sections**: "@ + join(dna.sections.deep_view(), ", "@),
        ),
        forall|i: int| 0 <= i < dna.sections.len() ==> contains_seq(r@, #[trigger] dna.sections[i]@),
        dna.key_rules.len() > 0 ==> contains_seq(
            r@,
            "**Key Rules**: "@ + join(dna.key_rules.deep_view(), "; "@),
        ),
        forall|i: int|
            0 <= i < dna.key_rules.len() ==> contains_seq(r@, #[trigger] dna.key_rules[i]@),
{
    proof {
        law_compact_text_lists_every_section_and_rule(*dna);
    }
    let mut parts: Vec<String> = Vec::new();
    parts.push(String::from_str("## ").concat(dna.name.as_str()));
    parts.push(String::from_str("**Description**: ").concat(dna.description.as_str()));
    if dna.sections.len() > 0 {
        let joined = join_strings(&dna.sections, ", ");
        parts.push(String::from_str("**Sections**: ").concat(joined.as_str()));
    }
    if dna.key_rules.len() > 0 {
        let joined = join_strings(&dna.key_rules, "; ");
        parts.push(String::from_str("**Key Rules**: ").concat(joined.as_str()));
    }
    assert(parts.deep_view() =~= compact_lines(
        dna.name@,
        dna.description@,
        dna.sections.deep_view(),
        dna.key_rules.deep_view(),
    ));
    join_strings(&parts, "\n")
}


/// The compact text of the DNA of the document `content` of the skill
/// `name`.
pub open spec fn dna_compact_text(name: Seq<char>, content: Seq<char>) -> Seq<char> {
    let sections = first_n(heading_scan(content, 0), 10);
    let key_rules = first_n(rule_scan(content, 0), 5);
    join(
        compact_lines(name, dna_description(frontmatter(content), sections), sections, key_rules),
        "\n"@,
    )
}

/// The compact text of the DNA of a document of a skill.
pub fn dna_summary(name: &str, content: &str) -> (r: String)
    ensures
        r@ == dna_compact_text(name@, content@),
{
    let dna = extract_dna(name, content);
    format_dna_compact(&dna)
}


// ---------------------------------------------------------------------------
// Laws
// ---------------------------------------------------------------------------

proof fn lemma_join_starts_with_first(parts: Seq<Seq<char>>, sep: Seq<char>)
    requires
        parts.len() > 0,
    ensures
        join(parts, sep).len() >= parts[0].len(),
        join(parts, sep).take(parts[0].len() as int) == parts[0],
    decreases parts.len(),
{
    if parts.len() > 1 {
        let init = parts.drop_last();
        lemma_join_starts_with_first(init, sep);
        let j = join(init, sep);
        assert((j + sep + parts.last()).take(parts[0].len() as int) =~= j.take(
            parts[0].len() as int,
        ));
    } else {
        assert(join(parts, sep).take(parts[0].len() as int) =~= parts[0]);
    }
}

/// The compact form of a skill's DNA opens with `"## "` and the skill's name.
pub proof fn law_compact_text_opens_with_name(name: Seq<char>, content: Seq<char>)
    ensures
        dna_compact_text(name, content).len() >= 3 + name.len(),
        dna_compact_text(name, content).take(3 + name.len() as int) == "## "@ + name,
{
    let sections = first_n(heading_scan(content, 0), 10);
    let key_rules = first_n(rule_scan(content, 0), 5);
    let parts = compact_lines(
        name,
        dna_description(frontmatter(content), sections),
        sections,
        key_rules,
    );
    reveal_strlit("## ");
    assert(parts[0] == "## "@ + name);
    lemma_join_starts_with_first(parts, "\n"@);
}

/// Formatting the DNA that `extract_dna` gives for a skill and a document
/// yields the compact text of that document for that name; the one-call
/// summary gives the same text.
pub proof fn law_summary_is_formatted_dna(dna: SkillDna, name: Seq<char>, content: Seq<char>)
    requires
        is_dna_of(dna, name, content),
    ensures
        compact_text(dna) == dna_compact_text(name, content),
{
}

/// The compact text holds the Sections line with every heading of the DNA,
/// joined by `", "`, and the Key Rules line with every key rule, joined by
/// `"; "` (each when there are any); so every heading and every key rule
/// occurs in it.
pub proof fn law_compact_text_lists_every_section_and_rule(dna: SkillDna)
    ensures
        dna.sections.len() > 0 ==> contains_seq(
            compact_text(dna),
            "**Sections**: "@ + join(dna.sections.deep_view(), ", "@),
        ),
        forall|i: int|
            0 <= i < dna.sections.len() ==> contains_seq(
                compact_text(dna),
                #[trigger] dna.sections[i]@,
            ),
        dna.key_rules.len() > 0 ==> contains_seq(
            compact_text(dna),
            "**Key Rules**: "@ + join(dna.key_rules.deep_view(), "; "@),
        ),
        forall|i: int|
            0 <= i < dna.key_rules.len() ==> contains_seq(
                compact_text(dna),
                #[trigger] dna.key_rules[i]@,
            ),
{
    let secs = dna.sections.deep_view();
    let rules = dna.key_rules.deep_view();
    let lines = compact_lines(dna.name@, dna.description@, secs, rules);
    let text = compact_text(dna);
    let sec_line = "**Sections**: "@ + join(secs, ", "@);
    let rule_line = "**Key Rules**: "@ + join(rules, "; "@);
    if secs.len() > 0 {
        assert(lines[2] == sec_line);
        law_join_contains_parts(lines, "\n"@, 2);
        assert forall|i: int| 0 <= i < dna.sections.len() implies contains_seq(
            text,
            #[trigger] dna.sections[i]@,
        ) by {
            assert(secs[i] == dna.sections[i]@);
            law_join_contains_parts(secs, ", "@, i);
            lemma_contains_concat("**Sections**: "@, join(secs, ", "@), secs[i]);
            lemma_contains_trans(text, sec_line, secs[i]);
        }
    }
    if rules.len() > 0 {
        let k: int = if secs.len() > 0 {
            3
        } else {
            2
        };
        assert(lines[k] == rule_line);
        law_join_contains_parts(lines, "\n"@, k);
        assert forall|i: int| 0 <= i < dna.key_rules.len() implies contains_seq(
            text,
            #[trigger] dna.key_rules[i]@,
        ) by {
            assert(rules[i] == dna.key_rules[i]@);
            law_join_contains_parts(rules, "; "@, i);
            lemma_contains_concat("**Key Rules**: "@, join(rules, "; "@), rules[i]);
            lemma_contains_trans(text, rule_line, rules[i]);
        }
    }
}

/// Without a `description` entry, the description of a skill is its first
/// heading, or empty when it has none; it does not depend on any other
/// metadata entry.
pub proof fn law_description_without_description_entry(
    meta: Map<Seq<char>, Seq<char>>,
    sections: Seq<Seq<char>>,
    other: Seq<char>,
)
    requires
        !meta.dom().contains("description"@),
    ensures
        sections.len() > 0 ==> dna_description(meta, sections) == sections[0],
        sections.len() == 0 ==> dna_description(meta, sections).len() == 0,
        other != "description"@ ==> dna_description(meta.remove(other), sections)
            == dna_description(meta, sections),
{
}

/// With a `description` entry, the description of a skill is that entry,
/// whatever its headings and other entries.
pub proof fn law_description_from_description_entry(
    meta: Map<Seq<char>, Seq<char>>,
    sections: Seq<Seq<char>>,
    other: Seq<char>,
)
    requires
        meta.dom().contains("description"@),
    ensures
        dna_description(meta, sections) == meta["description"@],
        other != "description"@ ==> dna_description(meta.remove(other), sections)
            == meta["description"@],
{
}

proof fn lemma_trim_start_front(s: Seq<char>)
    ensures
        trim_start(s).len() > 0 ==> !is_ws(trim_start(s)[0]),
        trim_start(s).len() <= s.len(),
        trim_start(s) == s.subrange(s.len() - trim_start(s).len(), s.len() as int),
    decreases s.len(),
{
    if s.len() > 0 && is_ws(s[0]) {
        lemma_trim_start_front(s.drop_first());
        assert(s.drop_first().subrange(
            s.drop_first().len() - trim_start(s).len(),
            s.drop_first().len() as int,
        ) =~= s.subrange(s.len() - trim_start(s).len(), s.len() as int));
    } else {
        assert(s.subrange(0, s.len() as int) =~= s);
    }
}

proof fn lemma_trim_end_back(s: Seq<char>)
    ensures
        trim_end(s).len() > 0 ==> !is_ws(trim_end(s).last()),
        trim_end(s).len() <= s.len(),
        trim_end(s) == s.take(trim_end(s).len() as int),
    decreases s.len(),
{
    if s.len() > 0 && is_ws(s.last()) {
        lemma_trim_end_back(s.drop_last());
        assert(s.drop_last().take(trim_end(s).len() as int) =~= s.take(
            trim_end(s).len() as int,
        ));
    } else {
        assert(s.take(s.len() as int) =~= s);
    }
}

/// Trimmed text neither begins nor ends with whitespace.
pub proof fn lemma_trim_edges(s: Seq<char>)
    ensures
        trim(s).len() > 0 ==> !is_ws(trim(s)[0]) && !is_ws(trim(s).last()),
{
    lemma_trim_start_front(s);
    lemma_trim_end_back(trim_start(s));
    if trim(s).len() > 0 {
        assert(trim(s)[0] == trim_start(s)[0]);
    }
}

/// No heading found from `from` begins or ends with whitespace.
pub proof fn law_headings_are_trimmed(s: Seq<char>, from: int)
    ensures
        forall|i: int|
            0 <= i < heading_scan(s, from).len() && #[trigger] heading_scan(s, from)[i].len() > 0
                ==> !is_ws(heading_scan(s, from)[i][0]) && !is_ws(
                heading_scan(s, from)[i].last(),
            ),
    decreases s.len() - from,
{
    if 0 <= from < s.len() {
        if is_line_start(s, from) && heading_at(s, from) is Some {
            let end = heading_at(s, from).unwrap().1;
            lemma_heading_end(s, from);
            law_headings_are_trimmed(s, end);
            let q = run_end(s, from, is_char_pred('#'));
            let r = run_end(s, q, ws_pred());
            if r < s.len() {
                lemma_trim_edges(s.subrange(r, line_end(s, r)));
            }
            let hs = heading_scan(s, from);
            let h = heading_at(s, from).unwrap().0;
            assert(hs == seq![h] + heading_scan(s, end));
            assert(h.len() > 0 ==> !is_ws(h[0]) && !is_ws(h.last()));
            assert forall|i: int| 0 <= i < hs.len() && #[trigger] hs[i].len() > 0 implies !is_ws(
                hs[i][0],
            ) && !is_ws(hs[i].last()) by {
                if i > 0 {
                    assert(hs[i] == heading_scan(s, end)[i - 1]);
                } else {
                    assert(hs[i] == h);
                }
            }
        } else {
            law_headings_are_trimmed(s, from + 1);
            assert(heading_scan(s, from) == heading_scan(s, from + 1));
        }
    }
}

/// No key rule found from `from` begins or ends with whitespace.
pub proof fn law_key_rules_are_trimmed(s: Seq<char>, from: int)
    ensures
        forall|i: int|
            0 <= i < rule_scan(s, from).len() && #[trigger] rule_scan(s, from)[i].len() > 0
                ==> !is_ws(rule_scan(s, from)[i][0]) && !is_ws(rule_scan(s, from)[i].last()),
    decreases s.len() - from,
{
    if 0 <= from < s.len() {
        if is_line_start(s, from) && rule_at(s, from) is Some {
            let end = rule_at(s, from).unwrap().1;
            lemma_rule_end(s, from);
            law_key_rules_are_trimmed(s, end);
            let r = run_end(s, from + 1, ws_pred());
            let j = bold_close(s, r + 3).unwrap();
            lemma_trim_edges(s.subrange(r + 2, j));
            let rs = rule_scan(s, from);
            let h = rule_at(s, from).unwrap().0;
            assert(h == trim(s.subrange(r + 2, j)));
            assert(rs == seq![h] + rule_scan(s, end));
            assert forall|i: int| 0 <= i < rs.len() && #[trigger] rs[i].len() > 0 implies !is_ws(
                rs[i][0],
            ) && !is_ws(rs[i].last()) by {
                if i > 0 {
                    assert(rs[i] == rule_scan(s, end)[i - 1]);
                } else {
                    assert(rs[i] == h);
                }
            }
        } else {
            law_key_rules_are_trimmed(s, from + 1);
            assert(rule_scan(s, from) == rule_scan(s, from + 1));
        }
    }
}

} // verus!
