//! The catalogue of indexed skills: registration of a skill document,
//! lookup by id or name, stage listing, expert combos and the keyword hits
//! that adjust a semantic score.

use std::path::PathBuf;
use vstd::prelude::*;
use crate::config_loader::{ExpertCombo, StageProfiles};
use crate::dna_extractor::{
    dna_compact_text, dna_description, dna_summary, extract_dna, first_n, frontmatter,
    heading_scan,
};
use crate::str_map::strictly_sorted;
use crate::text::{
    chars_of, clone_strings, contains_chars, contains_seq, join, join_strings, replace_char,
    replace_char_in, spec_to_lowercase, split_words, to_lowercase, words,
    law_seq_lt_is_lexicographic,
};

verus! {

#[verifier::external_type_specification]
#[verifier::external_body]
pub struct ExPathBuf(PathBuf);

/// `<PathBuf as Clone>::clone`: the copy is the same path.
pub assume_specification[ <PathBuf as Clone>::clone ](p: &PathBuf) -> (r: PathBuf)
    ensures
        r == *p,
;

/// An indexed skill.
#[derive(Debug, Clone)]
pub struct SkillEntry {
    pub id: String,
    pub name: String,
    pub description: String,
    pub path: PathBuf,
    pub content_preview: String,
}

/// The view of an optional string.
pub open spec fn opt_view(o: Option<&str>) -> Option<Seq<char>> {
    match o {
        Some(s) => Some(s@),
        None => None,
    }
}

/// The directory name of a skill, `"unknown"` when there is none.
pub open spec fn dir_name_or_unknown(dir_name: Option<Seq<char>>) -> Seq<char> {
    match dir_name {
        Some(d) => d,
        None => "unknown"@,
    }
}

/// The id of a skill whose SKILL.md lies in the directory `dir_name`: the
/// name lower-cased, its spaces replaced by `'-'`.
pub open spec fn skill_id_of(dir_name: Option<Seq<char>>) -> Seq<char> {
    replace_char(spec_to_lowercase(dir_name_or_unknown(dir_name)), ' ', '-')
}

/// The id of the skill whose SKILL.md lies in the directory `dir_name`.
pub fn skill_id_from_dir_name(dir_name: Option<&str>) -> (r: String)
    ensures
        r@ == skill_id_of(opt_view(dir_name)),
        !r@.contains(' '),
{
    let name = match dir_name {
        Some(d) => d,
        None => "unknown",
    };
    let lower = to_lowercase(name);
    let r = replace_char_in(lower.as_str(), ' ', '-');
    proof {
        lemma_replaced_char_absent(lower@, ' ', '-');
    }
    r
}

/// After replacing `from` by a different character, `from` no longer occurs.
pub proof fn lemma_replaced_char_absent(s: Seq<char>, from: char, to: char)
    requires
        from != to,
    ensures
        !replace_char(s, from, to).contains(from),
{
    if replace_char(s, from, to).contains(from) {
        let i = choose|i: int|
            0 <= i < replace_char(s, from, to).len() && replace_char(s, from, to)[i] == from;
        assert(replace_char(s, from, to)[i] == (if s[i] == from {
            to
        } else {
            s[i]
        }));
    }
}

/// The compact DNA text of a skill document read from the directory
/// `dir_name` (named `"unknown"` when there is none).
pub fn expert_dna_summary(dir_name: Option<&str>, content: &str) -> (r: String)
    ensures
        r@ == dna_compact_text(dir_name_or_unknown(opt_view(dir_name)), content@),
{
    let name = match dir_name {
        Some(d) => d,
        None => "unknown",
    };
    dna_summary(name, content)
}

/// `skill` answers to `id`: its id is `id`, or its name and `id` are the
/// same once lower-cased.
pub open spec fn skill_matches(skill: SkillEntry, id: Seq<char>) -> bool {
    skill.id@ == id || spec_to_lowercase(skill.name@) == spec_to_lowercase(id)
}

/// `i` is the first skill that answers to `id`.
pub open spec fn is_first_match(skills: Seq<SkillEntry>, id: Seq<char>, i: int) -> bool {
    &&& 0 <= i < skills.len()
    &&& skill_matches(skills[i], id)
    &&& forall|j: int| 0 <= j < i ==> !skill_matches(#[trigger] skills[j], id)
}

/// How many of `terms` occur in `a` or in `b`.
pub open spec fn count_hits(terms: Seq<Seq<char>>, a: Seq<char>, b: Seq<char>) -> nat
    decreases terms.len(),
{
    if terms.len() == 0 {
        0
    } else {
        count_hits(terms.drop_last(), a, b) + if contains_seq(a, terms.last()) || contains_seq(
            b,
            terms.last(),
        ) {
            1nat
        } else {
            0nat
        }
    }
}

/// The terms that are hits: those occurring in `a` or in `b`.
pub open spec fn is_hit(a: Seq<char>, b: Seq<char>) -> spec_fn(Seq<char>) -> bool {
    |t: Seq<char>| contains_seq(a, t) || contains_seq(b, t)
}

/// The hit count is the number of terms, at every position, that occur in
/// `a` or in `b`: the length of the list of hits.
pub proof fn law_count_hits_counts_every_term(terms: Seq<Seq<char>>, a: Seq<char>, b: Seq<char>)
    ensures
        count_hits(terms, a, b) == terms.filter(is_hit(a, b)).len(),
    decreases terms.len(),
{
    reveal_with_fuel(Seq::<Seq<char>>::filter, 1);
    if terms.len() > 0 {
        law_count_hits_counts_every_term(terms.drop_last(), a, b);
    }
}

/// Appending a term adds one to the hit count when it occurs in `a` or in
/// `b`, nothing otherwise; no term is a hit in an empty list.
pub proof fn law_count_hits_append(
    terms: Seq<Seq<char>>,
    t: Seq<char>,
    a: Seq<char>,
    b: Seq<char>,
)
    ensures
        count_hits(terms.push(t), a, b) == count_hits(terms, a, b) + if contains_seq(a, t)
            || contains_seq(b, t) {
            1int
        } else {
            0int
        },
        count_hits(Seq::<Seq<char>>::empty(), a, b) == 0,
        count_hits(seq![t], a, b) == if contains_seq(a, t) || contains_seq(b, t) {
            1int
        } else {
            0int
        },
{
    law_count_hits_counts_every_term(terms.push(t), a, b);
    law_count_hits_counts_every_term(terms, a, b);
    law_count_hits_counts_every_term(seq![t], a, b);
    law_count_hits_counts_every_term(Seq::<Seq<char>>::empty(), a, b);
    reveal_with_fuel(Seq::<Seq<char>>::filter, 1);
    assert(terms.push(t).drop_last() =~= terms);
    assert(seq![t].drop_last() =~= Seq::<Seq<char>>::empty());
}

/// How many of `terms` occur in `a` or in `b`.
fn count_hits_exec(terms: &Vec<Vec<char>>, a: &Vec<char>, b: &Vec<char>) -> (r: usize)
    ensures
        r == count_hits(terms.deep_view(), a@, b@),
        r <= terms.len(),
{
    let ghost dv = terms.deep_view();
    let mut n: usize = 0;
    let mut i: usize = 0;
    while i < terms.len()
        invariant
            i <= terms.len(),
            dv == terms.deep_view(),
            n == count_hits(dv.take(i as int), a@, b@),
            n <= i,
        decreases terms.len() - i,
    {
        assert(dv.take(i + 1).drop_last() =~= dv.take(i as int));
        assert(dv[i as int] =~= terms[i as int]@);
        if contains_chars(a, &terms[i]) || contains_chars(b, &terms[i]) {
            n += 1;
        }
        i += 1;
    }
    assert(dv.take(terms.len() as int) =~= dv);
    n
}

/// The keyword hits of a search result with `id` and `description` for the
/// task `task` and the keywords `stage_keywords` of the chosen stage: how
/// many keywords occur in the lower-cased description or in the id, and how
/// many words of the lower-cased task occur in the id or in the lower-cased
/// description.
pub fn keyword_hits(stage_keywords: &Vec<String>, task: &str, id: &str, description: &str) -> (r: (
    usize,
    usize,
))
    ensures
        r.0 == count_hits(stage_keywords.deep_view(), spec_to_lowercase(description@), id@),
        r.1 == count_hits(words(spec_to_lowercase(task@)), id@, spec_to_lowercase(description@)),
        r.0 <= stage_keywords.len(),
        r.1 <= words(spec_to_lowercase(task@)).len(),
        r.0 == stage_keywords.deep_view().filter(
            is_hit(spec_to_lowercase(description@), id@),
        ).len(),
        r.1 == words(spec_to_lowercase(task@)).filter(
            is_hit(id@, spec_to_lowercase(description@)),
        ).len(),
{
    proof {
        law_count_hits_counts_every_term(
            stage_keywords.deep_view(),
            spec_to_lowercase(description@),
            id@,
        );
        law_count_hits_counts_every_term(
            words(spec_to_lowercase(task@)),
            id@,
            spec_to_lowercase(description@),
        );
    }
    let desc_lower = chars_of(to_lowercase(description).as_str());
    let id_chars = chars_of(id);
    let mut kws: Vec<Vec<char>> = Vec::new();
    let mut i: usize = 0;
    while i < stage_keywords.len()
        invariant
            i <= stage_keywords.len(),
            kws.deep_view() == stage_keywords.deep_view().take(i as int),
        decreases stage_keywords.len() - i,
    {
        let ghost old_k = kws.deep_view();
        let k = chars_of(stage_keywords[i].as_str());
        assert(k.deep_view() =~= k@);
        kws.push(k);
        assert(kws.deep_view() =~= old_k.push(stage_keywords[i as int]@));
        i += 1;
        assert(kws.deep_view() =~= stage_keywords.deep_view().take(i as int));
    }
    assert(stage_keywords.deep_view().take(stage_keywords.len() as int)
        =~= stage_keywords.deep_view());
    let stage_hits = count_hits_exec(&kws, &desc_lower, &id_chars);
    let task_lower = chars_of(to_lowercase(task).as_str());
    let task_words = split_words(&task_lower);
    let word_hits = count_hits_exec(&task_words, &id_chars, &desc_lower);
    (stage_hits, word_hits)
}

/// The catalogue of indexed skills with the stage profiles and expert
/// combos that suggestions draw on.
pub struct SkillsIndexer {
    skills: Vec<SkillEntry>,
    stage_profiles: StageProfiles,
    expert_combos: Vec<ExpertCombo>,
    skills_dir: PathBuf,
}

impl SkillsIndexer {
    /// The indexed skills, in the order they were added.
    pub closed spec fn spec_skills(&self) -> Seq<SkillEntry> {
        self.skills@
    }

    /// The stage profiles: each stage with its keywords.
    pub closed spec fn spec_stage_profiles(&self) -> Map<Seq<char>, Seq<Seq<char>>> {
        self.stage_profiles@
    }

    /// The expert combos.
    pub closed spec fn spec_expert_combos(&self) -> Seq<ExpertCombo> {
        self.expert_combos@
    }

    /// The directory that holds the skills.
    pub closed spec fn spec_skills_dir(&self) -> PathBuf {
        self.skills_dir
    }

    /// An empty catalogue over the directory `skills_dir`.
    pub fn new(
        skills_dir: PathBuf,
        stage_profiles: StageProfiles,
        expert_combos: Vec<ExpertCombo>,
    ) -> (r: Self)
        ensures
            r.spec_skills() == Seq::<SkillEntry>::empty(),
            r.spec_stage_profiles() == stage_profiles@,
            r.spec_expert_combos() == expert_combos@,
            r.spec_skills_dir() == skills_dir,
    {
        SkillsIndexer { skills: Vec::new(), stage_profiles, expert_combos, skills_dir }
    }

    /// The directory that holds the skills.
    pub fn skills_dir(&self) -> (r: &PathBuf)
        ensures
            *r == self.spec_skills_dir(),
    {
        &self.skills_dir
    }

    /// The indexed skills, in the order they were added.
    pub fn skills(&self) -> (r: &[SkillEntry])
        ensures
            r@ == self.spec_skills(),
    {
        self.skills.as_slice()
    }

    /// Adds the skill whose SKILL.md at `path`, in the directory `dir_name`,
    /// holds `content`, and returns the document that stands for it in the
    /// semantic index: its id, a space, its description.
    pub fn add_skill(&mut self, path: PathBuf, dir_name: Option<&str>, content: &str) -> (r:
        String)
        ensures
            final(self).spec_skills().len() == old(self).spec_skills().len() + 1,
            final(self).spec_skills().drop_last() == old(self).spec_skills(),
            ({
                let e = final(self).spec_skills().last();
                let sections = first_n(heading_scan(content@, 0), 10);
                &&& e.id@ == skill_id_of(opt_view(dir_name))
                &&& e.name@ == e.id@
                &&& e.description@ == dna_description(frontmatter(content@), sections)
                &&& e.path == path
                &&& e.content_preview@ == join(sections, ", "@)
                &&& r@ == e.id@ + " "@ + e.description@
            }),
            final(self).spec_stage_profiles() == old(self).spec_stage_profiles(),
            final(self).spec_expert_combos() == old(self).spec_expert_combos(),
            final(self).spec_skills_dir() == old(self).spec_skills_dir(),
    {
        let id = skill_id_from_dir_name(dir_name);
        let dna = extract_dna(id.as_str(), content);
        let doc = String::from_str(dna.name.as_str()).concat(" ").concat(
            dna.description.as_str(),
        );
        let entry = SkillEntry {
            id: id.clone(),
            name: id,
            description: dna.description.clone(),
            path,
            content_preview: join_strings(&dna.sections, ", "),
        };
        let ghost old_skills = self.skills@;
        self.skills.push(entry);
        assert(self.skills@.drop_last() =~= old_skills);
        doc
    }

    /// The stages of the profiles, in increasing order.
    pub fn list_stages(&self) -> (r: Vec<String>)
        ensures
            strictly_sorted(r.deep_view()),
            r.len() == self.spec_stage_profiles().dom().len(),
            forall|k: Seq<char>|
                self.spec_stage_profiles().dom().contains(k) <==> r.deep_view().contains(k),
            forall|i: int, j: int|
                0 <= i < j < r.len() ==> ({
                    let a = #[trigger] r.deep_view()[i];
                    let b = #[trigger] r.deep_view()[j];
                    (a.len() < b.len() && b.take(a.len() as int) == a) || exists|k: int|
                        0 <= k < a.len() && k < b.len() && a.take(k) == b.take(k) && (a[k] as int)
                            < (b[k] as int)
                }),
    {
        let r = self.stage_profiles.sorted_keys();
        proof {
            assert forall|i: int, j: int| 0 <= i < j < r.len() implies ({
                let a = #[trigger] r.deep_view()[i];
                let b = #[trigger] r.deep_view()[j];
                (a.len() < b.len() && b.take(a.len() as int) == a) || exists|k: int|
                    0 <= k < a.len() && k < b.len() && a.take(k) == b.take(k) && (a[k] as int) < (
                    b[k] as int)
            }) by {
                law_seq_lt_is_lexicographic(r.deep_view()[i], r.deep_view()[j]);
            }
        }
        r
    }

    /// The keywords of the stage `stage`; none for an unknown stage.
    pub fn stage_keywords(&self, stage: &str) -> (r: Vec<String>)
        ensures
            r.deep_view() == if self.spec_stage_profiles().dom().contains(stage@) {
                self.spec_stage_profiles()[stage@]
            } else {
                Seq::<Seq<char>>::empty()
            },
    {
        match self.stage_profiles.get(stage) {
            Some(kws) => clone_strings(kws),
            None => {
                let r: Vec<String> = Vec::new();
                assert(r.deep_view() =~= Seq::<Seq<char>>::empty());
                r
            },
        }
    }

    /// The expert combos.
    pub fn get_expert_combos(&self) -> (r: &[ExpertCombo])
        ensures
            r@ == self.spec_expert_combos(),
    {
        self.expert_combos.as_slice()
    }

    /// The first expert combo whose name, lower-cased, is the lower-cased
    /// `stage`.
    pub fn expert_combo_for_stage(&self, stage: &str) -> (r: Option<&ExpertCombo>)
        ensures
            match r {
                Some(c) => exists|i: int|
                    0 <= i < self.spec_expert_combos().len() && *c
                        == self.spec_expert_combos()[i] && spec_to_lowercase(
                        self.spec_expert_combos()[i].name@,
                    ) == spec_to_lowercase(stage@) && forall|j: int|
                        0 <= j < i ==> spec_to_lowercase(
                            #[trigger] self.spec_expert_combos()[j].name@,
                        ) != spec_to_lowercase(stage@),
                None => forall|j: int|
                    0 <= j < self.spec_expert_combos().len() ==> spec_to_lowercase(
                        #[trigger] self.spec_expert_combos()[j].name@,
                    ) != spec_to_lowercase(stage@),
            },
    {
        let wanted = to_lowercase(stage);
        let mut i: usize = 0;
        while i < self.expert_combos.len()
            invariant
                i <= self.expert_combos.len(),
                wanted@ == spec_to_lowercase(stage@),
                forall|j: int|
                    0 <= j < i ==> spec_to_lowercase(#[trigger] self.expert_combos@[j].name@)
                        != spec_to_lowercase(stage@),
            decreases self.expert_combos.len() - i,
        {
            if to_lowercase(self.expert_combos[i].name.as_str()) == wanted {
                return Some(&self.expert_combos[i]);
            }
            i += 1;
        }
        None
    }

    /// The position of the first skill that answers to `skill_id`.
    pub fn find_skill(&self, skill_id: &str) -> (r: Option<usize>)
        ensures
            match r {
                Some(i) => is_first_match(self.spec_skills(), skill_id@, i as int),
                None => forall|j: int|
                    0 <= j < self.spec_skills().len() ==> !skill_matches(
                        #[trigger] self.spec_skills()[j],
                        skill_id@,
                    ),
            },
            match r {
                Some(i) => i < self.spec_skills().len() && (self.spec_skills()[i as int].id@
                    == skill_id@ || spec_to_lowercase(self.spec_skills()[i as int].name@)
                    == spec_to_lowercase(skill_id@)) && forall|j: int|
                    0 <= j < i ==> #[trigger] self.spec_skills()[j].id@ != skill_id@
                        && spec_to_lowercase(self.spec_skills()[j].name@) != spec_to_lowercase(
                        skill_id@,
                    ),
                None => forall|j: int|
                    0 <= j < self.spec_skills().len() ==> #[trigger] self.spec_skills()[j].id@
                        != skill_id@ && spec_to_lowercase(self.spec_skills()[j].name@)
                        != spec_to_lowercase(skill_id@),
            },
    {
        let wanted = to_lowercase(skill_id);
        let id = String::from_str(skill_id);
        let mut i: usize = 0;
        while i < self.skills.len()
            invariant
                i <= self.skills.len(),
                wanted@ == spec_to_lowercase(skill_id@),
                id@ == skill_id@,
                forall|j: int| 0 <= j < i ==> !skill_matches(#[trigger] self.skills@[j], skill_id@),
            decreases self.skills.len() - i,
        {
            let s = &self.skills[i];
            if s.id == id || to_lowercase(s.name.as_str()) == wanted {
                return Some(i);
            }
            i += 1;
        }
        None
    }

    /// The path of the first skill that answers to `skill_id`.
    pub fn find_skill_path(&self, skill_id: &str) -> (r: Option<PathBuf>)
        ensures
            match r {
                Some(p) => exists|i: int|
                    0 <= i < self.spec_skills().len() && p == self.spec_skills()[i].path && (
                    self.spec_skills()[i].id@ == skill_id@ || spec_to_lowercase(
                        self.spec_skills()[i].name@,
                    ) == spec_to_lowercase(skill_id@)) && forall|j: int|
                        0 <= j < i ==> #[trigger] self.spec_skills()[j].id@ != skill_id@
                            && spec_to_lowercase(self.spec_skills()[j].name@)
                            != spec_to_lowercase(skill_id@),
                None => forall|j: int|
                    0 <= j < self.spec_skills().len() ==> #[trigger] self.spec_skills()[j].id@
                        != skill_id@ && spec_to_lowercase(self.spec_skills()[j].name@)
                        != spec_to_lowercase(skill_id@),
            },
            match r {
                Some(p) => exists|i: int|
                    is_first_match(self.spec_skills(), skill_id@, i) && p
                        == self.spec_skills()[i].path,
                None => forall|j: int|
                    0 <= j < self.spec_skills().len() ==> !skill_matches(
                        #[trigger] self.spec_skills()[j],
                        skill_id@,
                    ),
            },
    {
        match self.find_skill(skill_id) {
            Some(i) => {
                proof {
                    law_first_match_is_exact(self.skills@, skill_id@, i as int);
                }
                Some(self.skills[i].path.clone())
            },
            None => None,
        }
    }
}

/// The first skill that answers to `id` has `id` as its id, or a name that
/// lower-cases to exactly the lower-cased `id`; no skill before it has either.
pub proof fn law_first_match_is_exact(skills: Seq<SkillEntry>, id: Seq<char>, i: int)
    requires
        is_first_match(skills, id, i),
    ensures
        skills[i].id@ == id || spec_to_lowercase(skills[i].name@) == spec_to_lowercase(id),
        forall|j: int|
            0 <= j < i ==> #[trigger] skills[j].id@ != id && spec_to_lowercase(skills[j].name@)
                != spec_to_lowercase(id),
{
    assert forall|j: int| 0 <= j < i implies #[trigger] skills[j].id@ != id && spec_to_lowercase(
        skills[j].name@,
    ) != spec_to_lowercase(id) by {
        assert(!skill_matches(skills[j], id));
    }
}

/// A skill whose id is `id`, or whose lower-cased name is the lower-cased
/// `id`, answers to `id`.
pub proof fn law_exact_id_or_name_answers(skill: SkillEntry, id: Seq<char>)
    requires
        skill.id@ == id || spec_to_lowercase(skill.name@) == spec_to_lowercase(id),
    ensures
        skill_matches(skill, id),
{
}

/// Where some skill answers to `id`, a first one does, at or before it.
pub proof fn lemma_first_match_exists(skills: Seq<SkillEntry>, id: Seq<char>, k: int)
    requires
        0 <= k < skills.len(),
        skill_matches(skills[k], id),
    ensures
        exists|i: int| is_first_match(skills, id, i) && i <= k,
    decreases k,
{
    if exists|j: int| 0 <= j < k && skill_matches(skills[j], id) {
        let j = choose|j: int| 0 <= j < k && skill_matches(skills[j], id);
        lemma_first_match_exists(skills, id, j);
    } else {
        assert(is_first_match(skills, id, k));
    }
}

/// A skill just added to a catalogue is found by its id: some skill answers
/// to it, and the first that does lies at or before the new one.
pub proof fn law_added_skill_is_found(skills: Seq<SkillEntry>, added: SkillEntry)
    ensures
        exists|i: int| is_first_match(skills.push(added), added.id@, i) && i <= skills.len(),
{
    lemma_first_match_exists(skills.push(added), added.id@, skills.len() as int);
}

} // verus!
