//! The state of the interactive interface and how it answers keys and finished work.
use vstd::prelude::*;
use fuzzy_matcher::FuzzyMatcher;
use fuzzy_matcher::skim::SkimMatcherV2;
use crate::model::{Recipe, RunOutput, choice_lists, clone_choices};
use crate::strmap::{StrMap, text_values};
use crate::template::{
    assignment_values, parse_assignment_values, placeholder_list, placeholder_names, rendered,
};
use crate::text::{
    clone_strings, decimal, int_text, join, join_strings, pop_char, push_char, starts_with_text,
    text_eq, views,
};

verus! {

/// The score that `SkimMatcherV2::default().fuzzy_match(choice, pattern)` gives: `None`
/// when `pattern` does not match `choice`.
pub uninterp spec fn skim_score(choice: Seq<char>, pattern: Seq<char>) -> Option<i64>;

/// Calls `SkimMatcherV2::default().fuzzy_match` (fuzzy-matcher). The result is taken to be a
/// function of the two texts alone, named `skim_score`; nothing more is stated of it.
#[verifier::external_body]
fn fuzzy_score(choice: &str, pattern: &str) -> (r: Option<i64>)
    ensures
        r == skim_score(choice@, pattern@),
{
    SkimMatcherV2::default().fuzzy_match(choice, pattern)
}

/// The text a recipe is searched in: its name, tags, description and command, separated by
/// spaces.
pub open spec fn haystack(r: Recipe) -> Seq<char> {
    r.name@ + " "@ + join(views(r.tags@), " "@) + " "@ + r.description@ + " "@ + r.command@
}

/// Builds the search text of a recipe.
pub fn search_text(r: &Recipe) -> (s: String)
    ensures
        s@ == haystack(*r),
{
    let mut s = r.name.clone();
    s.append(" ");
    let tags = join_strings(&r.tags, " ");
    s.append(tags.as_str());
    s.append(" ");
    s.append(r.description.as_str());
    s.append(" ");
    s.append(r.command.as_str());
    s
}

/// `a` comes before `b`: a higher score first, and on equal scores the lower position first.
pub open spec fn ranks_before(scores: Seq<Option<i64>>, a: usize, b: usize) -> bool {
    let sa = scores[a as int]->Some_0;
    let sb = scores[b as int]->Some_0;
    sa > sb || (sa == sb && a < b)
}

/// The positions that have a score.
pub open spec fn is_scored(scores: Seq<Option<i64>>, i: usize) -> bool {
    i < scores.len() && scores[i as int] is Some
}

/// `r` lists the scored positions, best first.
pub open spec fn is_ranking(r: Seq<usize>, scores: Seq<Option<i64>>) -> bool {
    &&& forall|j: usize| #[trigger] r.contains(j) <==> is_scored(scores, j)
    &&& forall|a: int, b: int|
        0 <= a < b < r.len() ==> ranks_before(scores, #[trigger] r[a], #[trigger] r[b])
}

/// The scored positions, best score first, and in order of position among equal scores (what a
/// stable sort by descending score yields).
pub open spec fn ranked(scores: Seq<Option<i64>>) -> Seq<usize> {
    choose|r: Seq<usize>| is_ranking(r, scores)
}

proof fn lemma_ranking_unique(r1: Seq<usize>, r2: Seq<usize>, scores: Seq<Option<i64>>)
    requires
        forall|j: usize| #![trigger r1.contains(j)] #![trigger r2.contains(j)] r1.contains(j) <==> r2.contains(j),
        forall|j: usize| r1.contains(j) ==> is_scored(scores, j),
        forall|a: int, b: int|
            0 <= a < b < r1.len() ==> ranks_before(scores, #[trigger] r1[a], #[trigger] r1[b]),
        forall|a: int, b: int|
            0 <= a < b < r2.len() ==> ranks_before(scores, #[trigger] r2[a], #[trigger] r2[b]),
    ensures
        r1 == r2,
    decreases r1.len(),
{
    if r1.len() == 0 {
        if r2.len() > 0 {
            assert(r2.contains(r2[0]));
            assert(r1.contains(r2[0]));
        }
        assert(r1 =~= r2);
    } else {
        assert(r1.contains(r1[0]));
        assert(r2.len() > 0);
        assert(r2.contains(r2[0]));
        let i = choose|i: int| 0 <= i < r1.len() && r1[i] == r2[0];
        let j = choose|j: int| 0 <= j < r2.len() && r2[j] == r1[0];
        if i > 0 && j > 0 {
            assert(ranks_before(scores, r1[0], r1[i]));
            assert(ranks_before(scores, r2[0], r2[j]));
        }
        assert(r1[0] == r2[0]);
        let t1 = r1.drop_first();
        let t2 = r2.drop_first();
        assert forall|x: usize| #![trigger t1.contains(x)] #![trigger t2.contains(x)] t1.contains(x) <==> t2.contains(x) by {
            if t1.contains(x) {
                let a = choose|a: int| 0 <= a < t1.len() && t1[a] == x;
                assert(r1[a + 1] == x);
                assert(ranks_before(scores, r1[0], x));
                assert(r2.contains(x));
                let b = choose|b: int| 0 <= b < r2.len() && r2[b] == x;
                assert(b != 0);
                assert(t2[b - 1] == x);
            }
            if t2.contains(x) {
                let a = choose|a: int| 0 <= a < t2.len() && t2[a] == x;
                assert(r2[a + 1] == x);
                assert(ranks_before(scores, r2[0], x));
                assert(r1.contains(x));
                let b = choose|b: int| 0 <= b < r1.len() && r1[b] == x;
                assert(b != 0);
                assert(t1[b - 1] == x);
            }
        }
        assert forall|x: usize| t1.contains(x) implies is_scored(scores, x) by {
            let a = choose|a: int| 0 <= a < t1.len() && t1[a] == x;
            assert(r1[a + 1] == x);
        }
        assert forall|a: int, b: int| 0 <= a < b < t1.len() implies ranks_before(
            scores,
            #[trigger] t1[a],
            #[trigger] t1[b],
        ) by {
            assert(t1[a] == r1[a + 1] && t1[b] == r1[b + 1]);
        }
        assert forall|a: int, b: int| 0 <= a < b < t2.len() implies ranks_before(
            scores,
            #[trigger] t2[a],
            #[trigger] t2[b],
        ) by {
            assert(t2[a] == r2[a + 1] && t2[b] == r2[b + 1]);
        }
        lemma_ranking_unique(t1, t2, scores);
        assert(r1 =~= seq![r1[0]] + t1);
        assert(r2 =~= seq![r2[0]] + t2);
    }
}

/// Where a position scoring `sc` goes in `r`, searching from `p`: after every entry that
/// scores at least `sc`.
spec fn insert_pos(r: Seq<usize>, scores: Seq<Option<i64>>, sc: i64, p: int) -> int
    decreases r.len() - p,
{
    if p < 0 || p >= r.len() {
        p
    } else if scores[r[p] as int] matches Some(s) && s >= sc {
        insert_pos(r, scores, sc, p + 1)
    } else {
        p
    }
}

/// The scored positions below `n`, ranked by inserting each in turn.
spec fn rank_prefix(scores: Seq<Option<i64>>, n: nat) -> Seq<usize>
    decreases n,
{
    if n == 0 {
        seq![]
    } else {
        let r = rank_prefix(scores, (n - 1) as nat);
        if n - 1 > usize::MAX {
            r
        } else {
            match scores[n - 1] {
                None => r,
                Some(sc) => r.insert(insert_pos(r, scores, sc, 0), (n - 1) as usize),
            }
        }
    }
}

proof fn lemma_insert_pos(r: Seq<usize>, scores: Seq<Option<i64>>, sc: i64, p: int)
    requires
        0 <= p <= r.len(),
        forall|k: int| 0 <= k < p ==> (scores[#[trigger] r[k] as int] matches Some(s) && s >= sc),
    ensures
        p <= insert_pos(r, scores, sc, p) <= r.len(),
        forall|k: int|
            0 <= k < insert_pos(r, scores, sc, p) ==> (scores[#[trigger] r[k] as int] matches Some(s)
                && s >= sc),
        insert_pos(r, scores, sc, p) < r.len() ==> !(scores[r[insert_pos(r, scores, sc, p)] as int] matches Some(
            s,
        ) && s >= sc),
    decreases r.len() - p,
{
    if p < r.len() && (scores[r[p] as int] matches Some(s) && s >= sc) {
        lemma_insert_pos(r, scores, sc, p + 1);
    }
}

proof fn lemma_rank_prefix(scores: Seq<Option<i64>>, n: nat)
    requires
        n <= scores.len(),
    ensures
        forall|j: usize| #[trigger] rank_prefix(scores, n).contains(j) <==> (j < n && is_scored(scores, j)),
        forall|a: int, b: int|
            0 <= a < b < rank_prefix(scores, n).len() ==> ranks_before(
                scores,
                #[trigger] rank_prefix(scores, n)[a],
                #[trigger] rank_prefix(scores, n)[b],
            ),
    decreases n,
{
    if n > 0 {
        let old_r = rank_prefix(scores, (n - 1) as nat);
        lemma_rank_prefix(scores, (n - 1) as nat);
        let r = rank_prefix(scores, n);
        if n - 1 > usize::MAX {
            assert(r == old_r);
        } else if let Some(sc) = scores[n - 1] {
            let i = (n - 1) as usize;
            lemma_insert_pos(old_r, scores, sc, 0);
            let p = insert_pos(old_r, scores, sc, 0);
            assert(r =~= old_r.insert(p, i));
            if p < old_r.len() {
                assert(old_r.contains(old_r[p]));
                assert(scores[old_r[p] as int]->Some_0 < sc);
            }
            assert forall|a: int, b: int| 0 <= a < b < r.len() implies ranks_before(
                scores,
                #[trigger] r[a],
                #[trigger] r[b],
            ) by {
                if b < p {
                    assert(r[a] == old_r[a] && r[b] == old_r[b]);
                } else if b == p {
                    assert(r[a] == old_r[a] && r[b] == i);
                    assert(old_r.contains(old_r[a]));
                    assert(scores[old_r[a] as int] matches Some(s) && s >= sc);
                } else if a == p {
                    assert(r[a] == i);
                    assert(r[b] == old_r[b - 1]);
                    assert(old_r.contains(old_r[b - 1]));
                    if b - 1 > p {
                        assert(ranks_before(scores, old_r[p], old_r[b - 1]));
                    }
                } else if a < p {
                    assert(r[a] == old_r[a] && r[b] == old_r[b - 1]);
                    assert(old_r.contains(old_r[a]));
                    assert(old_r.contains(old_r[b - 1]));
                    assert(ranks_before(scores, old_r[a], old_r[b - 1]));
                } else {
                    assert(r[a] == old_r[a - 1] && r[b] == old_r[b - 1]);
                }
            }
            assert forall|j: usize| #[trigger] r.contains(j) <==> (j < n && is_scored(scores, j)) by {
                if r.contains(j) {
                    let k = choose|k: int| 0 <= k < r.len() && r[k] == j;
                    if k < p {
                        assert(old_r[k] == j);
                        assert(old_r.contains(j));
                    } else if k > p {
                        assert(old_r[k - 1] == j);
                        assert(old_r.contains(j));
                    }
                }
                if j < n && is_scored(scores, j) {
                    if j == i {
                        assert(r[p] == j);
                    } else {
                        assert(old_r.contains(j));
                        let k = choose|k: int| 0 <= k < old_r.len() && old_r[k] == j;
                        if k < p {
                            assert(r[k] == j);
                        } else {
                            assert(r[k + 1] == j);
                        }
                    }
                }
            }
        } else {
            assert(r == old_r);
            assert forall|j: usize| #[trigger] r.contains(j) <==> (j < n && is_scored(scores, j)) by {
                if j == n - 1 {
                    assert(!is_scored(scores, j));
                }
            }
        }
    }
}

/// Every list of scores has exactly one ranking.
pub proof fn lemma_ranked_is_ranking(scores: Seq<Option<i64>>)
    ensures
        is_ranking(ranked(scores), scores),
        forall|r: Seq<usize>| #[trigger] is_ranking(r, scores) ==> r == ranked(scores),
{
    lemma_rank_prefix(scores, scores.len());
    assert(is_ranking(rank_prefix(scores, scores.len()), scores));
    let t = ranked(scores);
    assert forall|r: Seq<usize>| #[trigger] is_ranking(r, scores) implies r == t by {
        lemma_ranking_unique(r, t, scores);
    }
}

/// Every position shown for a query is that of a recipe.
pub proof fn lemma_filtered_in_range(recipes: Seq<Recipe>, query: Seq<char>, k: int)
    requires
        0 <= k < filtered(recipes, query).len(),
    ensures
        filtered(recipes, query)[k] < recipes.len(),
{
    if query.len() > 0 {
        let scores = scores_for(recipes, query);
        lemma_ranked_is_ranking(scores);
        let r = ranked(scores);
        assert(r.contains(r[k]));
    }
}

fn scored_at_least(scores: &Vec<Option<i64>>, j: usize, sc: i64) -> (r: bool)
    requires
        j < scores@.len(),
    ensures
        r == (scores@[j as int] matches Some(s) && s >= sc),
{
    match scores[j] {
        Some(s) => s >= sc,
        None => false,
    }
}

/// The positions that have a score, best first; among equal scores, in order of position.
pub fn rank_matches(scores: &Vec<Option<i64>>) -> (r: Vec<usize>)
    ensures
        is_ranking(r@, scores@),
        r@ == ranked(scores@),
{
    let n = scores.len();
    let mut r: Vec<usize> = Vec::new();
    let mut i: usize = 0;
    while i < n
        invariant
            n == scores@.len(),
            i <= n,
            forall|j: usize| #[trigger] r@.contains(j) <==> (j < i && is_scored(scores@, j)),
            forall|a: int, b: int|
                0 <= a < b < r@.len() ==> ranks_before(scores@, #[trigger] r@[a], #[trigger] r@[b]),
        decreases n - i,
    {
        match scores[i] {
            None => {},
            Some(sc) => {
                let m = r.len();
                let mut p: usize = 0;
                assert forall|k: int| 0 <= k < m implies #[trigger] r@[k] < n by {
                    assert(r@.contains(r@[k]));
                }
                while p < m && scored_at_least(scores, r[p], sc)
                    invariant
                        m == r@.len(),
                        n == scores@.len(),
                        p <= m,
                        i < n,
                        scores@[i as int] == Some(sc),
                        forall|k: int| 0 <= k < m ==> #[trigger] r@[k] < n,
                        forall|j: usize| #[trigger] r@.contains(j) <==> (j < i && is_scored(scores@, j)),
                        forall|k: int|
                            0 <= k < p ==> (#[trigger] scores@[r@[k] as int])->Some_0 >= sc,
                    decreases m - p,
                {
                    assert(r@.contains(r@[p as int]));
                    p = p + 1;
                }
                let ghost old_r = r@;
                proof {
                    if p < m {
                        assert(old_r.contains(old_r[p as int]));
                        assert(scores@[old_r[p as int] as int]->Some_0 < sc);
                    }
                }
                r.insert(p, i);
                proof {
                    assert(r@ =~= old_r.insert(p as int, i));
                    assert forall|a: int, b: int| 0 <= a < b < r@.len() implies ranks_before(
                        scores@,
                        #[trigger] r@[a],
                        #[trigger] r@[b],
                    ) by {
                        if b < p {
                            assert(r@[a] == old_r[a] && r@[b] == old_r[b]);
                        } else if b == p {
                            assert(old_r.contains(old_r[a]));
                        } else if a == p {
                            assert(r@[b] == old_r[b - 1]);
                            assert(old_r.contains(old_r[b - 1]));
                            if b - 1 > p {
                                assert(ranks_before(scores@, old_r[p as int], old_r[b - 1]));
                            }
                        } else if a < p {
                            assert(r@[a] == old_r[a] && r@[b] == old_r[b - 1]);
                            assert(old_r.contains(old_r[a]));
                            assert(old_r.contains(old_r[b - 1]));
                            assert(ranks_before(scores@, old_r[a], old_r[b - 1]));
                        } else {
                            assert(r@[a] == old_r[a - 1] && r@[b] == old_r[b - 1]);
                        }
                    }
                    assert forall|j: usize| #[trigger] r@.contains(j) <==> (j < i + 1 && is_scored(
                        scores@,
                        j,
                    )) by {
                        if r@.contains(j) {
                            let k = choose|k: int| 0 <= k < r@.len() && r@[k] == j;
                            if k < p {
                                assert(old_r[k] == j);
                                assert(old_r.contains(j));
                            } else if k > p {
                                assert(old_r[k - 1] == j);
                                assert(old_r.contains(j));
                            }
                        }
                        if j < i + 1 && is_scored(scores@, j) {
                            if j == i {
                                assert(r@[p as int] == j);
                            } else {
                                assert(old_r.contains(j));
                                let k = choose|k: int| 0 <= k < old_r.len() && old_r[k] == j;
                                if k < p {
                                    assert(r@[k] == j);
                                } else {
                                    assert(r@[k + 1] == j);
                                }
                            }
                        }
                    }
                }
            },
        }
        i = i + 1;
    }
    proof {
        let t = ranked(scores@);
        assert(is_ranking(r@, scores@));
        assert(is_ranking(t, scores@));
        lemma_ranking_unique(r@, t, scores@);
    }
    r
}

/// The positions `0..n`.
pub open spec fn all_positions(n: nat) -> Seq<usize> {
    Seq::new(n, |i: int| i as usize)
}

/// The scores of recipes against a query.
pub open spec fn scores_for(recipes: Seq<Recipe>, query: Seq<char>) -> Seq<Option<i64>> {
    recipes.map_values(|r: Recipe| skim_score(haystack(r), query))
}

/// The positions of the recipes shown for a query: all of them for an empty query, otherwise
/// those the query matches, best match first.
pub open spec fn filtered(recipes: Seq<Recipe>, query: Seq<char>) -> Seq<usize> {
    if query.len() == 0 {
        all_positions(recipes.len())
    } else {
        ranked(scores_for(recipes, query))
    }
}

/// The positions of the recipes shown for `query`.
pub fn filter_recipes(recipes: &Vec<Recipe>, query: &str) -> (r: Vec<usize>)
    ensures
        r@ == filtered(recipes@, query@),
        forall|k: int| 0 <= k < r@.len() ==> #[trigger] r@[k] < recipes@.len(),
{
    let n = recipes.len();
    if query.unicode_len() == 0 {
        let mut all: Vec<usize> = Vec::new();
        let mut i: usize = 0;
        while i < n
            invariant
                n == recipes@.len(),
                i <= n,
                all@ == all_positions(i as nat),
            decreases n - i,
        {
            all.push(i);
            i = i + 1;
            assert(all@ =~= all_positions(i as nat));
        }
        return all;
    }
    let mut scores: Vec<Option<i64>> = Vec::new();
    let mut i: usize = 0;
    while i < n
        invariant
            n == recipes@.len(),
            i <= n,
            scores@ == scores_for(recipes@, query@).take(i as int),
        decreases n - i,
    {
        let text = search_text(&recipes[i]);
        let s = fuzzy_score(text.as_str(), query);
        scores.push(s);
        i = i + 1;
        assert(scores@ =~= scores_for(recipes@, query@).take(i as int));
    }
    assert(scores@ =~= scores_for(recipes@, query@));
    let r = rank_matches(&scores);
    assert forall|k: int| 0 <= k < r@.len() implies #[trigger] r@[k] < recipes@.len() by {
        assert(r@.contains(r@[k]));
    }
    r
}

/// What the user asked to do with the selected recipe.
#[derive(Debug, Clone, Copy, PartialEq, Eq, Structural)]
pub enum Action {
    Run,
    Copy { quit_after: bool },
}

/// Whether the prompt offers the presets or asks for each value.
#[derive(Debug, Clone, Copy, PartialEq, Eq, Structural)]
pub enum PromptStage {
    ChoosePreset,
    InputValues,
}

/// The prompt that collects placeholder values before an action.
pub struct PromptState {
    action: Action,
    recipe_idx: usize,
    placeholders: Vec<String>,
    choices: StrMap<Vec<String>>,
    current: usize,
    values: StrMap<String>,
    input: String,
    choice_index: usize,
    presets: Vec<String>,
    selected_preset: usize,
    stage: PromptStage,
}

/// A prompt, in terms of texts.
#[verifier::ext_equal]
pub struct PromptView {
    pub action: Action,
    pub recipe_idx: usize,
    pub placeholders: Seq<Seq<char>>,
    pub choices: Map<Seq<char>, Seq<Seq<char>>>,
    pub current: usize,
    pub values: Map<Seq<char>, Seq<char>>,
    pub input: Seq<char>,
    pub choice_index: usize,
    pub presets: Seq<Seq<char>>,
    pub selected_preset: usize,
    pub stage: PromptStage,
}

impl View for PromptState {
    type V = PromptView;

    closed spec fn view(&self) -> PromptView {
        PromptView {
            action: self.action,
            recipe_idx: self.recipe_idx,
            placeholders: views(self.placeholders@),
            choices: choice_lists(self.choices@),
            current: self.current,
            values: text_values(self.values@),
            input: self.input@,
            choice_index: self.choice_index,
            presets: views(self.presets@),
            selected_preset: self.selected_preset,
            stage: self.stage,
        }
    }
}

/// The choices offered for the placeholder being asked for, if it has any.
pub open spec fn choices_of(p: PromptView) -> Option<Seq<Seq<char>>> {
    if p.current < p.placeholders.len() && p.choices.contains_key(p.placeholders[p.current as int])
        && p.choices[p.placeholders[p.current as int]].len() > 0 {
        Some(p.choices[p.placeholders[p.current as int]])
    } else {
        None
    }
}

/// A prompt for one of `recipes` that is still asking for a value: it asks for the
/// placeholders of that recipe, and holds values for those it has already asked for.
pub open spec fn prompt_ok(p: PromptView, recipes: Seq<Recipe>) -> bool {
    &&& p.recipe_idx < recipes.len()
    &&& p.current < p.placeholders.len()
    &&& p.selected_preset <= p.presets.len()
    &&& choices_of(p) matches Some(c) ==> p.choice_index < c.len()
    &&& p.placeholders.to_set() == placeholder_names(recipes[p.recipe_idx as int].compiled@)
    &&& p.values.dom() == p.placeholders.take(p.current as int).to_set()
}

impl PromptState {
    /// What is done with the values once collected.
    pub fn action(&self) -> (r: Action)
        ensures
            r == self@.action,
    {
        self.action
    }

    /// The recipe the values are for.
    pub fn recipe_idx(&self) -> (r: usize)
        ensures
            r == self@.recipe_idx,
    {
        self.recipe_idx
    }

    /// The placeholders to fill, in order.
    pub fn placeholders(&self) -> (r: &Vec<String>)
        ensures
            views(r@) == self@.placeholders,
    {
        &self.placeholders
    }

    /// The position of the placeholder being asked for.
    pub fn current(&self) -> (r: usize)
        ensures
            r == self@.current,
    {
        self.current
    }

    /// The values collected so far.
    pub fn values(&self) -> (r: &StrMap<String>)
        ensures
            text_values(r@) == self@.values,
    {
        &self.values
    }

    /// The text typed for the placeholder being asked for.
    pub fn input(&self) -> (r: &str)
        ensures
            r@ == self@.input,
    {
        self.input.as_str()
    }

    /// The highlighted choice.
    pub fn choice_index(&self) -> (r: usize)
        ensures
            r == self@.choice_index,
    {
        self.choice_index
    }

    /// The presets offered.
    pub fn presets(&self) -> (r: &Vec<String>)
        ensures
            views(r@) == self@.presets,
    {
        &self.presets
    }

    /// The highlighted preset; the position after the last one stands for custom values.
    pub fn selected_preset(&self) -> (r: usize)
        ensures
            r == self@.selected_preset,
    {
        self.selected_preset
    }

    /// The stage of the prompt.
    pub fn stage(&self) -> (r: PromptStage)
        ensures
            r == self@.stage,
    {
        self.stage
    }

    /// Moves on to the next placeholder, clearing the typed text and the highlighted choice;
    /// says whether every placeholder has been asked for.
    fn advance(&mut self) -> (done: bool)
        requires
            old(self)@.current < old(self)@.placeholders.len(),
        ensures
            final(self)@ == (PromptView {
                input: seq![],
                choice_index: 0,
                current: (old(self)@.current + 1) as usize,
                ..old(self)@
            }),
            done == (old(self)@.current + 1 >= old(self)@.placeholders.len()),
    {
        assert(self.current < self.placeholders.len());
        self.input = String::new();
        self.choice_index = 0;
        self.current = self.current + 1;
        self.current >= self.placeholders.len()
    }

    /// The placeholder being asked for (empty once all are answered).
    pub fn current_placeholder(&self) -> (r: &str)
        ensures
            self@.current < self@.placeholders.len() ==> r@ == self@.placeholders[self@.current as int],
    {
        if self.current < self.placeholders.len() {
            self.placeholders[self.current].as_str()
        } else {
            ""
        }
    }

    /// The choices for the placeholder being asked for, if it has a non-empty list of them.
    pub fn current_choices(&self) -> (r: Option<&Vec<String>>)
        ensures
            r is Some <==> choices_of(self@) is Some,
            r matches Some(c) ==> choices_of(self@) == Some(views(c@)),
    {
        if self.current >= self.placeholders.len() {
            return None;
        }
        match self.choices.get(self.placeholders[self.current].as_str()) {
            Some(c) => {
                if c.len() > 0 {
                    Some(c)
                } else {
                    None
                }
            },
            None => None,
        }
    }
}

/// The mode of the interface.
pub enum Mode {
    Normal,
    Search,
    Prompt(PromptState),
}

/// The mode, in terms of texts.
#[verifier::ext_equal]
pub enum ModeView {
    Normal,
    Search,
    Prompt(PromptView),
}

impl View for Mode {
    type V = ModeView;

    open spec fn view(&self) -> ModeView {
        match self {
            Mode::Normal => ModeView::Normal,
            Mode::Search => ModeView::Search,
            Mode::Prompt(p) => ModeView::Prompt(p@),
        }
    }
}

/// A key as the interface reads it.
#[derive(Debug, Clone, Copy, PartialEq, Eq, Structural)]
pub enum Key {
    Char(char),
    Up,
    Down,
    Enter,
    Esc,
    Backspace,
    Other,
}

/// A key press: the key, and whether Control was held.
#[derive(Debug, Clone, Copy, PartialEq, Eq, Structural)]
pub struct KeyInput {
    pub code: Key,
    pub ctrl: bool,
}

/// The outside work a key asks for.
pub enum Effect {
    /// Nothing to do.
    Nothing,
    /// Leave the interface.
    Quit,
    /// Copy `text` to the clipboard, then report with `finish_copy`.
    Copy { text: String, recipe_name: String, quit_after: bool },
    /// Run `command` in the background, then report with `finish_run`.
    Run { command: String, recipe_idx: usize },
    /// Read the recipe files again, then report with `finish_reload`.
    Reload,
}

/// The outside work a key asks for, in terms of texts.
pub enum EffectView {
    Nothing,
    Quit,
    Copy(Seq<char>, Seq<char>, bool),
    Run(Seq<char>, usize),
    Reload,
}

impl View for Effect {
    type V = EffectView;

    open spec fn view(&self) -> EffectView {
        match self {
            Effect::Nothing => EffectView::Nothing,
            Effect::Quit => EffectView::Quit,
            Effect::Copy { text, recipe_name, quit_after } => EffectView::Copy(
                text@,
                recipe_name@,
                *quit_after,
            ),
            Effect::Run { command, recipe_idx } => EffectView::Run(command@, *recipe_idx),
            Effect::Reload => EffectView::Reload,
        }
    }
}

/// The state of the interactive interface.
pub struct App {
    recipes: Vec<Recipe>,
    query: String,
    selected: usize,
    status: String,
    mode: Mode,
    running: Option<usize>,
    spinner_frame: usize,
}

/// The state of the interface, in terms of texts.
#[verifier::ext_equal]
pub struct AppView {
    pub recipes: Seq<Recipe>,
    pub query: Seq<char>,
    pub selected: usize,
    pub status: Seq<char>,
    pub mode: ModeView,
    pub running: Option<usize>,
    pub spinner_frame: usize,
}

impl View for App {
    type V = AppView;

    closed spec fn view(&self) -> AppView {
        AppView {
            recipes: self.recipes@,
            query: self.query@,
            selected: self.selected,
            status: self.status@,
            mode: self.mode@,
            running: self.running,
            spinner_frame: self.spinner_frame,
        }
    }
}

/// A state whose prompt, if any, is still asking for a value of an existing recipe.
pub open spec fn app_ok(v: AppView) -> bool {
    v.mode matches ModeView::Prompt(p) ==> prompt_ok(p, v.recipes)
}

/// The number of recipes shown.
pub open spec fn shown(v: AppView) -> nat {
    filtered(v.recipes, v.query).len()
}

/// The selection moved by `delta`, kept within the recipes shown.
pub open spec fn move_view(v: AppView, delta: int) -> AppView {
    let n = shown(v);
    let next = v.selected + delta;
    AppView {
        selected: if n == 0 {
            0
        } else if next < 0 {
            0
        } else if next > n - 1 {
            (n - 1) as usize
        } else {
            next as usize
        },
        ..v
    }
}

/// The selection brought back within the recipes shown.
pub open spec fn reset_view(v: AppView) -> AppView {
    let n = shown(v);
    AppView {
        selected: if n == 0 {
            0
        } else if v.selected >= n {
            (n - 1) as usize
        } else {
            v.selected
        },
        ..v
    }
}

/// Acting on recipe `idx` with the collected values: copying hands the rendered command to
/// the clipboard; running starts it in the background.
pub open spec fn execute_view(
    v: AppView,
    action: Action,
    idx: usize,
    values: Map<Seq<char>, Seq<char>>,
) -> (AppView, EffectView) {
    let text = rendered(v.recipes[idx as int].compiled@, values);
    match action {
        Action::Copy { quit_after } => (
            v,
            EffectView::Copy(text, v.recipes[idx as int].name@, quit_after),
        ),
        Action::Run => (
            AppView { running: Some(idx), spinner_frame: 0, status: seq![], ..v },
            EffectView::Run(text, idx),
        ),
    }
}

/// Starting an action on the selected recipe: refused while a command runs (for running)
/// or when no recipe is selected; done at once for a command without placeholders;
/// otherwise a prompt opens, on the presets if the recipe has any.
pub open spec fn start_view(v: AppView, action: Action) -> (AppView, EffectView) {
    let f = filtered(v.recipes, v.query);
    if action == Action::Run && v.running is Some {
        (AppView { status: "Already running a command"@, ..v }, EffectView::Nothing)
    } else if v.selected >= f.len() {
        (AppView { status: "No recipe selected"@, ..v }, EffectView::Nothing)
    } else {
        let idx = f[v.selected as int];
        let rec = v.recipes[idx as int];
        let names = placeholder_list(rec.compiled@);
        if placeholder_names(rec.compiled@) == Set::<Seq<char>>::empty() {
            execute_view(v, action, idx, Map::empty())
        } else {
            (
                AppView {
                    mode: ModeView::Prompt(
                        PromptView {
                            action,
                            recipe_idx: idx,
                            placeholders: names,
                            choices: choice_lists(rec.choices@),
                            current: 0,
                            values: Map::empty(),
                            input: seq![],
                            choice_index: 0,
                            presets: views(rec.presets@),
                            selected_preset: 0,
                            stage: if rec.presets@.len() == 0 {
                                PromptStage::InputValues
                            } else {
                                PromptStage::ChoosePreset
                            },
                        },
                    ),
                    status: seq![],
                    ..v
                },
                EffectView::Nothing,
            )
        }
    }
}

/// The first of `names`, from position `i` on, that has no value in `assigned`.
pub open spec fn first_missing(names: Seq<Seq<char>>, assigned: Set<Seq<char>>, i: int) -> Option<
    Seq<char>,
>
    decreases names.len() - i,
{
    if i < 0 || i >= names.len() {
        None
    } else if !assigned.contains(names[i]) {
        Some(names[i])
    } else {
        first_missing(names, assigned, i + 1)
    }
}

/// `v` with the prompt `p`.
pub open spec fn with_prompt(v: AppView, p: PromptView) -> AppView {
    AppView { mode: ModeView::Prompt(p), ..v }
}

/// The prompt closed, reporting `Cancelled`.
pub open spec fn cancel_view(v: AppView) -> AppView {
    AppView { mode: ModeView::Normal, status: "Cancelled"@, ..v }
}

/// A key in the preset stage: Up and Down move among the presets and the custom-values entry,
/// Enter applies a preset (if it gives every placeholder a value) or moves on to the values,
/// Esc cancels.
pub open spec fn preset_key_view(v: AppView, p: PromptView, k: KeyInput) -> (AppView, EffectView) {
    match k.code {
        Key::Esc => (cancel_view(v), EffectView::Nothing),
        Key::Up => (
            with_prompt(
                v,
                PromptView {
                    selected_preset: if p.selected_preset > 0 {
                        (p.selected_preset - 1) as usize
                    } else {
                        p.selected_preset
                    },
                    ..p
                },
            ),
            EffectView::Nothing,
        ),
        Key::Down => (
            with_prompt(
                v,
                PromptView {
                    selected_preset: if p.selected_preset < p.presets.len() {
                        (p.selected_preset + 1) as usize
                    } else {
                        p.selected_preset
                    },
                    ..p
                },
            ),
            EffectView::Nothing,
        ),
        Key::Enter => if p.selected_preset < p.presets.len() {
            let vals = assignment_values(p.presets[p.selected_preset as int]);
            match first_missing(p.placeholders, vals.dom(), 0) {
                Some(name) => (
                    AppView { status: "Preset missing value for {"@ + name + "}"@, ..v },
                    EffectView::Nothing,
                ),
                None => execute_view(
                    AppView { mode: ModeView::Normal, ..v },
                    p.action,
                    p.recipe_idx,
                    vals,
                ),
            }
        } else {
            (
                with_prompt(v, PromptView { stage: PromptStage::InputValues, ..p }),
                EffectView::Nothing,
            )
        },
        _ => (v, EffectView::Nothing),
    }
}

/// A key in the value stage: Up and Down move among the choices of the placeholder if it has
/// any, otherwise characters and Backspace edit the typed text; Enter records the value and
/// moves on, acting once every placeholder has one; Esc cancels.
pub open spec fn value_key_view(v: AppView, p: PromptView, k: KeyInput) -> (AppView, EffectView) {
    match k.code {
        Key::Esc => (cancel_view(v), EffectView::Nothing),
        Key::Up => if choices_of(p) is Some && p.choice_index > 0 {
            (
                with_prompt(v, PromptView { choice_index: (p.choice_index - 1) as usize, ..p }),
                EffectView::Nothing,
            )
        } else {
            (v, EffectView::Nothing)
        },
        Key::Down => match choices_of(p) {
            Some(c) => if p.choice_index < c.len() - 1 {
                (
                    with_prompt(v, PromptView { choice_index: (p.choice_index + 1) as usize, ..p }),
                    EffectView::Nothing,
                )
            } else {
                (v, EffectView::Nothing)
            },
            None => (v, EffectView::Nothing),
        },
        Key::Backspace => if choices_of(p) is None {
            (
                with_prompt(
                    v,
                    PromptView {
                        input: if p.input.len() > 0 {
                            p.input.drop_last()
                        } else {
                            p.input
                        },
                        ..p
                    },
                ),
                EffectView::Nothing,
            )
        } else {
            (v, EffectView::Nothing)
        },
        Key::Enter => {
            let name = p.placeholders[p.current as int];
            let value = match choices_of(p) {
                Some(c) => c[p.choice_index as int],
                None => p.input,
            };
            let values = p.values.insert(name, value);
            if p.current + 1 >= p.placeholders.len() {
                execute_view(AppView { mode: ModeView::Normal, ..v }, p.action, p.recipe_idx, values)
            } else {
                (
                    with_prompt(
                        v,
                        PromptView {
                            values,
                            current: (p.current + 1) as usize,
                            input: seq![],
                            choice_index: 0,
                            ..p
                        },
                    ),
                    EffectView::Nothing,
                )
            }
        },
        Key::Char(c) => if !k.ctrl && choices_of(p) is None {
            (with_prompt(v, PromptView { input: p.input.push(c), ..p }), EffectView::Nothing)
        } else {
            (v, EffectView::Nothing)
        },
        _ => (v, EffectView::Nothing),
    }
}

/// A key in the normal mode: `q` and Control-C quit, Up and Down (or `k` and `j`) move the
/// selection, Enter runs, `y` (with or without Control) copies, `Y` copies and quits, `r`
/// reloads, `/` starts searching; the selection is then brought back within the recipes shown.
pub open spec fn normal_key_view(v: AppView, k: KeyInput) -> (AppView, EffectView) {
    if k.ctrl && k.code == Key::Char('c') {
        (v, EffectView::Quit)
    } else {
        match k.code {
            Key::Char(c) => if c == 'q' {
                (v, EffectView::Quit)
            } else if c == 'Y' {
                let r = start_view(v, Action::Copy { quit_after: true });
                (reset_view(r.0), r.1)
            } else if c == 'y' {
                let r = start_view(v, Action::Copy { quit_after: false });
                (reset_view(r.0), r.1)
            } else if c == 'r' {
                (reset_view(v), EffectView::Reload)
            } else if c == '/' {
                (
                    reset_view(AppView { mode: ModeView::Search, status: seq![], ..v }),
                    EffectView::Nothing,
                )
            } else if c == 'k' {
                (reset_view(move_view(v, -1)), EffectView::Nothing)
            } else if c == 'j' {
                (reset_view(move_view(v, 1)), EffectView::Nothing)
            } else {
                (reset_view(v), EffectView::Nothing)
            },
            Key::Up => (reset_view(move_view(v, -1)), EffectView::Nothing),
            Key::Down => (reset_view(move_view(v, 1)), EffectView::Nothing),
            Key::Enter => {
                let r = start_view(v, Action::Run);
                (reset_view(r.0), r.1)
            },
            _ => (reset_view(v), EffectView::Nothing),
        }
    }
}

/// Back to the normal mode with the status cleared.
pub open spec fn leave_search(v: AppView) -> AppView {
    AppView { mode: ModeView::Normal, status: seq![], ..v }
}

/// A key in the search mode: characters and Backspace edit the query and select the first
/// match; Esc, Up, Down and Enter return to the normal mode (moving the selection, or running);
/// Control-C quits; the selection is then brought back within the recipes shown.
pub open spec fn search_key_view(v: AppView, k: KeyInput) -> (AppView, EffectView) {
    if k.ctrl && k.code == Key::Char('c') {
        (v, EffectView::Quit)
    } else {
        match k.code {
            Key::Esc => (reset_view(leave_search(v)), EffectView::Nothing),
            Key::Up => (reset_view(move_view(leave_search(v), -1)), EffectView::Nothing),
            Key::Down => (reset_view(move_view(leave_search(v), 1)), EffectView::Nothing),
            Key::Enter => {
                let r = start_view(leave_search(v), Action::Run);
                (reset_view(r.0), r.1)
            },
            Key::Backspace => (
                reset_view(
                    AppView {
                        query: if v.query.len() > 0 {
                            v.query.drop_last()
                        } else {
                            v.query
                        },
                        selected: 0,
                        ..v
                    },
                ),
                EffectView::Nothing,
            ),
            Key::Char(c) => if !k.ctrl {
                (reset_view(AppView { query: v.query.push(c), selected: 0, ..v }), EffectView::Nothing)
            } else {
                (reset_view(v), EffectView::Nothing)
            },
            _ => (reset_view(v), EffectView::Nothing),
        }
    }
}

/// A key, handled according to the mode.
pub open spec fn key_view(v: AppView, k: KeyInput) -> (AppView, EffectView) {
    match v.mode {
        ModeView::Normal => normal_key_view(v, k),
        ModeView::Search => search_key_view(v, k),
        ModeView::Prompt(p) => match p.stage {
            PromptStage::ChoosePreset => preset_key_view(v, p, k),
            PromptStage::InputValues => value_key_view(v, p, k),
        },
    }
}

/// The status after a copy: `Copied: <name>`, or the clipboard's error.
pub open spec fn copy_status(name: Seq<char>, result: Result<(), String>) -> Seq<char> {
    match result {
        Ok(_) => "Copied: "@ + name,
        Err(e) => "Clipboard error: "@ + e@,
    }
}

/// The status after a run, from its exit code.
pub open spec fn run_status(code: Option<i32>) -> Seq<char> {
    match code {
        Some(c) => if c == 0 {
            "Ran successfully"@
        } else {
            "Command exited with code "@ + int_text(c as int)
        },
        None => "Command terminated by signal"@,
    }
}

/// The state once the running command has finished with `output`.
pub open spec fn run_finished_view(v: AppView, output: RunOutput) -> AppView {
    match v.running {
        None => v,
        Some(idx) => AppView {
            status: run_status(output.code),
            running: None,
            recipes: if idx < v.recipes.len() {
                v.recipes.update(idx as int, Recipe { last_run: Some(output), ..v.recipes[idx as int] })
            } else {
                v.recipes
            },
            ..v
        },
    }
}

/// The state once the recipe files were read again.
pub open spec fn reloaded_view(v: AppView, result: Result<Vec<Recipe>, String>) -> AppView {
    match result {
        Ok(recipes) => reset_view(AppView { recipes: recipes@, status: "Reloaded recipes"@, ..v }),
        Err(e) => AppView { status: "Reload failed: "@ + e@, ..v },
    }
}

/// The colour of the state label in the footer.
#[derive(Debug, Clone, Copy, PartialEq, Eq, Structural)]
pub enum Tone {
    Cyan,
    Red,
    LightGreen,
    Yellow,
    Blue,
    Magenta,
}

/// `s` begins with `p`.
pub open spec fn has_prefix(s: Seq<char>, p: Seq<char>) -> bool {
    p.len() <= s.len() && s.take(p.len() as int) == p
}

/// The spinner character of a frame.
pub open spec fn spinner_char(frame: usize) -> Seq<char> {
    if frame % 4 == 0 {
        "|"@
    } else if frame % 4 == 1 {
        "/"@
    } else if frame % 4 == 2 {
        "-"@
    } else {
        "\\"@
    }
}

/// The label and colour of the footer's state box: a spinner while a command runs, then a
/// label for the last status, then the mode.
pub open spec fn footer_view(v: AppView) -> (Seq<char>, Tone) {
    let s = v.status;
    if v.running is Some {
        ("RUN "@ + spinner_char(v.spinner_frame), Tone::Cyan)
    } else if has_prefix(s, "Clipboard error:"@) {
        ("COPY ERROR"@, Tone::Red)
    } else if has_prefix(s, "Reload failed:"@) {
        ("RELOAD ERROR"@, Tone::Red)
    } else if s == "Command terminated by signal"@ {
        ("SIGNAL"@, Tone::Red)
    } else if has_prefix(s, "Command exited with code"@) {
        ("RUN FAILED"@, Tone::Red)
    } else if s == "Command runner disconnected"@ {
        ("RUN ERROR"@, Tone::Red)
    } else if has_prefix(s, "Copied:"@) {
        ("COPIED!"@, Tone::LightGreen)
    } else if s == "Reloaded recipes"@ {
        ("RELOADED"@, Tone::Cyan)
    } else if s == "Ran successfully"@ {
        ("RAN"@, Tone::LightGreen)
    } else if s == "No recipe selected"@ {
        ("NO RECIPE"@, Tone::Yellow)
    } else if s == "Cancelled"@ {
        ("CANCELLED"@, Tone::Yellow)
    } else if s == "Already running a command"@ {
        ("RUNNING"@, Tone::Yellow)
    } else {
        match v.mode {
            ModeView::Normal => ("NORMAL"@, Tone::Blue),
            ModeView::Search => ("SEARCH"@, Tone::Yellow),
            ModeView::Prompt(_) => ("PROMPT"@, Tone::Magenta),
        }
    }
}

/// The selection is one of the recipes shown, or nothing is shown and it is at the start.
pub open spec fn selection_ok(v: AppView) -> bool {
    v.selected < shown(v) || (shown(v) == 0 && v.selected == 0)
}

/// A key in the normal or search mode that does not quit leaves the selection on one of the
/// recipes shown (or at the start when none is shown).
pub proof fn lemma_key_settles_selection(v: AppView, k: KeyInput)
    requires
        v.mode is Normal || v.mode is Search,
        !(key_view(v, k).1 is Quit),
    ensures
        selection_ok(key_view(v, k).0),
{
}

/// No key moves a selection that is on a recipe shown off the recipes shown.
pub proof fn lemma_key_keeps_selection(v: AppView, k: KeyInput)
    requires
        selection_ok(v),
    ensures
        selection_ok(key_view(v, k).0),
{
}

/// Recording the end of a run keeps the selection on the recipes shown: the output of a run is
/// not searched.
pub proof fn lemma_run_finished_keeps_selection(v: AppView, output: RunOutput)
    requires
        selection_ok(v),
    ensures
        selection_ok(run_finished_view(v, output)),
{
    let w = run_finished_view(v, output);
    if let Some(idx) = v.running {
        if idx < v.recipes.len() {
            assert(w.recipes.len() == v.recipes.len());
            assert forall|i: int| 0 <= i < v.recipes.len() implies haystack(w.recipes[i]) == haystack(
                v.recipes[i],
            ) by {}
            assert(scores_for(w.recipes, w.query) =~= scores_for(v.recipes, v.query));
        }
    }
}

/// After the recipe files are read again, the selection is on the recipes shown.
pub proof fn lemma_reload_keeps_selection(v: AppView, result: Result<Vec<Recipe>, String>)
    requires
        selection_ok(v),
    ensures
        selection_ok(reloaded_view(v, result)),
{
}

impl App {
    #[verifier::type_invariant]
    spec fn consistent(self) -> bool {
        &&& app_ok(self@)
        &&& self.spinner_frame < 4
    }

    /// The interface over `recipes`, in the normal mode with nothing selected but the first.
    pub fn new(recipes: Vec<Recipe>) -> (r: App)
        ensures
            r@ == (AppView {
                recipes: recipes@,
                query: seq![],
                selected: 0,
                status: seq![],
                mode: ModeView::Normal,
                running: None,
                spinner_frame: 0,
            }),
    {
        App {
            recipes,
            query: String::new(),
            selected: 0,
            status: String::new(),
            mode: Mode::Normal,
            running: None,
            spinner_frame: 0,
        }
    }

    /// The recipes.
    pub fn recipes(&self) -> (r: &Vec<Recipe>)
        ensures
            r@ == self@.recipes,
    {
        &self.recipes
    }

    /// The search query.
    pub fn query(&self) -> (r: &str)
        ensures
            r@ == self@.query,
    {
        self.query.as_str()
    }

    /// The position of the selection among the recipes shown.
    pub fn selected(&self) -> (r: usize)
        ensures
            r == self@.selected,
    {
        self.selected
    }

    /// The status line.
    pub fn status(&self) -> (r: &str)
        ensures
            r@ == self@.status,
    {
        self.status.as_str()
    }

    /// The mode; a prompt in it is asking for a placeholder of an existing recipe.
    pub fn mode(&self) -> (r: &Mode)
        ensures
            r@ == self@.mode,
            app_ok(self@),
    {
        proof {
            use_type_invariant(self);
        }
        &self.mode
    }

    /// The recipe whose command is running, if one is.
    pub fn running(&self) -> (r: Option<usize>)
        ensures
            r == self@.running,
    {
        self.running
    }

    /// The frame of the running spinner.
    pub fn spinner_frame(&self) -> (r: usize)
        ensures
            r == self@.spinner_frame,
    {
        self.spinner_frame
    }

    /// The positions of the recipes shown for the query.
    pub fn filtered_indices(&self) -> (r: Vec<usize>)
        ensures
            r@ == filtered(self@.recipes, self@.query),
            forall|k: int| 0 <= k < r@.len() ==> #[trigger] r@[k] < self@.recipes.len(),
    {
        filter_recipes(&self.recipes, self.query.as_str())
    }

    /// The recipe under the selection, among those in `filtered`.
    pub fn selected_recipe_index(&self, filtered: &Vec<usize>) -> (r: Option<usize>)
        ensures
            r == if self@.selected < filtered@.len() {
                Some(filtered@[self@.selected as int])
            } else {
                None
            },
    {
        if self.selected < filtered.len() {
            Some(filtered[self.selected])
        } else {
            None
        }
    }

    /// Moves the selection by `delta`, staying within the recipes shown.
    pub fn move_selection(&mut self, delta: isize)
        ensures
            final(self)@ == move_view(old(self)@, delta as int),
    {
        proof {
            use_type_invariant(&*self);
        }
        let n = self.filtered_indices().len();
        if n == 0 {
            self.selected = 0;
            return;
        }
        let next: i128 = self.selected as i128 + delta as i128;
        if next < 0 {
            self.selected = 0;
        } else if next > (n - 1) as i128 {
            self.selected = n - 1;
        } else {
            self.selected = next as usize;
        }
    }

    /// Brings the selection back within the recipes shown.
    pub fn reset_selection_if_needed(&mut self)
        ensures
            final(self)@ == reset_view(old(self)@),
    {
        proof {
            use_type_invariant(&*self);
        }
        let n = self.filtered_indices().len();
        if n == 0 {
            self.selected = 0;
        } else if self.selected >= n {
            self.selected = n - 1;
        }
    }

    /// Acts on recipe `recipe_idx` with the collected values.
    pub fn execute_action(&mut self, action: Action, recipe_idx: usize, values: StrMap<String>) -> (e:
        Effect)
        requires
            recipe_idx < old(self)@.recipes.len(),
        ensures
            (final(self)@, e@) == execute_view(
                old(self)@,
                action,
                recipe_idx,
                text_values(values@),
            ),
    {
        proof {
            use_type_invariant(&*self);
        }
        let text = self.recipes[recipe_idx].compiled.render(&values);
        match action {
            Action::Copy { quit_after } => {
                Effect::Copy { text, recipe_name: self.recipes[recipe_idx].name.clone(), quit_after }
            },
            Action::Run => {
                self.running = Some(recipe_idx);
                self.spinner_frame = 0;
                self.status = String::new();
                Effect::Run { command: text, recipe_idx }
            },
        }
    }

    /// Starts an action on the selected recipe.
    pub fn start_action(&mut self, action: Action) -> (e: Effect)
        ensures
            (final(self)@, e@) == start_view(old(self)@, action),
    {
        proof {
            use_type_invariant(&*self);
        }
        if action == Action::Run && self.running.is_some() {
            self.status = String::from_str("Already running a command");
            return Effect::Nothing;
        }
        let filtered = self.filtered_indices();
        if self.selected >= filtered.len() {
            self.status = String::from_str("No recipe selected");
            return Effect::Nothing;
        }
        let idx = filtered[self.selected];
        let placeholders = self.recipes[idx].compiled.placeholders();
        proof {
            let names = placeholder_names(self.recipes@[idx as int].compiled@);
            if placeholders.len() == 0 {
                assert(views(placeholders@).to_set() =~= Set::<Seq<char>>::empty());
            } else {
                assert(views(placeholders@).to_set().contains(views(placeholders@)[0]));
            }
            assert((placeholders.len() == 0) == (names == Set::<Seq<char>>::empty()));
        }
        if placeholders.len() == 0 {
            let none: StrMap<String> = StrMap::new();
            assert(text_values(none@) =~= Map::<Seq<char>, Seq<char>>::empty());
            return self.execute_action(action, idx, none);
        }
        let recipe = &self.recipes[idx];
        let stage = if recipe.presets.len() == 0 {
            PromptStage::InputValues
        } else {
            PromptStage::ChoosePreset
        };
        let values: StrMap<String> = StrMap::new();
        assert(views(placeholders@).take(0).to_set() =~= Set::<Seq<char>>::empty());
        assert(text_values(values@).dom() =~= Set::<Seq<char>>::empty());
        let prompt = PromptState {
            action,
            recipe_idx: idx,
            placeholders,
            choices: clone_choices(&recipe.choices),
            current: 0,
            values,
            input: String::new(),
            choice_index: 0,
            presets: clone_strings(&recipe.presets),
            selected_preset: 0,
            stage,
        };
        assert(text_values(values@) =~= Map::<Seq<char>, Seq<char>>::empty());
        self.mode = Mode::Prompt(prompt);
        self.status = String::new();
        Effect::Nothing
    }

    fn handle_prompt_key(&mut self, key: KeyInput) -> (e: Effect)
        requires
            old(self)@.mode is Prompt,
        ensures
            (final(self)@, e@) == key_view(old(self)@, key),
    {
        proof {
            use_type_invariant(&*self);
        }
        let ghost v0 = self@;
        let mut mode = Mode::Normal;
        std::mem::swap(&mut self.mode, &mut mode);
        let mut p = match mode {
            Mode::Prompt(p) => p,
            _ => {
                proof {
                    assert(false);
                }
                return Effect::Nothing;
            },
        };
        let ghost pv = p@;
        assert(self@ == AppView { mode: ModeView::Normal, ..v0 });
        assert(prompt_ok(pv, v0.recipes));
        match p.stage {
            PromptStage::ChoosePreset => {
                match key.code {
                    Key::Esc => {
                        self.status = String::from_str("Cancelled");
                        Effect::Nothing
                    },
                    Key::Up => {
                        if p.selected_preset > 0 {
                            p.selected_preset = p.selected_preset - 1;
                        }
                        self.mode = Mode::Prompt(p);
                        Effect::Nothing
                    },
                    Key::Down => {
                        if p.selected_preset < p.presets.len() {
                            p.selected_preset = p.selected_preset + 1;
                        }
                        self.mode = Mode::Prompt(p);
                        Effect::Nothing
                    },
                    Key::Enter => {
                        if p.selected_preset < p.presets.len() {
                            let values = parse_assignment_values(
                                p.presets[p.selected_preset].as_str(),
                            );
                            assert(views(p.presets@)[p.selected_preset as int]
                                == p.presets@[p.selected_preset as int]@);
                            assert(text_values(values@).dom() =~= values@.dom());
                            match first_missing_name(&p.placeholders, &values) {
                                Some(name) => {
                                    let mut st = String::from_str("Preset missing value for {");
                                    st.append(name.as_str());
                                    st.append("}");
                                    self.mode = Mode::Prompt(p);
                                    self.status = st;
                                    Effect::Nothing
                                },
                                None => {
                                    let action = p.action;
                                    let idx = p.recipe_idx;
                                    self.execute_action(action, idx, values)
                                },
                            }
                        } else {
                            p.stage = PromptStage::InputValues;
                            self.mode = Mode::Prompt(p);
                            Effect::Nothing
                        }
                    },
                    _ => {
                        self.mode = Mode::Prompt(p);
                        Effect::Nothing
                    },
                }
            },
            PromptStage::InputValues => {
                match key.code {
                    Key::Esc => {
                        self.status = String::from_str("Cancelled");
                        Effect::Nothing
                    },
                    Key::Up => {
                        if p.current_choices().is_some() && p.choice_index > 0 {
                            p.choice_index = p.choice_index - 1;
                        }
                        self.mode = Mode::Prompt(p);
                        Effect::Nothing
                    },
                    Key::Down => {
                        let count = match p.current_choices() {
                            Some(c) => c.len(),
                            None => 0,
                        };
                        if count > 0 && p.choice_index < count - 1 {
                            p.choice_index = p.choice_index + 1;
                        }
                        self.mode = Mode::Prompt(p);
                        Effect::Nothing
                    },
                    Key::Backspace => {
                        if p.current_choices().is_none() {
                            pop_char(&mut p.input);
                        }
                        self.mode = Mode::Prompt(p);
                        Effect::Nothing
                    },
                    Key::Enter => {
                        let name = p.placeholders[p.current].clone();
                        let value = match p.current_choices() {
                            Some(c) => c[p.choice_index].clone(),
                            None => p.input.clone(),
                        };
                        let ghost before = p.values@;
                        p.values.insert(name, value);
                        assert(text_values(p.values@) =~= text_values(before).insert(
                            name@,
                            value@,
                        ));
                        assert(p.current < p.placeholders.len());
                        proof {
                            lemma_take_to_set_step(views(p.placeholders@), p.current as int);
                        }
                        if p.advance() {
                            let PromptState { action, recipe_idx, values, .. } = p;
                            self.execute_action(action, recipe_idx, values)
                        } else {
                            self.mode = Mode::Prompt(p);
                            Effect::Nothing
                        }
                    },
                    Key::Char(ch) => {
                        if !key.ctrl && p.current_choices().is_none() {
                            push_char(&mut p.input, ch);
                        }
                        self.mode = Mode::Prompt(p);
                        Effect::Nothing
                    },
                    _ => {
                        self.mode = Mode::Prompt(p);
                        Effect::Nothing
                    },
                }
            },
        }
    }

    fn handle_normal_key(&mut self, key: KeyInput) -> (e: Effect)
        requires
            old(self)@.mode is Normal,
        ensures
            (final(self)@, e@) == key_view(old(self)@, key),
    {
        proof {
            use_type_invariant(&*self);
        }
        if key.ctrl && key.code == Key::Char('c') {
            return Effect::Quit;
        }
        let e = match key.code {
            Key::Char(c) => {
                if c == 'q' {
                    return Effect::Quit;
                } else if c == 'Y' {
                    self.start_action(Action::Copy { quit_after: true })
                } else if c == 'y' {
                    self.start_action(Action::Copy { quit_after: false })
                } else if c == 'r' {
                    Effect::Reload
                } else if c == '/' {
                    self.mode = Mode::Search;
                    self.status = String::new();
                    Effect::Nothing
                } else if c == 'k' {
                    self.move_selection(-1);
                    Effect::Nothing
                } else if c == 'j' {
                    self.move_selection(1);
                    Effect::Nothing
                } else {
                    Effect::Nothing
                }
            },
            Key::Up => {
                self.move_selection(-1);
                Effect::Nothing
            },
            Key::Down => {
                self.move_selection(1);
                Effect::Nothing
            },
            Key::Enter => self.start_action(Action::Run),
            _ => Effect::Nothing,
        };
        self.reset_selection_if_needed();
        e
    }

    fn handle_search_key(&mut self, key: KeyInput) -> (e: Effect)
        requires
            old(self)@.mode is Search,
        ensures
            (final(self)@, e@) == key_view(old(self)@, key),
    {
        proof {
            use_type_invariant(&*self);
        }
        if key.ctrl && key.code == Key::Char('c') {
            return Effect::Quit;
        }
        let e = match key.code {
            Key::Esc => {
                self.mode = Mode::Normal;
                self.status = String::new();
                Effect::Nothing
            },
            Key::Up => {
                self.mode = Mode::Normal;
                self.status = String::new();
                self.move_selection(-1);
                Effect::Nothing
            },
            Key::Down => {
                self.mode = Mode::Normal;
                self.status = String::new();
                self.move_selection(1);
                Effect::Nothing
            },
            Key::Enter => {
                self.mode = Mode::Normal;
                self.status = String::new();
                self.start_action(Action::Run)
            },
            Key::Backspace => {
                let mut q = String::new();
                std::mem::swap(&mut self.query, &mut q);
                pop_char(&mut q);
                self.query = q;
                self.selected = 0;
                Effect::Nothing
            },
            Key::Char(c) => {
                if !key.ctrl {
                    let mut q = String::new();
                    std::mem::swap(&mut self.query, &mut q);
                    push_char(&mut q, c);
                    self.query = q;
                    self.selected = 0;
                }
                Effect::Nothing
            },
            _ => Effect::Nothing,
        };
        self.reset_selection_if_needed();
        e
    }

    /// Answers a key: the new state, and the outside work it asks for.
    pub fn handle_key(&mut self, key: KeyInput) -> (e: Effect)
        ensures
            (final(self)@, e@) == key_view(old(self)@, key),
    {
        match self.mode {
            Mode::Normal => self.handle_normal_key(key),
            Mode::Search => self.handle_search_key(key),
            Mode::Prompt(_) => self.handle_prompt_key(key),
        }
    }

    /// Records the outcome of copying the command of `recipe_name`; returns whether to quit.
    pub fn finish_copy(&mut self, recipe_name: &str, quit_after: bool, result: Result<(), String>) -> (quit: bool)
        ensures
            quit == (result is Ok && quit_after),
            final(self)@ == (AppView { status: copy_status(recipe_name@, result), ..old(self)@ }),
    {
        proof {
            use_type_invariant(&*self);
        }
        match result {
            Ok(()) => {
                let mut st = String::from_str("Copied: ");
                st.append(recipe_name);
                self.status = st;
                quit_after
            },
            Err(err) => {
                let mut st = String::from_str("Clipboard error: ");
                st.append(err.as_str());
                self.status = st;
                false
            },
        }
    }

    /// Records that the running command finished with `output`.
    pub fn finish_run(&mut self, output: RunOutput)
        ensures
            final(self)@ == run_finished_view(old(self)@, output),
    {
        proof {
            use_type_invariant(&*self);
        }
        let idx = match self.running {
            Some(idx) => idx,
            None => {
                return;
            },
        };
        let st = match output.code {
            Some(c) => {
                if c == 0 {
                    String::from_str("Ran successfully")
                } else {
                    let mut t = String::from_str("Command exited with code ");
                    let digits = decimal(c);
                    t.append(digits.as_str());
                    t
                }
            },
            None => String::from_str("Command terminated by signal"),
        };
        self.status = st;
        if idx < self.recipes.len() {
            let ghost before = self@;
            let mut mode = Mode::Normal;
            std::mem::swap(&mut self.mode, &mut mode);
            let mut recipes: Vec<Recipe> = Vec::new();
            std::mem::swap(&mut self.recipes, &mut recipes);
            let ghost old_recipes = recipes@;
            recipes[idx].last_run = Some(output);
            assert(recipes@ == old_recipes.update(
                idx as int,
                Recipe { last_run: Some(output), ..old_recipes[idx as int] },
            ));
            assert forall|j: int| 0 <= j < recipes@.len() implies (#[trigger] recipes@[j]).compiled
                == old_recipes[j].compiled by {}
            self.recipes = recipes;
            self.mode = mode;
            assert(self@ == AppView {
                recipes: old_recipes.update(
                    idx as int,
                    Recipe { last_run: Some(output), ..old_recipes[idx as int] },
                ),
                ..before
            });
        }
        self.running = None;
    }

    /// Records that the running command was lost.
    pub fn run_disconnected(&mut self)
        ensures
            final(self)@ == (AppView {
                status: "Command runner disconnected"@,
                running: None,
                ..old(self)@
            }),
    {
        proof {
            use_type_invariant(&*self);
        }
        self.status = String::from_str("Command runner disconnected");
        self.running = None;
    }

    /// Advances the spinner while a command runs.
    pub fn tick(&mut self)
        ensures
            final(self)@ == if old(self)@.running is Some {
                AppView { spinner_frame: ((old(self)@.spinner_frame + 1) % 4) as usize, ..old(self)@ }
            } else {
                old(self)@
            },
    {
        proof {
            use_type_invariant(&*self);
        }
        if self.running.is_some() {
            self.spinner_frame = (self.spinner_frame + 1) % 4;
        }
    }

    /// Records the outcome of reading the recipe files again (asked for in the normal mode).
    pub fn finish_reload(&mut self, result: Result<Vec<Recipe>, String>)
        requires
            !(old(self)@.mode is Prompt),
        ensures
            final(self)@ == reloaded_view(old(self)@, result),
    {
        proof {
            use_type_invariant(&*self);
        }
        match result {
            Ok(recipes) => {
                self.recipes = recipes;
                self.status = String::from_str("Reloaded recipes");
                self.reset_selection_if_needed();
            },
            Err(err) => {
                let mut st = String::from_str("Reload failed: ");
                st.append(err.as_str());
                self.status = st;
            },
        }
    }

    /// The label and colour of the footer's state box.
    pub fn footer_state(&self) -> (r: (String, Tone))
        ensures
            (r.0@, r.1) == footer_view(self@),
    {
        proof {
            use_type_invariant(self);
        }
        if self.running.is_some() {
            let mut label = String::from_str("RUN ");
            let frame = self.spinner_frame % 4;
            let c = if frame == 0 {
                "|"
            } else if frame == 1 {
                "/"
            } else if frame == 2 {
                "-"
            } else {
                "\\"
            };
            label.append(c);
            return (label, Tone::Cyan);
        }
        let s = self.status.as_str();
        if starts_with_text(s, "Clipboard error:") {
            (String::from_str("COPY ERROR"), Tone::Red)
        } else if starts_with_text(s, "Reload failed:") {
            (String::from_str("RELOAD ERROR"), Tone::Red)
        } else if text_eq(s, "Command terminated by signal") {
            (String::from_str("SIGNAL"), Tone::Red)
        } else if starts_with_text(s, "Command exited with code") {
            (String::from_str("RUN FAILED"), Tone::Red)
        } else if text_eq(s, "Command runner disconnected") {
            (String::from_str("RUN ERROR"), Tone::Red)
        } else if starts_with_text(s, "Copied:") {
            (String::from_str("COPIED!"), Tone::LightGreen)
        } else if text_eq(s, "Reloaded recipes") {
            (String::from_str("RELOADED"), Tone::Cyan)
        } else if text_eq(s, "Ran successfully") {
            (String::from_str("RAN"), Tone::LightGreen)
        } else if text_eq(s, "No recipe selected") {
            (String::from_str("NO RECIPE"), Tone::Yellow)
        } else if text_eq(s, "Cancelled") {
            (String::from_str("CANCELLED"), Tone::Yellow)
        } else if text_eq(s, "Already running a command") {
            (String::from_str("RUNNING"), Tone::Yellow)
        } else {
            match self.mode {
                Mode::Normal => (String::from_str("NORMAL"), Tone::Blue),
                Mode::Search => (String::from_str("SEARCH"), Tone::Yellow),
                Mode::Prompt(_) => (String::from_str("PROMPT"), Tone::Magenta),
            }
        }
    }
}

proof fn lemma_no_missing(names: Seq<Seq<char>>, assigned: Set<Seq<char>>, i: int)
    requires
        0 <= i,
        first_missing(names, assigned, i) is None,
    ensures
        forall|j: int| i <= j < names.len() ==> assigned.contains(#[trigger] names[j]),
    decreases names.len() - i,
{
    if i < names.len() {
        lemma_no_missing(names, assigned, i + 1);
    }
}

/// The effect copies or runs the command of one of `recipes`, rendered with a value for
/// every placeholder it has.
pub open spec fn effect_fills(recipes: Seq<Recipe>, e: EffectView) -> bool {
    match e {
        EffectView::Copy(text, name, _) => exists|i: int, m: Map<Seq<char>, Seq<char>>|
            0 <= i < recipes.len() && name == #[trigger] recipes[i].name@ && placeholder_names(
                recipes[i].compiled@,
            ).subset_of(m.dom()) && text == #[trigger] rendered(recipes[i].compiled@, m),
        EffectView::Run(text, idx) => idx < recipes.len() && exists|m: Map<Seq<char>, Seq<char>>|
            placeholder_names(recipes[idx as int].compiled@).subset_of(m.dom()) && text
                == #[trigger] rendered(recipes[idx as int].compiled@, m),
        _ => true,
    }
}

proof fn lemma_execute_fills(v: AppView, action: Action, idx: usize, m: Map<Seq<char>, Seq<char>>)
    requires
        idx < v.recipes.len(),
        placeholder_names(v.recipes[idx as int].compiled@).subset_of(m.dom()),
    ensures
        effect_fills(v.recipes, execute_view(v, action, idx, m).1),
{
    let text = rendered(v.recipes[idx as int].compiled@, m);
    assert(text == rendered(v.recipes[idx as int].compiled@, m));
    let _ = v.recipes[idx as int].name@;
}

proof fn lemma_start_fills(v: AppView, action: Action)
    ensures
        effect_fills(v.recipes, start_view(v, action).1),
{
    let f = filtered(v.recipes, v.query);
    if !(action == Action::Run && v.running is Some) && v.selected < f.len() {
        let idx = f[v.selected as int];
        lemma_filtered_in_range(v.recipes, v.query, v.selected as int);
        let m = Map::<Seq<char>, Seq<char>>::empty();
        if placeholder_names(v.recipes[idx as int].compiled@) == Set::<Seq<char>>::empty() {
            lemma_execute_fills(v, action, idx, m);
        }
    }
}

proof fn lemma_preset_key_fills(v: AppView, p: PromptView, k: KeyInput)
    requires
        prompt_ok(p, v.recipes),
    ensures
        effect_fills(v.recipes, preset_key_view(v, p, k).1),
{
    if k.code == Key::Enter && p.selected_preset < p.presets.len() {
        let names = placeholder_names(v.recipes[p.recipe_idx as int].compiled@);
        let vals = assignment_values(p.presets[p.selected_preset as int]);
        if first_missing(p.placeholders, vals.dom(), 0) is None {
            lemma_no_missing(p.placeholders, vals.dom(), 0);
            assert forall|x: Seq<char>| names.contains(x) implies vals.dom().contains(x) by {
                assert(p.placeholders.to_set().contains(x));
                let j = choose|j: int| 0 <= j < p.placeholders.len() && p.placeholders[j] == x;
                assert(vals.dom().contains(p.placeholders[j]));
            }
            lemma_execute_fills(AppView { mode: ModeView::Normal, ..v }, p.action, p.recipe_idx, vals);
        }
    }
}

proof fn lemma_value_key_fills(v: AppView, p: PromptView, k: KeyInput)
    requires
        prompt_ok(p, v.recipes),
    ensures
        effect_fills(v.recipes, value_key_view(v, p, k).1),
{
    if k.code == Key::Enter && p.current + 1 >= p.placeholders.len() {
        let names = placeholder_names(v.recipes[p.recipe_idx as int].compiled@);
        let name = p.placeholders[p.current as int];
        let value = match choices_of(p) {
            Some(c) => c[p.choice_index as int],
            None => p.input,
        };
        let values = p.values.insert(name, value);
        lemma_take_to_set_step(p.placeholders, p.current as int);
        assert(p.placeholders.take(p.current + 1) =~= p.placeholders);
        assert(values.dom() =~= names);
        lemma_execute_fills(AppView { mode: ModeView::Normal, ..v }, p.action, p.recipe_idx, values);
    }
}

/// Every command that a key hands out to be copied or run is the command of one of the
/// recipes, rendered with a value for every placeholder it has: no placeholder is left open.
pub proof fn lemma_actions_fill_placeholders(v: AppView, k: KeyInput)
    requires
        app_ok(v),
    ensures
        effect_fills(v.recipes, key_view(v, k).1),
{
    match v.mode {
        ModeView::Normal => {
            lemma_start_fills(v, Action::Run);
            lemma_start_fills(v, Action::Copy { quit_after: true });
            lemma_start_fills(v, Action::Copy { quit_after: false });
        },
        ModeView::Search => {
            lemma_start_fills(leave_search(v), Action::Run);
        },
        ModeView::Prompt(p) => {
            lemma_preset_key_fills(v, p, k);
            lemma_value_key_fills(v, p, k);
        },
    }
}

/// In the preset stage, Up moves the highlight one preset back unless it is on the first, and
/// changes nothing else; Down then Up leaves the state as it was.
pub proof fn lemma_preset_up_down(v: AppView, p: PromptView, ctrl: bool)
    requires
        v.mode == ModeView::Prompt(p),
        p.stage == PromptStage::ChoosePreset,
    ensures
        key_view(v, KeyInput { code: Key::Up, ctrl }) == (
            AppView {
                mode: ModeView::Prompt(
                    PromptView {
                        selected_preset: if p.selected_preset > 0 {
                            (p.selected_preset - 1) as usize
                        } else {
                            0
                        },
                        ..p
                    },
                ),
                ..v
            },
            EffectView::Nothing,
        ),
        p.selected_preset < p.presets.len() <= usize::MAX ==> key_view(
            key_view(v, KeyInput { code: Key::Down, ctrl }).0,
            KeyInput { code: Key::Up, ctrl },
        ) == (v, EffectView::Nothing),
{
    let up = KeyInput { code: Key::Up, ctrl };
    let down = KeyInput { code: Key::Down, ctrl };
    if p.selected_preset < p.presets.len() <= usize::MAX {
        let w = key_view(v, down).0;
        let p2 = PromptView { selected_preset: (p.selected_preset + 1) as usize, ..p };
        assert(w == AppView { mode: ModeView::Prompt(p2), ..v });
        assert(key_view(w, up).0.mode == ModeView::Prompt(PromptView { selected_preset: p.selected_preset, ..p2 }));
        assert(PromptView { selected_preset: p.selected_preset, ..p2 } =~= p);
        assert(key_view(w, up).0 =~= v);
    }
}

/// Enter in the normal or the search mode starts a run of the selected recipe and never a copy:
/// it runs it at once when it has no placeholders, or opens a prompt that will run it; it does
/// nothing else only when a command is already running or nothing is selected. The interface
/// leaves the search mode.
pub proof fn lemma_enter_runs(v: AppView, ctrl: bool)
    requires
        v.mode is Normal || v.mode is Search,
    ensures
        ({
            let r = key_view(v, KeyInput { code: Key::Enter, ctrl });
            let f = filtered(v.recipes, v.query);
            &&& !(r.1 is Copy)
            &&& r.1 is Run || r.1 is Nothing
            &&& !(r.0.mode is Search)
            &&& r.0.recipes == v.recipes
            &&& r.0.query == v.query
            &&& (r.1 matches EffectView::Run(_, idx) ==> v.running is None && v.selected < f.len()
                && idx == f[v.selected as int] && r.0.running == Some(idx))
            &&& (v.running is None && v.selected < f.len() ==> {
                let idx = f[v.selected as int];
                let rec = v.recipes[idx as int];
                if placeholder_names(rec.compiled@) == Set::<Seq<char>>::empty() {
                    r.1 == EffectView::Run(rendered(rec.compiled@, Map::empty()), idx)
                } else {
                    r.1 is Nothing && (r.0.mode matches ModeView::Prompt(pr) && pr.action
                        == Action::Run && pr.recipe_idx == idx)
                }
            })
        }),
{
}

proof fn lemma_take_to_set_step(s: Seq<Seq<char>>, k: int)
    requires
        0 <= k < s.len(),
    ensures
        s.take(k + 1).to_set() == s.take(k).to_set().insert(s[k]),
{
    let t0 = s.take(k);
    let t1 = s.take(k + 1);
    assert forall|x: Seq<char>| #[trigger] t1.contains(x) <==> t0.contains(x) || x == s[k] by {
        if t1.contains(x) {
            let j = choose|j: int| 0 <= j < t1.len() && #[trigger] t1[j] == x;
            if j < k {
                assert(t0[j] == x);
            }
        }
        if t0.contains(x) {
            let j = choose|j: int| 0 <= j < t0.len() && #[trigger] t0[j] == x;
            assert(t1[j] == x);
        }
        if x == s[k] {
            assert(t1[k] == x);
        }
    }
    assert(t1.to_set() =~= t0.to_set().insert(s[k]));
}

/// The first of `placeholders` without a value in `values`.
fn first_missing_name(placeholders: &Vec<String>, values: &StrMap<String>) -> (r: Option<String>)
    ensures
        r is None ==> first_missing(views(placeholders@), values@.dom(), 0) is None,
        r matches Some(n) ==> first_missing(views(placeholders@), values@.dom(), 0) == Some(n@),
{
    let ghost names = views(placeholders@);
    let n = placeholders.len();
    let mut i: usize = 0;
    while i < n
        invariant
            n == placeholders@.len(),
            names == views(placeholders@),
            i <= n,
            first_missing(names, values@.dom(), 0) == first_missing(names, values@.dom(), i as int),
        decreases n - i,
    {
        if !values.contains_key(placeholders[i].as_str()) {
            return Some(placeholders[i].clone());
        }
        i = i + 1;
    }
    None
}

} // verus!
