//! Recipes, their validation, and the assembly of the recipe list from recipe files.
use vstd::prelude::*;
use crate::strmap::{StrMap, distinct};
use crate::template::{Template, assignment_values, placeholder_names};
use crate::text::{
    blank, is_blank, join, join_strings, lemma_listing_is_sorted_listing, owned, sorted_listing,
    sorted_without, text_eq, views, clone_strings,
};

verus! {

/// Whether running a recipe needs an explicit confirmation.
#[derive(Debug, Clone, Copy, PartialEq, Eq, Structural)]
pub enum Safety {
    Safe,
    Confirm,
}

impl Safety {
    /// The lowercase name used in recipe files: `safe` or `confirm`.
    pub fn as_str(&self) -> (r: &'static str)
        ensures
            *self == Safety::Safe ==> r@ == "safe"@,
            *self == Safety::Confirm ==> r@ == "confirm"@,
    {
        match self {
            Safety::Safe => "safe",
            Safety::Confirm => "confirm",
        }
    }

    /// The lowercase name, as an owned string.
    pub fn to_string(&self) -> (r: String)
        ensures
            *self == Safety::Safe ==> r@ == "safe"@,
            *self == Safety::Confirm ==> r@ == "confirm"@,
    {
        String::from_str(self.as_str())
    }
}

/// The safety of a recipe whose file does not say.
pub fn default_safety() -> (r: Safety)
    ensures
        r == Safety::Safe,
{
    Safety::Safe
}

/// What a run of a command left behind.
pub struct RunOutput {
    pub command: String,
    pub code: Option<i32>,
    pub stdout: String,
    pub stderr: String,
}

/// A reusable shell command with its metadata.
pub struct Recipe {
    pub name: String,
    pub tags: Vec<String>,
    pub description: String,
    pub command: String,
    pub interactive: bool,
    pub presets: Vec<String>,
    pub choices: StrMap<Vec<String>>,
    pub safety: Safety,
    pub source: String,
    pub compiled: Template,
    pub last_run: Option<RunOutput>,
}

/// The allowed values of each placeholder that has a list of choices, as texts.
pub open spec fn choice_lists(m: Map<Seq<char>, Vec<String>>) -> Map<Seq<char>, Seq<Seq<char>>> {
    m.map_values(|v: Vec<String>| views(v@))
}

/// A copy of the choices of a recipe.
pub fn clone_choices(c: &StrMap<Vec<String>>) -> (r: StrMap<Vec<String>>)
    ensures
        choice_lists(r@) == choice_lists(c@),
{
    let keys = c.keys();
    let mut out: StrMap<Vec<String>> = StrMap::new();
    let n = keys.len();
    let mut i: usize = 0;
    while i < n
        invariant
            n == keys@.len(),
            views(keys@) == c.key_list(),
            distinct(c.key_list()),
            forall|k: Seq<char>| #[trigger] c@.contains_key(k) <==> c.key_list().contains(k),
            i <= n,
            forall|k: Seq<char>| #[trigger]
                out@.contains_key(k) <==> views(keys@).take(i as int).contains(k),
            forall|k: Seq<char>|
                out@.contains_key(k) ==> views((#[trigger] out@[k])@) == views(c@[k]@),
        decreases n - i,
    {
        let k = &keys[i];
        assert(c.key_list().contains(k@)) by {
            assert(c.key_list()[i as int] == k@);
        }
        let v = c.get(k.as_str()).unwrap();
        let copy = clone_strings(v);
        let ghost before = out@;
        out.insert(k.clone(), copy);
        proof {
            let t0 = views(keys@).take(i as int);
            let t1 = views(keys@).take(i + 1);
            assert forall|x: Seq<char>| #[trigger] t1.contains(x) <==> t0.contains(x) || x == k@ by {
                if t1.contains(x) {
                    let j = choose|j: int| 0 <= j < t1.len() && #[trigger] t1[j] == x;
                    if j < i {
                        assert(t0[j] == x);
                    }
                }
                if t0.contains(x) {
                    let j = choose|j: int| 0 <= j < t0.len() && #[trigger] t0[j] == x;
                    assert(t1[j] == x);
                }
                if x == k@ {
                    assert(t1[i as int] == x);
                }
            }
        }
        i = i + 1;
    }
    proof {
        assert(views(keys@).take(n as int) =~= views(keys@));
        assert(choice_lists(out@) =~= choice_lists(c@));
    }
    out
}

/// What is wrong with a recipe, in terms of texts.
pub enum ProblemView {
    EmptyName,
    EmptyCommand,
    UnknownChoices(Seq<Seq<char>>),
    PresetMissing(Seq<char>, Seq<Seq<char>>),
    PresetUnknown(Seq<char>, Seq<Seq<char>>),
}

/// What is wrong with a recipe.
#[derive(Debug)]
pub enum RecipeProblem {
    /// The name is empty or whitespace.
    EmptyName,
    /// The command is empty or whitespace.
    EmptyCommand,
    /// `choices` has keys that are no placeholder of the command (in increasing order).
    UnknownChoices(Vec<String>),
    /// A preset leaves these placeholders without a value (in increasing order).
    PresetMissing { preset: String, missing: Vec<String> },
    /// A preset assigns these names, which are no placeholder (in increasing order).
    PresetUnknown { preset: String, unknown: Vec<String> },
}

impl View for RecipeProblem {
    type V = ProblemView;

    open spec fn view(&self) -> ProblemView {
        match self {
            RecipeProblem::EmptyName => ProblemView::EmptyName,
            RecipeProblem::EmptyCommand => ProblemView::EmptyCommand,
            RecipeProblem::UnknownChoices(v) => ProblemView::UnknownChoices(views(v@)),
            RecipeProblem::PresetMissing { preset, missing } => ProblemView::PresetMissing(
                preset@,
                views(missing@),
            ),
            RecipeProblem::PresetUnknown { preset, unknown } => ProblemView::PresetUnknown(
                preset@,
                views(unknown@),
            ),
        }
    }
}

/// The problem of one preset, given the placeholder names of the command: first the
/// placeholders it leaves without a value, then the names it assigns that are no placeholder.
pub open spec fn preset_problem(preset: Seq<char>, names: Set<Seq<char>>) -> Option<ProblemView> {
    let assigned = assignment_values(preset).dom();
    let missing = names.difference(assigned);
    let unknown = assigned.difference(names);
    if missing != Set::<Seq<char>>::empty() {
        Some(ProblemView::PresetMissing(preset, sorted_listing(missing)))
    } else if unknown != Set::<Seq<char>>::empty() {
        Some(ProblemView::PresetUnknown(preset, sorted_listing(unknown)))
    } else {
        None
    }
}

/// The problem of the first preset, from position `i` on, that has one.
pub open spec fn presets_problem(presets: Seq<Seq<char>>, names: Set<Seq<char>>, i: int) -> Option<
    ProblemView,
>
    decreases presets.len() - i,
{
    if i < 0 || i >= presets.len() {
        None
    } else {
        match preset_problem(presets[i], names) {
            Some(p) => Some(p),
            None => presets_problem(presets, names, i + 1),
        }
    }
}

proof fn lemma_presets_fine(presets: Seq<Seq<char>>, names: Set<Seq<char>>, k: int)
    requires
        0 <= k,
        presets_problem(presets, names, k) is None,
    ensures
        forall|i: int|
            k <= i < presets.len() ==> assignment_values(#[trigger] presets[i]).dom() == names,
    decreases presets.len() - k,
{
    if k < presets.len() {
        lemma_presets_fine(presets, names, k + 1);
        let assigned = assignment_values(presets[k]).dom();
        assert forall|x: Seq<char>| names.contains(x) implies assigned.contains(x) by {
            assert(!names.difference(assigned).contains(x));
        }
        assert forall|x: Seq<char>| assigned.contains(x) implies names.contains(x) by {
            assert(!assigned.difference(names).contains(x));
        }
        assert(assigned =~= names);
    }
}

/// The first problem of a recipe with the given name, command, template text, choice keys and
/// presets, checked in this order: an empty name, an empty command, choices for unknown
/// placeholders, then the presets in order.
pub open spec fn problem_of(
    name: Seq<char>,
    command: Seq<char>,
    template: Seq<char>,
    choice_keys: Set<Seq<char>>,
    presets: Seq<Seq<char>>,
) -> Option<ProblemView> {
    let names = placeholder_names(template);
    let unknown = choice_keys.difference(names);
    if is_blank(name) {
        Some(ProblemView::EmptyName)
    } else if is_blank(command) {
        Some(ProblemView::EmptyCommand)
    } else if unknown != Set::<Seq<char>>::empty() {
        Some(ProblemView::UnknownChoices(sorted_listing(unknown)))
    } else {
        presets_problem(presets, names, 0)
    }
}

/// The first problem of a recipe, checked against its compiled template.
pub open spec fn recipe_problem(recipe: Recipe) -> Option<ProblemView> {
    problem_of(
        recipe.name@,
        recipe.command@,
        recipe.compiled@,
        recipe.choices@.dom(),
        views(recipe.presets@),
    )
}

/// The first problem of a recipe once its template is compiled from its command.
pub open spec fn fresh_problem(recipe: Recipe) -> Option<ProblemView> {
    problem_of(
        recipe.name@,
        recipe.command@,
        recipe.command@,
        recipe.choices@.dom(),
        views(recipe.presets@),
    )
}

/// Checks a recipe whose template was compiled from its command.
pub fn validate_recipe(recipe: &Recipe) -> (r: Result<(), RecipeProblem>)
    ensures
        r is Ok <==> recipe_problem(*recipe) is None,
        r matches Err(p) ==> recipe_problem(*recipe) == Some(p@),
        r is Ok ==> recipe.choices@.dom().subset_of(placeholder_names(recipe.compiled@)),
        r is Ok ==> forall|i: int|
            0 <= i < recipe.presets@.len() ==> assignment_values(
                (#[trigger] recipe.presets@[i])@,
            ).dom() == placeholder_names(recipe.compiled@),
{
    if blank(recipe.name.as_str()) {
        return Err(RecipeProblem::EmptyName);
    }
    if blank(recipe.command.as_str()) {
        return Err(RecipeProblem::EmptyCommand);
    }
    let placeholders = recipe.compiled.placeholders();
    let ghost names = placeholder_names(recipe.compiled@);
    let keys = recipe.choices.keys();
    let unknown_choices = sorted_without(keys, &placeholders);
    proof {
        assert(views(keys@).to_set() =~= recipe.choices@.dom());
        assert(views(placeholders@).to_set() == names);
        lemma_listing_is_sorted_listing(
            views(unknown_choices@),
            recipe.choices@.dom().difference(names),
        );
    }
    if unknown_choices.len() > 0 {
        proof {
            assert(views(unknown_choices@).to_set().contains(views(unknown_choices@)[0]));
        }
        return Err(RecipeProblem::UnknownChoices(unknown_choices));
    }
    assert(recipe.choices@.dom().difference(names) =~= Set::<Seq<char>>::empty());
    let n = recipe.presets.len();
    let mut i: usize = 0;
    while i < n
        invariant
            n == recipe.presets.len(),
            i <= n,
            views(placeholders@).to_set() == names,
            names == placeholder_names(recipe.compiled@),
            !is_blank(recipe.name@),
            !is_blank(recipe.command@),
            recipe.choices@.dom().difference(names) == Set::<Seq<char>>::empty(),
            presets_problem(views(recipe.presets@), names, 0) == presets_problem(
                views(recipe.presets@),
                names,
                i as int,
            ),
        decreases n - i,
    {
        let preset = &recipe.presets[i];
        assert(views(recipe.presets@)[i as int] == preset@);
        let values = crate::template::parse_assignment_values(preset.as_str());
        let value_keys = values.keys();
        let ghost assigned = assignment_values(preset@).dom();
        proof {
            assert(views(value_keys@).to_set() =~= assigned);
        }
        let missing = sorted_without(&placeholders, value_keys);
        proof {
            lemma_listing_is_sorted_listing(views(missing@), names.difference(assigned));
        }
        if missing.len() > 0 {
            proof {
                assert(views(missing@).to_set().contains(views(missing@)[0]));
            }
            return Err(RecipeProblem::PresetMissing { preset: preset.clone(), missing });
        }
        assert(names.difference(assigned) =~= Set::<Seq<char>>::empty());
        let unknown = sorted_without(value_keys, &placeholders);
        proof {
            lemma_listing_is_sorted_listing(views(unknown@), assigned.difference(names));
        }
        if unknown.len() > 0 {
            proof {
                assert(views(unknown@).to_set().contains(views(unknown@)[0]));
            }
            return Err(RecipeProblem::PresetUnknown { preset: preset.clone(), unknown });
        }
        assert(assigned.difference(names) =~= Set::<Seq<char>>::empty());
        i = i + 1;
    }
    proof {
        lemma_presets_fine(views(recipe.presets@), names, 0);
        assert forall|i: int| 0 <= i < recipe.presets@.len() implies assignment_values(
            (#[trigger] recipe.presets@[i])@,
        ).dom() == names by {
            assert(views(recipe.presets@)[i] == recipe.presets@[i]@);
        }
        assert forall|x: Seq<char>| recipe.choices@.dom().contains(x) implies names.contains(x) by {
            assert(!recipe.choices@.dom().difference(names).contains(x));
        }
    }
    Ok(())
}

/// The text of a recipe problem.
pub open spec fn problem_message(p: ProblemView) -> Seq<char> {
    match p {
        ProblemView::EmptyName => "recipe name cannot be empty"@,
        ProblemView::EmptyCommand => "recipe command cannot be empty"@,
        ProblemView::UnknownChoices(l) => "choices reference unknown placeholders: "@ + join(
            l,
            ", "@,
        ),
        ProblemView::PresetMissing(preset, l) => "preset '"@ + preset + "' is missing values for: "@
            + join(l, ", "@),
        ProblemView::PresetUnknown(preset, l) => "preset '"@ + preset
            + "' assigns unknown placeholders: "@ + join(l, ", "@),
    }
}

impl RecipeProblem {
    /// Describes the problem.
    pub fn message(&self) -> (r: String)
        ensures
            r@ == problem_message(self@),
    {
        match self {
            RecipeProblem::EmptyName => String::from_str("recipe name cannot be empty"),
            RecipeProblem::EmptyCommand => String::from_str("recipe command cannot be empty"),
            RecipeProblem::UnknownChoices(l) => {
                let mut s = String::from_str("choices reference unknown placeholders: ");
                let list = join_strings(l, ", ");
                s.append(list.as_str());
                s
            },
            RecipeProblem::PresetMissing { preset, missing } => {
                let mut s = String::from_str("preset '");
                s.append(preset.as_str());
                s.append("' is missing values for: ");
                let list = join_strings(missing, ", ");
                s.append(list.as_str());
                s
            },
            RecipeProblem::PresetUnknown { preset, unknown } => {
                let mut s = String::from_str("preset '");
                s.append(preset.as_str());
                s.append("' assigns unknown placeholders: ");
                let list = join_strings(unknown, ", ");
                s.append(list.as_str());
                s
            },
        }
    }
}

/// Why the recipe list could not be assembled, in terms of texts.
pub enum LoadErrorView {
    File(Seq<char>),
    InvalidRecipe(Seq<char>, Seq<char>, ProblemView),
    DuplicateName(Seq<char>, Seq<char>, Seq<char>),
}

/// Why the recipe list could not be assembled.
#[derive(Debug)]
pub enum LoadError {
    /// A recipe file could not be read or parsed; the text says why.
    File(String),
    /// A recipe of the file `source` is invalid.
    InvalidRecipe { name: String, source: String, problem: RecipeProblem },
    /// Two recipes share a name.
    DuplicateName { name: String, first_source: String, second_source: String },
}

impl View for LoadError {
    type V = LoadErrorView;

    open spec fn view(&self) -> LoadErrorView {
        match self {
            LoadError::File(m) => LoadErrorView::File(m@),
            LoadError::InvalidRecipe { name, source, problem } => LoadErrorView::InvalidRecipe(
                name@,
                source@,
                problem@,
            ),
            LoadError::DuplicateName { name, first_source, second_source } =>
                LoadErrorView::DuplicateName(name@, first_source@, second_source@),
        }
    }
}

/// The text of a load error.
pub open spec fn load_error_message(e: LoadErrorView) -> Seq<char> {
    match e {
        LoadErrorView::File(m) => m,
        LoadErrorView::InvalidRecipe(name, source, p) => "invalid recipe '"@ + name + "' in "@
            + source + ": "@ + problem_message(p),
        LoadErrorView::DuplicateName(name, first, second) => "duplicate recipe name '"@ + name
            + "' found in "@ + first + " and "@ + second,
    }
}

impl LoadError {
    /// Describes the error.
    pub fn message(&self) -> (r: String)
        ensures
            r@ == load_error_message(self@),
    {
        match self {
            LoadError::File(m) => m.clone(),
            LoadError::InvalidRecipe { name, source, problem } => {
                let mut s = String::from_str("invalid recipe '");
                s.append(name.as_str());
                s.append("' in ");
                s.append(source.as_str());
                s.append(": ");
                let detail = problem.message();
                s.append(detail.as_str());
                s
            },
            LoadError::DuplicateName { name, first_source, second_source } => {
                let mut s = String::from_str("duplicate recipe name '");
                s.append(name.as_str());
                s.append("' found in ");
                s.append(first_source.as_str());
                s.append(" and ");
                s.append(second_source.as_str());
                s
            },
        }
    }
}

/// The error for an invalid recipe: its name, its file and its problem.
pub fn invalid_recipe(recipe: &Recipe, problem: RecipeProblem) -> (r: LoadError)
    ensures
        r@ == LoadErrorView::InvalidRecipe(recipe.name@, recipe.source@, problem@),
{
    LoadError::InvalidRecipe {
        name: recipe.name.clone(),
        source: recipe.source.clone(),
        problem,
    }
}

/// The text at position `j` repeats one at an earlier position.
pub open spec fn repeats_at(names: Seq<Seq<char>>, j: int) -> bool {
    0 <= j < names.len() && exists|a: int| 0 <= a < j && names[a] == names[j]
}

/// The first position whose text repeats an earlier one.
pub open spec fn first_repeat(names: Seq<Seq<char>>) -> Option<int> {
    if exists|j: int| repeats_at(names, j) {
        Some(choose|j: int| repeats_at(names, j) && forall|k: int| 0 <= k < j ==> !repeats_at(names, k))
    } else {
        None
    }
}

/// The error for the first repeated name: the name, the file of its first occurrence, the
/// file of the repeat.
pub open spec fn duplicate_error(names: Seq<Seq<char>>, sources: Seq<Seq<char>>) -> Option<
    LoadErrorView,
> {
    match first_repeat(names) {
        Some(j) => {
            let i = choose|i: int| 0 <= i < j && names[i] == names[j];
            Some(LoadErrorView::DuplicateName(names[j], sources[i], sources[j]))
        },
        None => None,
    }
}

proof fn lemma_first_repeat(names: Seq<Seq<char>>, sources: Seq<Seq<char>>, j: int, a: int)
    requires
        0 <= a < j < names.len(),
        names.len() == sources.len(),
        forall|k: int| 0 <= k < j ==> !repeats_at(names, k),
        names[a] == names[j],
        forall|b: int| 0 <= b < a ==> names[b] != names[j],
    ensures
        duplicate_error(names, sources) == Some(
            LoadErrorView::DuplicateName(names[j], sources[a], sources[j]),
        ),
{
    assert(repeats_at(names, j));
    let w = choose|w: int| repeats_at(names, w) && forall|k: int| 0 <= k < w ==> !repeats_at(names, k);
    if w < j {
    } else if w > j {
        assert(!repeats_at(names, j));
    }
    assert(first_repeat(names) == Some(j));
    let i = choose|i: int| 0 <= i < j && names[i] == names[j];
    if i != a {
        if i < a {
            assert(names[i] != names[j]);
        } else {
            assert(repeats_at(names, i));
        }
    }
}

/// The names of recipes.
pub open spec fn recipe_names(recipes: Seq<Recipe>) -> Seq<Seq<char>> {
    recipes.map_values(|r: Recipe| r.name@)
}

/// The files of recipes.
pub open spec fn recipe_sources(recipes: Seq<Recipe>) -> Seq<Seq<char>> {
    recipes.map_values(|r: Recipe| r.source@)
}

/// Checks that no two recipes share a name.
#[verifier::rlimit(60)]
pub fn validate_unique_names(recipes: &[Recipe]) -> (r: Result<(), LoadError>)
    ensures
        r is Ok <==> distinct(recipe_names(recipes@)),
        r is Ok <==> duplicate_error(recipe_names(recipes@), recipe_sources(recipes@)) is None,
        r matches Err(e) ==> Some(e@) == duplicate_error(
            recipe_names(recipes@),
            recipe_sources(recipes@),
        ),
{
    let ghost names = recipe_names(recipes@);
    let n = recipes.len();
    let mut j: usize = 0;
    while j < n
        invariant
            n == recipes@.len(),
            names == recipe_names(recipes@),
            j <= n,
            forall|k: int| 0 <= k < j ==> !repeats_at(names, k),
        decreases n - j,
    {
        let mut a: usize = 0;
        while a < j
            invariant
                n == recipes@.len(),
                names == recipe_names(recipes@),
                a <= j < n,
                forall|k: int| 0 <= k < j ==> !repeats_at(names, k),
                forall|b: int| 0 <= b < a ==> names[b] != names[j as int],
            decreases j - a,
        {
            if text_eq(recipes[a].name.as_str(), recipes[j].name.as_str()) {
                proof {
                    lemma_first_repeat(names, recipe_sources(recipes@), j as int, a as int);
                }
                return Err(LoadError::DuplicateName {
                    name: recipes[j].name.clone(),
                    first_source: recipes[a].source.clone(),
                    second_source: recipes[j].source.clone(),
                });
            }
            assert(names[a as int] == recipes@[a as int].name@);
            assert(names[j as int] == recipes@[j as int].name@);
            a = a + 1;
        }
        j = j + 1;
    }
    proof {
        assert forall|x: int, y: int|
            0 <= x < names.len() && 0 <= y < names.len() && x != y implies names[x] != names[y] by {
            if x < y {
                assert(!repeats_at(names, y));
            } else {
                assert(!repeats_at(names, x));
            }
        }
    }
    Ok(())
}

/// `after` is `before` with its file set to `source` and its template compiled from its
/// command, everything else unchanged.
pub open spec fn prepared(before: Recipe, after: Recipe, source: Seq<char>) -> bool {
    &&& after.name == before.name
    &&& after.tags == before.tags
    &&& after.description == before.description
    &&& after.command == before.command
    &&& after.interactive == before.interactive
    &&& after.presets == before.presets
    &&& after.choices == before.choices
    &&& after.safety == before.safety
    &&& after.last_run == before.last_run
    &&& after.source@ == source
    &&& after.compiled@ == before.command@
}

/// The error for the first invalid recipe of a file, from position `i` on.
pub open spec fn file_error(recipes: Seq<Recipe>, source: Seq<char>, i: int) -> Option<
    LoadErrorView,
>
    decreases recipes.len() - i,
{
    if i < 0 || i >= recipes.len() {
        None
    } else {
        match fresh_problem(recipes[i]) {
            Some(p) => Some(LoadErrorView::InvalidRecipe(recipes[i].name@, source, p)),
            None => file_error(recipes, source, i + 1),
        }
    }
}

/// Gives the recipes of the file `source` their file and their compiled template, and checks
/// them in order.
#[verifier::rlimit(60)]
pub fn prepare_recipes(recipes: Vec<Recipe>, source: &str) -> (r: Result<Vec<Recipe>, LoadError>)
    ensures
        r is Ok <==> file_error(recipes@, source@, 0) is None,
        r matches Err(e) ==> Some(e@) == file_error(recipes@, source@, 0),
        r matches Ok(v) ==> v@.len() == recipes@.len() && forall|i: int|
            0 <= i < v@.len() ==> prepared(recipes@[i], #[trigger] v@[i], source@),
{
    let ghost orig = recipes@;
    let mut rest = recipes;
    let mut out: Vec<Recipe> = Vec::new();
    let n = rest.len();
    let mut k: usize = 0;
    while k < n
        invariant
            n == orig.len(),
            orig == recipes@,
            k <= n,
            rest@ == orig.subrange(k as int, n as int),
            out@.len() == k,
            forall|i: int| 0 <= i < k ==> prepared(orig[i], #[trigger] out@[i], source@),
            file_error(orig, source@, 0) == file_error(orig, source@, k as int),
        decreases n - k,
    {
        let mut recipe = rest.remove(0);
        assert(recipe == orig[k as int]);
        recipe.source = owned(source);
        recipe.compiled = Template::parse(recipe.command.as_str());
        assert(prepared(orig[k as int], recipe, source@));
        proof {
            lemma_prepared_problem(orig[k as int], recipe, source@);
        }
        match validate_recipe(&recipe) {
            Ok(()) => {},
            Err(p) => {
                let e = invalid_recipe(&recipe, p);
                assert(file_error(orig, source@, k as int) == Some(e@));
                return Err(e);
            },
        }
        out.push(recipe);
        k = k + 1;
        assert(rest@ =~= orig.subrange(k as int, n as int));
    }
    Ok(out)
}

proof fn lemma_prepared_problem(before: Recipe, after: Recipe, source: Seq<char>)
    requires
        prepared(before, after, source),
    ensures
        recipe_problem(after) == fresh_problem(before),
{
}

/// A recipe file: its path, and its recipes or why they could not be read.
pub struct RecipeFile {
    pub source: String,
    pub recipes: Result<Vec<Recipe>, String>,
}

/// The error of assembling the recipes of the global file and of an optional local file, in
/// the order in which the checks run: the global file, then the local one, then the names.
pub open spec fn load_error(global: RecipeFile, local: Option<RecipeFile>) -> Option<
    LoadErrorView,
> {
    match global.recipes {
        Err(m) => Some(LoadErrorView::File(m@)),
        Ok(g) => match file_error(g@, global.source@, 0) {
            Some(e) => Some(e),
            None => match local {
                None => duplicate_error(recipe_names(g@), repeated(global.source@, g@.len())),
                Some(l) => match l.recipes {
                    Err(m) => Some(LoadErrorView::File(m@)),
                    Ok(lr) => match file_error(lr@, l.source@, 0) {
                        Some(e) => Some(e),
                        None => duplicate_error(
                            recipe_names(g@) + recipe_names(lr@),
                            repeated(global.source@, g@.len()) + repeated(
                                l.source@,
                                lr@.len(),
                            ),
                        ),
                    },
                },
            },
        },
    }
}

/// `n` copies of a text.
pub open spec fn repeated(s: Seq<char>, n: nat) -> Seq<Seq<char>> {
    Seq::new(n, |i: int| s)
}

/// `v` holds the prepared recipes of the global file followed by those of the local file.
pub open spec fn assembled(global: RecipeFile, local: Option<RecipeFile>, v: Seq<Recipe>) -> bool {
    match global.recipes {
        Err(_) => false,
        Ok(g) => {
            let lr = match local {
                Some(l) => match l.recipes {
                    Ok(lr) => lr@,
                    Err(_) => Seq::empty(),
                },
                None => Seq::empty(),
            };
            let lsource = match local {
                Some(l) => l.source@,
                None => Seq::empty(),
            };
            &&& v.len() == g@.len() + lr.len()
            &&& forall|i: int| 0 <= i < g@.len() ==> prepared(g@[i], #[trigger] v[i], global.source@)
            &&& forall|i: int|
                g@.len() <= i < v.len() ==> prepared(lr[i - g@.len()], #[trigger] v[i], lsource)
        },
    }
}

/// Assembles the recipe list from the global recipe file and the optional local one: each
/// recipe gets its file and its compiled template and is checked, and no two recipes may
/// share a name.
#[verifier::rlimit(100)]
#[verifier::spinoff_prover]
pub fn load_recipes(global: RecipeFile, local: Option<RecipeFile>) -> (r: Result<
    Vec<Recipe>,
    LoadError,
>)
    ensures
        r is Ok <==> load_error(global, local) is None,
        r matches Err(e) ==> Some(e@) == load_error(global, local),
        r matches Ok(v) ==> assembled(global, local, v@),
        r matches Ok(v) ==> distinct(recipe_names(v@)),
{
    let RecipeFile { source: gsource, recipes: gparsed } = global;
    let g = match gparsed {
        Err(m) => {
            return Err(LoadError::File(m));
        },
        Ok(g) => g,
    };
    let ghost graw = g@;
    let gprep = match prepare_recipes(g, gsource.as_str()) {
        Err(e) => {
            return Err(e);
        },
        Ok(v) => v,
    };
    proof {
        lemma_prepared_names(graw, gprep@, gsource@);
    }
    match local {
        None => {
            let checked = validate_unique_names(gprep.as_slice());
            match checked {
                Err(e) => Err(e),
                Ok(()) => {
                    proof {
                        lemma_assembled(global, local, gprep@, gprep@, Seq::empty());
                    }
                    Ok(gprep)
                },
            }
        },
        Some(l) => {
            let RecipeFile { source: lsource, recipes: lparsed } = l;
            let lr = match lparsed {
                Err(m) => {
                    return Err(LoadError::File(m));
                },
                Ok(lr) => lr,
            };
            let ghost lraw = lr@;
            let mut lprep = match prepare_recipes(lr, lsource.as_str()) {
                Err(e) => {
                    return Err(e);
                },
                Ok(v) => v,
            };
            proof {
                lemma_prepared_names(lraw, lprep@, lsource@);
            }
            let ghost lp = lprep@;
            let mut all = gprep;
            all.append(&mut lprep);
            proof {
                assert(all@ =~= gprep@ + lp);
                assert(recipe_names(all@) =~= recipe_names(gprep@) + recipe_names(lp));
                assert(recipe_sources(all@) =~= recipe_sources(gprep@) + recipe_sources(lp));
            }
            let checked = validate_unique_names(all.as_slice());
            match checked {
                Err(e) => Err(e),
                Ok(()) => {
                    proof {
                        lemma_assembled(global, local, all@, gprep@, lp);
                    }
                    Ok(all)
                },
            }
        },
    }
}

proof fn lemma_assembled(
    global: RecipeFile,
    local: Option<RecipeFile>,
    v: Seq<Recipe>,
    gv: Seq<Recipe>,
    lv: Seq<Recipe>,
)
    requires
        global.recipes is Ok,
        gv.len() == global.recipes->Ok_0@.len(),
        forall|i: int|
            0 <= i < gv.len() ==> prepared(
                global.recipes->Ok_0@[i],
                #[trigger] gv[i],
                global.source@,
            ),
        local is None ==> lv.len() == 0,
        local matches Some(l) ==> {
            &&& l.recipes is Ok
            &&& lv.len() == l.recipes->Ok_0@.len()
            &&& forall|i: int|
                0 <= i < lv.len() ==> prepared(l.recipes->Ok_0@[i], #[trigger] lv[i], l.source@)
        },
        v == gv + lv,
    ensures
        assembled(global, local, v),
{
    let g = global.recipes->Ok_0@;
    assert forall|i: int| 0 <= i < g.len() implies prepared(g[i], #[trigger] v[i], global.source@) by {
        assert(v[i] == gv[i]);
    }
    match local {
        None => {},
        Some(l) => {
            let lr = l.recipes->Ok_0@;
            assert forall|i: int| g.len() <= i < v.len() implies prepared(
                lr[i - g.len()],
                #[trigger] v[i],
                l.source@,
            ) by {
                assert(v[i] == lv[i - g.len()]);
            }
        },
    }
}

proof fn lemma_prepared_names(raw: Seq<Recipe>, prep: Seq<Recipe>, source: Seq<char>)
    requires
        prep.len() == raw.len(),
        forall|i: int| 0 <= i < prep.len() ==> prepared(raw[i], #[trigger] prep[i], source),
    ensures
        recipe_names(prep) == recipe_names(raw),
        recipe_sources(prep) == repeated(source, raw.len()),
{
    assert forall|i: int| 0 <= i < prep.len() implies recipe_names(prep)[i] == recipe_names(raw)[i] by {
        assert(prepared(raw[i], prep[i], source));
    }
    assert(recipe_names(prep) =~= recipe_names(raw));
    assert forall|i: int| 0 <= i < prep.len() implies recipe_sources(prep)[i] == repeated(source, raw.len())[i] by {
        assert(prepared(raw[i], prep[i], source));
    }
    assert(recipe_sources(prep) =~= repeated(source, raw.len()));
}

/// Assembles the recipe list again, as `load_recipes` does.
pub fn reload_recipes(global: RecipeFile, local: Option<RecipeFile>) -> (r: Result<
    Vec<Recipe>,
    LoadError,
>)
    ensures
        r is Ok <==> load_error(global, local) is None,
        r matches Err(e) ==> Some(e@) == load_error(global, local),
        r matches Ok(v) ==> assembled(global, local, v@),
        r matches Ok(v) ==> distinct(recipe_names(v@)),
{
    load_recipes(global, local)
}

} // verus!
