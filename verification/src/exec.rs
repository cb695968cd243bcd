//! Finding a recipe by name and resolving the values of its placeholders.
use vstd::prelude::*;
use crate::model::{Recipe, choice_lists, recipe_names};
use crate::strmap::distinct;
use crate::strmap::{StrMap, text_values};
use crate::template::{lemma_names_from_finite, placeholder_list, placeholder_names};
use crate::text::{
    blank, contains_text, is_blank, join, join_strings, lemma_listing_exists,
    lemma_listing_is_sorted_listing,
    sorted_listing, sorted_without, split_once_at, split_once_char, text_eq, views, clone_strings,
};

verus! {

/// The recipes named `name`, in order.
pub open spec fn named(recipes: Seq<Recipe>, name: Seq<char>) -> Seq<Recipe> {
    recipes.filter(|r: Recipe| r.name@ == name)
}

proof fn lemma_named_prefix(recipes: Seq<Recipe>, i: int, k: int)
    requires
        distinct(recipe_names(recipes)),
        0 <= i < recipes.len(),
        0 <= k <= recipes.len(),
    ensures
        recipes.take(k).filter(|r: Recipe| r.name@ == recipes[i].name@) == if k > i {
            seq![recipes[i]]
        } else {
            Seq::<Recipe>::empty()
        },
    decreases k,
{
    reveal_with_fuel(Seq::<_>::filter, 1);
    let pred = |r: Recipe| r.name@ == recipes[i].name@;
    if k == 0 {
        assert(recipes.take(0) =~= Seq::<Recipe>::empty());
    } else {
        lemma_named_prefix(recipes, i, k - 1);
        assert(recipes.take(k).drop_last() =~= recipes.take(k - 1));
        assert(recipes.take(k).last() == recipes[k - 1]);
        if k - 1 != i {
            assert(recipe_names(recipes)[k - 1] != recipe_names(recipes)[i]);
        }
    }
}

/// In a list of recipes with distinct names, each recipe is the only one with its name, so
/// looking it up by name finds it.
pub proof fn lemma_distinct_names_find(recipes: Seq<Recipe>, i: int)
    requires
        distinct(recipe_names(recipes)),
        0 <= i < recipes.len(),
    ensures
        named(recipes, recipes[i].name@) == seq![recipes[i]],
{
    lemma_named_prefix(recipes, i, recipes.len() as int);
    assert(recipes.take(recipes.len() as int) =~= recipes);
}

/// Why no single recipe was found, in terms of texts.
pub enum FindErrorView {
    NotFound(Seq<char>),
    Ambiguous(Seq<char>, Seq<Seq<char>>),
}

/// Why no single recipe was found.
#[derive(Debug)]
pub enum FindError {
    /// No recipe has the name.
    NotFound { name: String },
    /// Several recipes have the name; these are their files, in order.
    Ambiguous { name: String, sources: Vec<String> },
}

impl View for FindError {
    type V = FindErrorView;

    open spec fn view(&self) -> FindErrorView {
        match self {
            FindError::NotFound { name } => FindErrorView::NotFound(name@),
            FindError::Ambiguous { name, sources } => FindErrorView::Ambiguous(
                name@,
                views(sources@),
            ),
        }
    }
}

/// The text of a find error.
pub open spec fn find_error_message(e: FindErrorView) -> Seq<char> {
    match e {
        FindErrorView::NotFound(name) => "Recipe '"@ + name + "' not found"@,
        FindErrorView::Ambiguous(name, sources) => "Multiple recipes named '"@ + name
            + "' found in: "@ + join(sources, ", "@),
    }
}

impl FindError {
    /// Describes the error.
    pub fn message(&self) -> (r: String)
        ensures
            r@ == find_error_message(self@),
    {
        match self {
            FindError::NotFound { name } => {
                let mut s = String::from_str("Recipe '");
                s.append(name.as_str());
                s.append("' not found");
                s
            },
            FindError::Ambiguous { name, sources } => {
                let mut s = String::from_str("Multiple recipes named '");
                s.append(name.as_str());
                s.append("' found in: ");
                let list = join_strings(sources, ", ");
                s.append(list.as_str());
                s
            },
        }
    }
}

/// Why looking up `name` fails when it does not name exactly one recipe.
pub open spec fn find_failure(recipes: Seq<Recipe>, name: Seq<char>) -> FindErrorView {
    if named(recipes, name).len() == 0 {
        FindErrorView::NotFound(name)
    } else {
        FindErrorView::Ambiguous(name, named(recipes, name).map_values(|r: Recipe| r.source@))
    }
}

/// The recipe named exactly `name`; it is an error when there is none or more than one.
pub fn find_recipe<'a>(recipes: &'a [Recipe], name: &str) -> (r: Result<&'a Recipe, FindError>)
    ensures
        r is Ok <==> named(recipes@, name@).len() == 1,
        r matches Ok(rec) ==> *rec == named(recipes@, name@)[0],
        r matches Err(e) ==> e@ == find_failure(recipes@, name@),
{
    let ghost pred = |r: Recipe| r.name@ == name@;
    let n = recipes.len();
    let mut hits: Vec<usize> = Vec::new();
    let mut i: usize = 0;
    let ghost mut sofar: Seq<Recipe> = Seq::empty();
    assert(recipes@.take(0) =~= Seq::<Recipe>::empty());
    while i < n
        invariant
            n == recipes@.len(),
            i <= n,
            pred == (|r: Recipe| r.name@ == name@),
            sofar == recipes@.take(i as int).filter(pred),
            hits@.len() == sofar.len(),
            forall|k: int| 0 <= k < hits@.len() ==> #[trigger] hits@[k] < n,
            forall|k: int| 0 <= k < hits@.len() ==> recipes@[#[trigger] hits@[k] as int] == sofar[k],
        decreases n - i,
    {
        proof {
            reveal_with_fuel(Seq::<_>::filter, 1);
            assert(recipes@.take(i + 1).drop_last() =~= recipes@.take(i as int));
            assert(recipes@.take(i + 1).last() == recipes@[i as int]);
        }
        if text_eq(recipes[i].name.as_str(), name) {
            proof {
                sofar = sofar.push(recipes@[i as int]);
            }
            hits.push(i);
        }
        i = i + 1;
    }
    assert(recipes@.take(n as int) =~= recipes@);
    let ghost found = named(recipes@, name@);
    assert(found == sofar);
    if hits.len() == 1 {
        return Ok(&recipes[hits[0]]);
    }
    if hits.len() == 0 {
        return Err(FindError::NotFound { name: String::from_str(name) });
    }
    let mut sources: Vec<String> = Vec::new();
    let m = hits.len();
    let mut k: usize = 0;
    while k < m
        invariant
            m == hits@.len(),
            m == found.len(),
            n == recipes@.len(),
            k <= m,
            forall|t: int| 0 <= t < m ==> #[trigger] hits@[t] < n,
            forall|t: int| 0 <= t < m ==> recipes@[#[trigger] hits@[t] as int] == found[t],
            views(sources@) == found.map_values(|r: Recipe| r.source@).take(k as int),
        decreases m - k,
    {
        let src = recipes[hits[k]].source.clone();
        let ghost before = views(sources@);
        sources.push(src);
        assert(views(sources@) =~= before.push(src@));
        k = k + 1;
        assert(views(sources@) =~= found.map_values(|r: Recipe| r.source@).take(k as int));
    }
    assert(found.map_values(|r: Recipe| r.source@).take(m as int) =~= found.map_values(
        |r: Recipe| r.source@,
    ));
    Err(FindError::Ambiguous { name: String::from_str(name), sources })
}

/// Why placeholder values could not be resolved, in terms of texts.
pub enum ResolveErrorView {
    BadFormat(Seq<char>),
    EmptyKey(Seq<char>),
    Unknown(Seq<Seq<char>>),
    Missing(Seq<Seq<char>>),
    NotAllowed(Seq<char>, Seq<char>, Seq<Seq<char>>),
}

/// Why placeholder values could not be resolved.
#[derive(Debug)]
pub enum ResolveError {
    /// A `--set` argument has no `=`.
    BadFormat { set: String },
    /// A `--set` argument has an empty or whitespace key.
    EmptyKey { set: String },
    /// Assigned names that are no placeholder, in increasing order.
    Unknown { keys: Vec<String> },
    /// Placeholders left without a value, in increasing order.
    Missing { names: Vec<String> },
    /// A value outside the choices of its placeholder.
    NotAllowed { value: String, placeholder: String, allowed: Vec<String> },
}

impl View for ResolveError {
    type V = ResolveErrorView;

    open spec fn view(&self) -> ResolveErrorView {
        match self {
            ResolveError::BadFormat { set } => ResolveErrorView::BadFormat(set@),
            ResolveError::EmptyKey { set } => ResolveErrorView::EmptyKey(set@),
            ResolveError::Unknown { keys } => ResolveErrorView::Unknown(views(keys@)),
            ResolveError::Missing { names } => ResolveErrorView::Missing(views(names@)),
            ResolveError::NotAllowed { value, placeholder, allowed } =>
                ResolveErrorView::NotAllowed(value@, placeholder@, views(allowed@)),
        }
    }
}

/// The text of a resolve error.
pub open spec fn resolve_error_message(e: ResolveErrorView) -> Seq<char> {
    match e {
        ResolveErrorView::BadFormat(set) => "Invalid --set value '"@ + set
            + "'. Expected format key=value"@,
        ResolveErrorView::EmptyKey(set) => "Invalid --set value '"@ + set
            + "'. Key cannot be empty"@,
        ResolveErrorView::Unknown(keys) => "Unknown placeholder assignments: "@ + join(
            keys,
            ", "@,
        ),
        ResolveErrorView::Missing(names) => "Missing values for placeholders: "@ + join(
            names,
            ", "@,
        ),
        ResolveErrorView::NotAllowed(value, placeholder, allowed) => "Invalid value '"@ + value
            + "' for {"@ + placeholder + "}. Allowed: "@ + join(allowed, ", "@),
    }
}

impl ResolveError {
    /// Describes the error.
    pub fn message(&self) -> (r: String)
        ensures
            r@ == resolve_error_message(self@),
    {
        match self {
            ResolveError::BadFormat { set } => {
                let mut s = String::from_str("Invalid --set value '");
                s.append(set.as_str());
                s.append("'. Expected format key=value");
                s
            },
            ResolveError::EmptyKey { set } => {
                let mut s = String::from_str("Invalid --set value '");
                s.append(set.as_str());
                s.append("'. Key cannot be empty");
                s
            },
            ResolveError::Unknown { keys } => {
                let mut s = String::from_str("Unknown placeholder assignments: ");
                let list = join_strings(keys, ", ");
                s.append(list.as_str());
                s
            },
            ResolveError::Missing { names } => {
                let mut s = String::from_str("Missing values for placeholders: ");
                let list = join_strings(names, ", ");
                s.append(list.as_str());
                s
            },
            ResolveError::NotAllowed { value, placeholder, allowed } => {
                let mut s = String::from_str("Invalid value '");
                s.append(value.as_str());
                s.append("' for {");
                s.append(placeholder.as_str());
                s.append("}. Allowed: ");
                let list = join_strings(allowed, ", ");
                s.append(list.as_str());
                s
            },
        }
    }
}

/// The values that a list of `key=value` arguments assigns, in order (a later one overrides
/// an earlier one); the first argument without `=`, or with an empty or whitespace key, is an
/// error.
pub open spec fn set_assignments(sets: Seq<Seq<char>>) -> Result<
    Map<Seq<char>, Seq<char>>,
    ResolveErrorView,
>
    decreases sets.len(),
{
    if sets.len() == 0 {
        Ok(Map::empty())
    } else {
        match set_assignments(sets.drop_last()) {
            Err(e) => Err(e),
            Ok(m) => match split_once_at(sets.last(), '=') {
                None => Err(ResolveErrorView::BadFormat(sets.last())),
                Some(kv) => if is_blank(kv.0) {
                    Err(ResolveErrorView::EmptyKey(sets.last()))
                } else {
                    Ok(m.insert(kv.0, kv.1))
                },
            },
        }
    }
}

/// The first placeholder of `list`, from position `i` on, whose value is not among its
/// (non-empty) choices.
pub open spec fn choice_violation(
    list: Seq<Seq<char>>,
    i: int,
    choices: Map<Seq<char>, Seq<Seq<char>>>,
    values: Map<Seq<char>, Seq<char>>,
) -> Option<ResolveErrorView>
    decreases list.len() - i,
{
    if i < 0 || i >= list.len() {
        None
    } else if choices.contains_key(list[i]) && choices[list[i]].len() > 0 && !choices[list[i]].contains(
        values[list[i]],
    ) {
        Some(ResolveErrorView::NotAllowed(values[list[i]], list[i], choices[list[i]]))
    } else {
        choice_violation(list, i + 1, choices, values)
    }
}

/// The outcome of resolving `sets` for a command template with the given choices: first the
/// arguments are read, then assignments to unknown names are refused, then missing
/// placeholders, then values outside the choices.
pub open spec fn resolution(
    template: Seq<char>,
    choices: Map<Seq<char>, Seq<Seq<char>>>,
    sets: Seq<Seq<char>>,
) -> Result<Map<Seq<char>, Seq<char>>, ResolveErrorView> {
    match set_assignments(sets) {
        Err(e) => Err(e),
        Ok(m) => {
            let names = placeholder_names(template);
            let unknown = m.dom().difference(names);
            let missing = names.difference(m.dom());
            if unknown != Set::<Seq<char>>::empty() {
                Err(ResolveErrorView::Unknown(sorted_listing(unknown)))
            } else if missing != Set::<Seq<char>>::empty() {
                Err(ResolveErrorView::Missing(sorted_listing(missing)))
            } else {
                match choice_violation(placeholder_list(template), 0, choices, m) {
                    Some(e) => Err(e),
                    None => Ok(m),
                }
            }
        },
    }
}

proof fn lemma_no_violation(
    list: Seq<Seq<char>>,
    i: int,
    choices: Map<Seq<char>, Seq<Seq<char>>>,
    values: Map<Seq<char>, Seq<char>>,
)
    requires
        0 <= i <= list.len(),
        choice_violation(list, i, choices, values) is None,
    ensures
        forall|k: int|
            i <= k < list.len() && choices.contains_key(list[k]) && choices[list[k]].len() > 0
                ==> choices[list[k]].contains(#[trigger] values[list[k]]),
    decreases list.len() - i,
{
    if i < list.len() {
        lemma_no_violation(list, i + 1, choices, values);
    }
}

proof fn lemma_violation_none(
    list: Seq<Seq<char>>,
    i: int,
    choices: Map<Seq<char>, Seq<Seq<char>>>,
    values: Map<Seq<char>, Seq<char>>,
)
    requires
        0 <= i <= list.len(),
        forall|k: int|
            i <= k < list.len() && choices.contains_key(list[k]) && choices[list[k]].len() > 0
                ==> choices[list[k]].contains(#[trigger] values[list[k]]),
    ensures
        choice_violation(list, i, choices, values) is None,
    decreases list.len() - i,
{
    if i < list.len() {
        lemma_violation_none(list, i + 1, choices, values);
    }
}

/// Resolving succeeds exactly when the arguments are well formed, assign exactly the
/// placeholders of the command, and give each placeholder that has a non-empty list of
/// choices one of those choices (any of them); the values are then those the arguments
/// assign.
pub proof fn lemma_resolution_ok(
    template: Seq<char>,
    choices: Map<Seq<char>, Seq<Seq<char>>>,
    sets: Seq<Seq<char>>,
)
    ensures
        resolution(template, choices, sets) is Ok <==> (set_assignments(sets) matches Ok(m) && m.dom()
            == placeholder_names(template) && forall|p: Seq<char>|
            #![trigger choices[p]]
            m.contains_key(p) && choices.contains_key(p) && choices[p].len() > 0
                ==> choices[p].contains(m[p])),
        resolution(template, choices, sets) matches Ok(r) ==> set_assignments(sets) == Ok::<
            Map<Seq<char>, Seq<char>>,
            ResolveErrorView,
        >(r),
{
    let names = placeholder_names(template);
    let list = placeholder_list(template);
    lemma_names_from_finite(template, 0);
    lemma_listing_exists(names);
    assert(list.to_set() == names);
    match set_assignments(sets) {
        Err(_) => {},
        Ok(m) => {
            let unknown = m.dom().difference(names);
            let missing = names.difference(m.dom());
            let good = forall|p: Seq<char>|
                #![trigger choices[p]]
                m.contains_key(p) && choices.contains_key(p) && choices[p].len() > 0
                    ==> choices[p].contains(m[p]);
            if m.dom() == names && good {
                assert(unknown =~= Set::<Seq<char>>::empty());
                assert(missing =~= Set::<Seq<char>>::empty());
                assert forall|k: int|
                    0 <= k < list.len() && choices.contains_key(list[k]) && choices[list[k]].len()
                        > 0 implies choices[list[k]].contains(#[trigger] m[list[k]]) by {
                    assert(list.to_set().contains(list[k]));
                    assert(m.contains_key(list[k]));
                    let _ = choices[list[k]];
                }
                lemma_violation_none(list, 0, choices, m);
            }
            if resolution(template, choices, sets) is Ok {
                assert forall|p: Seq<char>| m.dom().contains(p) <==> names.contains(p) by {
                    if m.dom().contains(p) && !names.contains(p) {
                        assert(unknown.contains(p));
                    }
                    if names.contains(p) && !m.dom().contains(p) {
                        assert(missing.contains(p));
                    }
                }
                assert(m.dom() =~= names);
                lemma_no_violation(list, 0, choices, m);
                assert forall|p: Seq<char>|
                    #![trigger choices[p]]
                    m.contains_key(p) && choices.contains_key(p) && choices[p].len() > 0
                        implies choices[p].contains(m[p]) by {
                    assert(list.to_set().contains(p));
                    let k = choose|k: int| 0 <= k < list.len() && list[k] == p;
                    let _ = m[list[k]];
                }
            }
        },
    }
}

/// The values of the placeholders of `recipe`, read from `key=value` arguments.
pub fn resolve_values(recipe: &Recipe, set_args: &[String]) -> (r: Result<
    StrMap<String>,
    ResolveError,
>)
    ensures
        r matches Ok(v) ==> resolution(
            recipe.compiled@,
            choice_lists(recipe.choices@),
            views(set_args@),
        ) == Ok::<Map<Seq<char>, Seq<char>>, ResolveErrorView>(text_values(v@)),
        r matches Err(e) ==> resolution(
            recipe.compiled@,
            choice_lists(recipe.choices@),
            views(set_args@),
        ) == Err::<Map<Seq<char>, Seq<char>>, ResolveErrorView>(e@),
        r matches Ok(v) ==> v@.dom() == placeholder_names(recipe.compiled@),
        r matches Ok(v) ==> forall|p: Seq<char>|
            #![trigger recipe.choices@[p]]
            v@.contains_key(p) && recipe.choices@.contains_key(p) && recipe.choices@[p].len() > 0
                ==> views(
                recipe.choices@[p]@,
            ).contains(v@[p]@),
{
    let ghost sets = views(set_args@);
    let mut values: StrMap<String> = StrMap::new();
    let n = set_args.len();
    let mut i: usize = 0;
    assert(sets.take(0) =~= Seq::<Seq<char>>::empty());
    assert(text_values(values@) =~= Map::<Seq<char>, Seq<char>>::empty());
    while i < n
        invariant
            n == set_args@.len(),
            sets == views(set_args@),
            i <= n,
            set_assignments(sets.take(i as int)) == Ok::<
                Map<Seq<char>, Seq<char>>,
                ResolveErrorView,
            >(text_values(values@)),
        decreases n - i,
    {
        let set = &set_args[i];
        assert(sets.take(i + 1).drop_last() =~= sets.take(i as int));
        assert(sets.take(i + 1).last() == set@);
        match split_once_char(set.as_str(), '=') {
            None => {
                assert(sets.take(n as int) =~= sets) by {
                    lemma_prefix_error(sets, i as int + 1);
                }
                proof {
                    lemma_prefix_error(sets, i as int + 1);
                }
                return Err(ResolveError::BadFormat { set: set.clone() });
            },
            Some(kv) => {
                let (key, value) = kv;
                if blank(key.as_str()) {
                    proof {
                        lemma_prefix_error(sets, i as int + 1);
                    }
                    return Err(ResolveError::EmptyKey { set: set.clone() });
                }
                let ghost before = values@;
                values.insert(key, value);
                assert(text_values(values@) =~= text_values(before).insert(key@, value@));
            },
        }
        i = i + 1;
    }
    assert(sets.take(n as int) =~= sets);
    let ghost m = text_values(values@);
    let placeholders = recipe.compiled.placeholders();
    let ghost names = placeholder_names(recipe.compiled@);
    let keys = values.keys();
    proof {
        assert(views(keys@).to_set() =~= m.dom());
    }
    let unknown = sorted_without(keys, &placeholders);
    proof {
        lemma_listing_is_sorted_listing(views(unknown@), m.dom().difference(names));
    }
    if unknown.len() > 0 {
        proof {
            assert(views(unknown@).to_set().contains(views(unknown@)[0]));
        }
        return Err(ResolveError::Unknown { keys: unknown });
    }
    assert(m.dom().difference(names) =~= Set::<Seq<char>>::empty());
    let missing = sorted_without(&placeholders, keys);
    proof {
        lemma_listing_is_sorted_listing(views(missing@), names.difference(m.dom()));
    }
    if missing.len() > 0 {
        proof {
            assert(views(missing@).to_set().contains(views(missing@)[0]));
        }
        return Err(ResolveError::Missing { names: missing });
    }
    assert(names.difference(m.dom()) =~= Set::<Seq<char>>::empty());
    assert forall|x: Seq<char>| names.contains(x) implies m.dom().contains(x) by {
        assert(!names.difference(m.dom()).contains(x));
    }
    assert forall|x: Seq<char>| m.dom().contains(x) implies names.contains(x) by {
        assert(!m.dom().difference(names).contains(x));
    }
    assert(m.dom() =~= names);
    let ghost list = placeholder_list(recipe.compiled@);
    let ghost choices = choice_lists(recipe.choices@);
    assert(resolution(recipe.compiled@, choices, sets) == match choice_violation(
        list,
        0,
        choices,
        m,
    ) {
        Some(e) => Err(e),
        None => Ok::<Map<Seq<char>, Seq<char>>, ResolveErrorView>(m),
    });
    let np = placeholders.len();
    let mut k: usize = 0;
    while k < np
        invariant
            np == placeholders@.len(),
            views(placeholders@) == list,
            list.to_set() == names,
            m == text_values(values@),
            m.dom() == names,
            choices == choice_lists(recipe.choices@),
            k <= np,
            choice_violation(list, 0, choices, m) == choice_violation(list, k as int, choices, m),
            sets == views(set_args@),
            resolution(recipe.compiled@, choices, sets) == match choice_violation(
                list,
                0,
                choices,
                m,
            ) {
                Some(e) => Err(e),
                None => Ok::<Map<Seq<char>, Seq<char>>, ResolveErrorView>(m),
            },
        decreases np - k,
    {
        let p = &placeholders[k];
        assert(list[k as int] == p@);
        match recipe.choices.get(p.as_str()) {
            None => {},
            Some(allowed) => {
                if allowed.len() > 0 {
                    assert(list.to_set().contains(p@));
                    let value = values.get(p.as_str()).unwrap();
                    assert(choices[p@] == views(allowed@));
                    assert(m[p@] == value@);
                    if !contains_text(allowed, value.as_str()) {
                        return Err(
                            ResolveError::NotAllowed {
                                value: value.clone(),
                                placeholder: p.clone(),
                                allowed: clone_strings(allowed),
                            },
                        );
                    }
                }
            },
        }
        k = k + 1;
    }
    proof {
        lemma_no_violation(list, 0, choices, m);
        assert forall|p: Seq<char>|
            #![trigger recipe.choices@[p]]
            values@.contains_key(p) && recipe.choices@.contains_key(p) && recipe.choices@[p].len()
                > 0 implies views(
                recipe.choices@[p]@,
            ).contains(values@[p]@) by {
            assert(m.dom().contains(p));
            assert(list.to_set().contains(p));
            let idx = choose|idx: int| 0 <= idx < list.len() && list[idx] == p;
            assert(choices[list[idx]] == views(recipe.choices@[p]@));
            assert(m[p] == values@[p]@);
        }
    }
    Ok(values)
}

/// Once reading the arguments fails, it fails the same way for every longer list.
proof fn lemma_prefix_error(sets: Seq<Seq<char>>, i: int)
    requires
        0 < i <= sets.len(),
        set_assignments(sets.take(i)) is Err,
    ensures
        set_assignments(sets) == set_assignments(sets.take(i)),
    decreases sets.len() - i,
{
    if i < sets.len() {
        assert(sets.take(i + 1).drop_last() =~= sets.take(i));
        lemma_prefix_error(sets, i + 1);
    } else {
        assert(sets.take(i) =~= sets);
    }
}

} // verus!
