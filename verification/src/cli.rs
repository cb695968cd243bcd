//! The headless commands: what each one prints or runs.
use vstd::prelude::*;
use crate::exec::{
    FindError, ResolveError, find_failure, find_recipe, named, resolution, resolve_values,
};
use crate::model::{Recipe, Safety, choice_lists};
use crate::template::rendered;
use crate::text::{join, join_strings, views};

verus! {

/// The command line: a headless command, or none for the interactive interface.
pub struct Cli {
    pub command: Option<Command>,
}

/// A headless command.
pub enum Command {
    /// List loaded recipes.
    List,
    /// Render a recipe command without running it.
    Render(RenderArgs),
    /// Run a recipe in headless mode.
    Run(RunArgs),
}

/// The arguments of `render`.
pub struct RenderArgs {
    /// Recipe name (exact match).
    pub recipe: String,
    /// Placeholder assignments, such as `env=prod`.
    pub set: Vec<String>,
}

/// The arguments of `run`.
pub struct RunArgs {
    /// Recipe name (exact match).
    pub recipe: String,
    /// Placeholder assignments, such as `env=prod`.
    pub set: Vec<String>,
    /// Allow recipes whose safety is `confirm`.
    pub yes: bool,
}

/// The line that lists a recipe: its name, and its tags in brackets if it has any.
pub open spec fn list_line(r: Recipe) -> Seq<char> {
    if r.tags@.len() == 0 {
        r.name@
    } else {
        r.name@ + " ["@ + join(views(r.tags@), ", "@) + "]"@
    }
}

/// The lines that list recipes.
pub open spec fn list_lines(recipes: Seq<Recipe>) -> Seq<Seq<char>> {
    if recipes.len() == 0 {
        seq!["No recipes found"@]
    } else {
        recipes.map_values(|r: Recipe| list_line(r))
    }
}

/// The lines that the `list` command prints.
pub fn list_recipes(recipes: &[Recipe]) -> (r: Vec<String>)
    ensures
        views(r@) == list_lines(recipes@),
{
    let mut lines: Vec<String> = Vec::new();
    let n = recipes.len();
    if n == 0 {
        lines.push(String::from_str("No recipes found"));
        assert(views(lines@) =~= seq!["No recipes found"@]);
        return lines;
    }
    let mut i: usize = 0;
    while i < n
        invariant
            n == recipes@.len(),
            n > 0,
            i <= n,
            views(lines@) == recipes@.take(i as int).map_values(|r: Recipe| list_line(r)),
        decreases n - i,
    {
        let recipe = &recipes[i];
        let mut line = recipe.name.clone();
        if recipe.tags.len() > 0 {
            line.append(" [");
            let tags = join_strings(&recipe.tags, ", ");
            line.append(tags.as_str());
            line.append("]");
        }
        assert(line@ == list_line(recipes@[i as int]));
        let ghost before = views(lines@);
        lines.push(line);
        assert(views(lines@) =~= before.push(line@));
        i = i + 1;
        assert(recipes@.take(i as int).map_values(|r: Recipe| list_line(r)) =~= recipes@.take(
            i - 1,
        ).map_values(|r: Recipe| list_line(r)).push(list_line(recipes@[i - 1])));
    }
    assert(recipes@.take(n as int) =~= recipes@);
    lines
}

/// What a headless command does when it succeeds.
#[derive(Debug)]
pub enum Outcome {
    /// Print these lines and exit with status 0.
    Print(Vec<String>),
    /// Run this shell command attached to the terminal and exit with its status.
    Execute(String),
}

/// Why a headless command fails.
#[derive(Debug)]
pub enum CliError {
    /// The recipe name does not name exactly one recipe.
    Find(FindError),
    /// The `--set` values do not fit the recipe.
    Resolve(ResolveError),
    /// The recipe needs confirmation and `--yes` was not given.
    NeedsConfirmation { name: String, rendered: String },
}

impl CliError {
    /// Describes the error.
    pub fn message(&self) -> (r: String)
        ensures
            self matches CliError::Find(e) ==> r@ == crate::exec::find_error_message(e@),
            self matches CliError::Resolve(e) ==> r@ == crate::exec::resolve_error_message(e@),
            self is NeedsConfirmation ==> r@
                == "Re-run with --yes to execute this command in headless mode"@,
    {
        match self {
            CliError::Find(e) => e.message(),
            CliError::Resolve(e) => e.message(),
            CliError::NeedsConfirmation { .. } => String::from_str(
                "Re-run with --yes to execute this command in headless mode",
            ),
        }
    }
}

/// `r` is what `plan_command` owes for a recipe lookup and `--set` values: a lookup error
/// unless `name` names one recipe, then a resolve error, and otherwise `ok` applied to that
/// recipe and the rendered command.
pub open spec fn planned(
    recipes: Seq<Recipe>,
    name: Seq<char>,
    sets: Seq<Seq<char>>,
    r: Result<Outcome, CliError>,
    ok: spec_fn(Recipe, Seq<char>, Result<Outcome, CliError>) -> bool,
) -> bool {
    let found = named(recipes, name);
    if found.len() != 1 {
        match r {
            Err(CliError::Find(e)) => e@ == find_failure(recipes, name),
            _ => false,
        }
    } else {
        let rec = found[0];
        match resolution(rec.compiled@, choice_lists(rec.choices@), sets) {
            Err(e) => match r {
                Err(CliError::Resolve(got)) => got@ == e,
                _ => false,
            },
            Ok(m) => ok(rec, rendered(rec.compiled@, m), r),
        }
    }
}

/// `render` prints the rendered command.
pub open spec fn render_ok(rec: Recipe, text: Seq<char>, r: Result<Outcome, CliError>) -> bool {
    match r {
        Ok(Outcome::Print(lines)) => views(lines@) == seq![text],
        _ => false,
    }
}

/// `run` runs the rendered command, unless the recipe needs a confirmation that `yes` does
/// not give.
pub open spec fn run_ok(yes: bool, rec: Recipe, text: Seq<char>, r: Result<Outcome, CliError>) -> bool {
    if rec.safety == Safety::Confirm && !yes {
        match r {
            Err(CliError::NeedsConfirmation { name, rendered }) => name@ == rec.name@ && rendered@
                == text,
            _ => false,
        }
    } else {
        match r {
            Ok(Outcome::Execute(cmd)) => cmd@ == text,
            _ => false,
        }
    }
}

/// `run` of the only recipe with a name, once its `--set` values resolve: a `safe` recipe, or
/// any recipe with `--yes`, is executed with its rendered command; only a `confirm` recipe
/// without `--yes` is refused, and the refusal names it and shows the rendered command.
pub proof fn lemma_run_confirmation(
    recipes: Seq<Recipe>,
    name: Seq<char>,
    sets: Seq<Seq<char>>,
    yes: bool,
    r: Result<Outcome, CliError>,
)
    requires
        named(recipes, name).len() == 1,
        resolution(
            named(recipes, name)[0].compiled@,
            choice_lists(named(recipes, name)[0].choices@),
            sets,
        ) is Ok,
        planned(
            recipes,
            name,
            sets,
            r,
            |rec: Recipe, text: Seq<char>, res: Result<Outcome, CliError>| run_ok(yes, rec, text, res),
        ),
    ensures
        ({
            let rec = named(recipes, name)[0];
            let m = resolution(rec.compiled@, choice_lists(rec.choices@), sets)->Ok_0;
            let text = rendered(rec.compiled@, m);
            &&& (rec.safety == Safety::Safe || yes) ==> (r matches Ok(Outcome::Execute(cmd))
                && cmd@ == text)
            &&& (rec.safety == Safety::Confirm && !yes) ==> (r matches Err(
                CliError::NeedsConfirmation { name: n, rendered: t },
            ) && n@ == rec.name@ && t@ == text)
        }),
{
}

/// What a headless command prints or runs, or why it fails: `list` lists the recipes;
/// `render` and `run` look the recipe up by its exact name, resolve the `--set` values and
/// render the command; `run` refuses a recipe marked `confirm` unless `yes` is given.
pub fn plan_command(command: &Command, recipes: &[Recipe]) -> (r: Result<Outcome, CliError>)
    ensures
        match command {
            Command::List => match r {
                Ok(Outcome::Print(lines)) => views(lines@) == list_lines(recipes@),
                _ => false,
            },
            Command::Render(a) => planned(
                recipes@,
                a.recipe@,
                views(a.set@),
                r,
                |rec: Recipe, text: Seq<char>, res: Result<Outcome, CliError>| render_ok(rec, text, res),
            ),
            Command::Run(a) => planned(
                recipes@,
                a.recipe@,
                views(a.set@),
                r,
                |rec: Recipe, text: Seq<char>, res: Result<Outcome, CliError>| run_ok(a.yes, rec, text, res),
            ),
        },
        r matches Err(CliError::NeedsConfirmation { .. }) ==> command matches Command::Run(a)
            && !a.yes && named(recipes@, a.recipe@).len() == 1 && named(recipes@, a.recipe@)[0].safety
            == Safety::Confirm,
{
    match command {
        Command::List => Ok(Outcome::Print(list_recipes(recipes))),
        Command::Render(args) => {
            let recipe = match find_recipe(recipes, args.recipe.as_str()) {
                Ok(r) => r,
                Err(e) => {
                    return Err(CliError::Find(e));
                },
            };
            let values = match resolve_values(recipe, args.set.as_slice()) {
                Ok(v) => v,
                Err(e) => {
                    return Err(CliError::Resolve(e));
                },
            };
            let text = recipe.compiled.render(&values);
            let mut lines: Vec<String> = Vec::new();
            lines.push(text);
            assert(views(lines@) =~= seq![text@]);
            Ok(Outcome::Print(lines))
        },
        Command::Run(args) => {
            let recipe = match find_recipe(recipes, args.recipe.as_str()) {
                Ok(r) => r,
                Err(e) => {
                    return Err(CliError::Find(e));
                },
            };
            let values = match resolve_values(recipe, args.set.as_slice()) {
                Ok(v) => v,
                Err(e) => {
                    return Err(CliError::Resolve(e));
                },
            };
            let text = recipe.compiled.render(&values);
            if recipe.safety == Safety::Confirm && !args.yes {
                return Err(CliError::NeedsConfirmation { name: recipe.name.clone(), rendered: text });
            }
            Ok(Outcome::Execute(text))
        },
    }
}

} // verus!
