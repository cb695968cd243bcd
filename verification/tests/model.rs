use pantry::model::{
    default_safety, load_recipes, prepare_recipes, reload_recipes, validate_recipe,
    validate_unique_names, LoadError, Recipe, RecipeFile, RecipeProblem, Safety,
};
use pantry::strmap::StrMap;
use pantry::template::Template;

fn raw(name: &str, command: &str) -> Recipe {
    Recipe {
        name: name.to_string(),
        tags: Vec::new(),
        description: String::new(),
        command: command.to_string(),
        interactive: false,
        presets: Vec::new(),
        choices: StrMap::new(),
        safety: default_safety(),
        source: String::new(),
        compiled: Template::parse(""),
        last_run: None,
    }
}

fn prepared(name: &str, command: &str) -> Recipe {
    let mut r = raw(name, command);
    r.source = "test".to_string();
    r.compiled = Template::parse(command);
    r
}

fn load_error_of(result: Result<Vec<Recipe>, LoadError>, why: &str) -> LoadError {
    match result {
        Ok(_) => panic!("{}", why),
        Err(err) => err,
    }
}

fn problem_of(result: Result<(), RecipeProblem>, why: &str) -> RecipeProblem {
    match result {
        Ok(()) => panic!("{}", why),
        Err(p) => p,
    }
}

fn file(source: &str, recipes: Vec<Recipe>) -> RecipeFile {
    RecipeFile {
        source: source.to_string(),
        recipes: Ok(recipes),
    }
}

#[test]
fn rejects_choices_for_unknown_placeholders() {
    let mut recipe = raw("deploy service", "deploy {service}");
    recipe
        .choices
        .insert("env".to_string(), vec!["prod".to_string()]);

    let err = load_error_of(
        prepare_recipes(vec![recipe], "/tmp/pantry-test.toml"),
        "unknown choice should fail",
    );

    assert!(err
        .message()
        .contains("choices reference unknown placeholders"));
}

#[test]
fn default_safety_is_safe() {
    assert_eq!(default_safety(), Safety::Safe);
    assert_eq!(Safety::Safe.as_str(), "safe");
    assert_eq!(Safety::Confirm.to_string(), "confirm");
}

#[test]
fn validate_accepts_a_plain_recipe() {
    assert!(validate_recipe(&prepared("list", "ls -la")).is_ok());
}

#[test]
fn validate_rejects_blank_name() {
    let p = problem_of(validate_recipe(&prepared("  ", "ls")), "blank name");
    assert!(matches!(p, RecipeProblem::EmptyName));
    assert_eq!(p.message(), "recipe name cannot be empty");
}

#[test]
fn validate_rejects_blank_command() {
    let p = problem_of(validate_recipe(&prepared("list", " \t")), "blank command");
    assert!(matches!(p, RecipeProblem::EmptyCommand));
    assert_eq!(p.message(), "recipe command cannot be empty");
}

#[test]
fn validate_lists_unknown_choices_in_order() {
    let mut r = prepared("deploy", "deploy {service}");
    r.choices.insert("zone".to_string(), vec!["a".to_string()]);
    r.choices.insert("env".to_string(), vec!["prod".to_string()]);
    let p = problem_of(validate_recipe(&r), "unknown choices");
    assert_eq!(
        p.message(),
        "choices reference unknown placeholders: env, zone"
    );
}

#[test]
fn validate_rejects_preset_missing_values() {
    let mut r = prepared("deploy", "deploy {service} {env}");
    r.presets = vec!["service=api".to_string()];
    let p = problem_of(validate_recipe(&r), "preset missing");
    assert_eq!(
        p.message(),
        "preset 'service=api' is missing values for: env"
    );
}

#[test]
fn validate_rejects_preset_unknown_names() {
    let mut r = prepared("deploy", "deploy {service}");
    r.presets = vec!["service=api region=eu".to_string()];
    let p = problem_of(validate_recipe(&r), "preset unknown");
    assert_eq!(
        p.message(),
        "preset 'service=api region=eu' assigns unknown placeholders: region"
    );
}

#[test]
fn validate_accepts_complete_presets_and_choices() {
    let mut r = prepared("deploy", "deploy {service} {env}");
    r.presets = vec!["service=api env=prod".to_string()];
    r.choices.insert("env".to_string(), vec!["dev".to_string(), "prod".to_string()]);
    assert!(validate_recipe(&r).is_ok());
}

#[test]
fn prepare_sets_source_and_template() {
    let out = match prepare_recipes(vec![raw("pull", "git pull {remote}")], "global.toml") {
        Ok(v) => v,
        Err(_) => panic!("recipe should be valid"),
    };
    assert_eq!(out.len(), 1);
    assert_eq!(out[0].source, "global.toml");
    assert_eq!(out[0].compiled.source(), "git pull {remote}");
    assert_eq!(out[0].compiled.placeholders(), vec!["remote".to_string()]);
}

#[test]
fn prepare_reports_the_file_of_an_invalid_recipe() {
    let err = load_error_of(
        prepare_recipes(vec![raw("ok", "ls"), raw("", "ls")], "local.toml"),
        "empty name",
    );
    assert_eq!(
        err.message(),
        "invalid recipe '' in local.toml: recipe name cannot be empty"
    );
}

#[test]
fn unique_names_are_accepted() {
    let recipes = vec![prepared("a", "ls"), prepared("b", "pwd")];
    assert!(validate_unique_names(&recipes).is_ok());
}

#[test]
fn duplicate_names_are_rejected() {
    let mut first = prepared("sync", "git pull");
    first.source = "global.toml".to_string();
    let mut second = prepared("sync", "git fetch");
    second.source = ".pantry.toml".to_string();
    let err = match validate_unique_names(&[prepared("x", "ls"), first, second]) {
        Ok(()) => panic!("duplicate should fail"),
        Err(e) => e,
    };
    assert_eq!(
        err.message(),
        "duplicate recipe name 'sync' found in global.toml and .pantry.toml"
    );
}

#[test]
fn load_joins_global_then_local() {
    let global = file("global.toml", vec![raw("a", "echo {x}"), raw("b", "ls")]);
    let local = file("local.toml", vec![raw("c", "pwd")]);
    let recipes = match load_recipes(global, Some(local)) {
        Ok(v) => v,
        Err(e) => panic!("{}", e.message()),
    };
    let names: Vec<&str> = recipes.iter().map(|r| r.name.as_str()).collect();
    assert_eq!(names, vec!["a", "b", "c"]);
    assert_eq!(recipes[0].source, "global.toml");
    assert_eq!(recipes[2].source, "local.toml");
    assert_eq!(recipes[0].compiled.placeholders(), vec!["x".to_string()]);
}

#[test]
fn load_reports_a_file_error() {
    let global = RecipeFile {
        source: "global.toml".to_string(),
        recipes: Err("failed to parse global.toml: bad".to_string()),
    };
    let err = load_error_of(load_recipes(global, None), "parse error");
    assert_eq!(err.message(), "failed to parse global.toml: bad");
}

#[test]
fn load_reports_local_file_error_after_global_checks() {
    let global = file("global.toml", vec![raw("a", "ls")]);
    let local = RecipeFile {
        source: "local.toml".to_string(),
        recipes: Err("failed to parse local.toml: oops".to_string()),
    };
    let err = load_error_of(load_recipes(global, Some(local)), "local parse error");
    assert_eq!(err.message(), "failed to parse local.toml: oops");
}

#[test]
fn load_rejects_a_name_shared_across_files() {
    let global = file("global.toml", vec![raw("sync", "git pull")]);
    let local = file("local.toml", vec![raw("sync", "git fetch")]);
    let err = load_error_of(load_recipes(global, Some(local)), "duplicate");
    assert_eq!(
        err.message(),
        "duplicate recipe name 'sync' found in global.toml and local.toml"
    );
}

#[test]
fn reload_matches_load() {
    let recipes = match reload_recipes(file("g.toml", vec![raw("a", "ls")]), None) {
        Ok(v) => v,
        Err(e) => panic!("{}", e.message()),
    };
    assert_eq!(recipes.len(), 1);
    assert_eq!(recipes[0].name, "a");
}
