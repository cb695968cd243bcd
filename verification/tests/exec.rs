use pantry::exec::{find_recipe, resolve_values, FindError, ResolveError};
use pantry::model::{Recipe, Safety};
use pantry::strmap::StrMap;
use pantry::template::Template;

fn recipe(command: &str) -> Recipe {
    Recipe {
        name: "test".to_string(),
        tags: Vec::new(),
        description: String::new(),
        command: command.to_string(),
        interactive: false,
        presets: Vec::new(),
        choices: StrMap::new(),
        safety: Safety::Safe,
        source: "test".to_string(),
        compiled: Template::parse(command),
        last_run: None,
    }
}

fn error_of(result: Result<StrMap<String>, ResolveError>, why: &str) -> ResolveError {
    match result {
        Ok(_) => panic!("{}", why),
        Err(err) => err,
    }
}

#[test]
fn resolves_set_values() {
    let recipe = recipe("deploy {service} {env}");
    let values = resolve_values(
        &recipe,
        &["service=api".to_string(), "env=prod".to_string()],
    )
    .expect("values should resolve");

    assert_eq!(values.get("service"), Some(&"api".to_string()));
    assert_eq!(values.get("env"), Some(&"prod".to_string()));
}

#[test]
fn errors_for_missing_placeholder() {
    let recipe = recipe("deploy {service} {env}");
    let err = error_of(
        resolve_values(&recipe, &["service=api".to_string()]),
        "missing env should error",
    )
    .message();
    assert!(err.contains("Missing values for placeholders"));
    assert!(err.contains("env"));
}

#[test]
fn errors_for_unknown_placeholder_assignment() {
    let recipe = recipe("deploy {service}");
    let err = error_of(
        resolve_values(
            &recipe,
            &["service=api".to_string(), "env=prod".to_string()],
        ),
        "unknown key should error",
    )
    .message();
    assert!(err.contains("Unknown placeholder assignments"));
    assert!(err.contains("env"));
}

#[test]
fn validates_choices() {
    let mut recipe = recipe("deploy {env}");
    recipe.choices.insert(
        "env".to_string(),
        vec!["dev".to_string(), "staging".to_string(), "prod".to_string()],
    );

    let err = error_of(
        resolve_values(&recipe, &["env=qa".to_string()]),
        "invalid choice should error",
    )
    .message();
    assert!(err.contains("Invalid value 'qa'"));
    assert!(err.contains("dev, staging, prod"));
}

#[test]
fn resolve_error_messages_are_exact() {
    let r = recipe("deploy {b} {a} {c}");
    let err = error_of(resolve_values(&r, &["novalue".to_string()]), "no =");
    assert_eq!(err.message(), "Invalid --set value 'novalue'. Expected format key=value");
    let err = error_of(resolve_values(&r, &["  =x".to_string()]), "blank key");
    assert_eq!(err.message(), "Invalid --set value '  =x'. Key cannot be empty");
    let err = error_of(
        resolve_values(&r, &["z=1".to_string(), "y=2".to_string(), "a=3".to_string()]),
        "unknown",
    );
    assert_eq!(err.message(), "Unknown placeholder assignments: y, z");
    let err = error_of(resolve_values(&r, &["a=1".to_string()]), "missing");
    assert_eq!(err.message(), "Missing values for placeholders: b, c");
    let mut r2 = recipe("go {env}");
    r2.choices.insert("env".to_string(), vec!["dev".to_string(), "prod".to_string()]);
    let err = error_of(resolve_values(&r2, &["env=qa".to_string()]), "choice");
    assert_eq!(err.message(), "Invalid value 'qa' for {env}. Allowed: dev, prod");
}

#[test]
fn resolve_takes_the_last_value_and_accepts_empty_choice_lists() {
    let mut r = recipe("go {env} {x}");
    r.choices.insert("x".to_string(), Vec::new());
    r.choices.insert("env".to_string(), vec!["dev".to_string(), "prod".to_string()]);
    let values = resolve_values(
        &r,
        &["env=dev".to_string(), "x=anything".to_string(), "env=prod".to_string()],
    )
    .expect("should resolve");
    assert_eq!(values.get("env"), Some(&"prod".to_string()));
    assert_eq!(values.get("x"), Some(&"anything".to_string()));
    assert_eq!(values.len(), 2);
}

#[test]
fn resolve_with_no_placeholders() {
    let r = recipe("ls -la");
    let values = resolve_values(&r, &[]).expect("nothing to resolve");
    assert!(values.is_empty());
    let err = error_of(resolve_values(&r, &["a=b".to_string()]), "unknown");
    assert_eq!(err.message(), "Unknown placeholder assignments: a");
}

#[test]
fn resolve_reports_the_first_bad_argument() {
    let r = recipe("go {a}");
    let err = error_of(
        resolve_values(&r, &["oops".to_string(), " =1".to_string()]),
        "bad format first",
    );
    assert_eq!(err.message(), "Invalid --set value 'oops'. Expected format key=value");
}

fn named(name: &str, source: &str) -> Recipe {
    let mut r = recipe("echo");
    r.name = name.to_string();
    r.source = source.to_string();
    r
}

#[test]
fn finds_recipes_by_exact_name() {
    let recipes = vec![named("a", "g"), named("b", "g"), named("a", "l"), named("c", "l")];
    let found = find_recipe(&recipes, "b").expect("b exists once");
    assert_eq!(found.name, "b");
    match find_recipe(&recipes, "missing") {
        Err(e @ FindError::NotFound { .. }) => {
            assert_eq!(e.message(), "Recipe 'missing' not found")
        }
        _ => panic!("expected not found"),
    }
    match find_recipe(&recipes, "a") {
        Err(e @ FindError::Ambiguous { .. }) => {
            assert_eq!(e.message(), "Multiple recipes named 'a' found in: g, l")
        }
        _ => panic!("expected ambiguous"),
    }
    assert!(find_recipe(&recipes, "A").is_err());
}
