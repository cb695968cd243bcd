use pantry::cli::{list_recipes, plan_command, CliError, Command, Outcome, RenderArgs, RunArgs};
use pantry::model::{Recipe, Safety};
use pantry::strmap::StrMap;
use pantry::template::Template;

fn recipe(name: &str, tags: &[&str], command: &str, safety: Safety) -> Recipe {
    Recipe {
        name: name.to_string(),
        tags: tags.iter().map(|t| t.to_string()).collect(),
        description: String::new(),
        command: command.to_string(),
        interactive: false,
        presets: Vec::new(),
        choices: StrMap::new(),
        safety,
        source: "test".to_string(),
        compiled: Template::parse(command),
        last_run: None,
    }
}

fn book() -> Vec<Recipe> {
    vec![
        recipe("pull", &["git", "sync"], "git pull {remote} {branch}", Safety::Safe),
        recipe("deploy", &[], "deploy --env {env}", Safety::Confirm),
        recipe("list", &[], "ls -la", Safety::Safe),
    ]
}

fn sets(items: &[&str]) -> Vec<String> {
    items.iter().map(|s| s.to_string()).collect()
}

fn render(name: &str, set: &[&str]) -> Command {
    Command::Render(RenderArgs { recipe: name.to_string(), set: sets(set) })
}

fn run(name: &str, set: &[&str], yes: bool) -> Command {
    Command::Run(RunArgs { recipe: name.to_string(), set: sets(set), yes })
}

#[test]
fn list_prints_names_and_tags() {
    assert_eq!(
        list_recipes(&book()),
        vec!["pull [git, sync]".to_string(), "deploy".to_string(), "list".to_string()]
    );
    match plan_command(&Command::List, &book()) {
        Ok(Outcome::Print(lines)) => assert_eq!(lines.len(), 3),
        other => panic!("unexpected {:?}", other),
    }
}

#[test]
fn list_of_nothing_says_so() {
    assert_eq!(list_recipes(&[]), vec!["No recipes found".to_string()]);
}

#[test]
fn render_prints_the_rendered_command() {
    match plan_command(&render("pull", &["remote=origin", "branch=main"]), &book()) {
        Ok(Outcome::Print(lines)) => assert_eq!(lines, vec!["git pull origin main".to_string()]),
        other => panic!("unexpected {:?}", other),
    }
}

#[test]
fn render_reports_an_unknown_recipe() {
    match plan_command(&render("push", &[]), &book()) {
        Err(e @ CliError::Find(_)) => assert_eq!(e.message(), "Recipe 'push' not found"),
        other => panic!("unexpected {:?}", other),
    }
}

#[test]
fn render_reports_missing_values() {
    match plan_command(&render("pull", &["remote=origin"]), &book()) {
        Err(e @ CliError::Resolve(_)) => {
            assert!(e.message().contains("Missing values for placeholders"));
            assert!(e.message().contains("branch"));
        }
        other => panic!("unexpected {:?}", other),
    }
}

#[test]
fn run_executes_a_safe_recipe() {
    match plan_command(&run("list", &[], false), &book()) {
        Ok(Outcome::Execute(cmd)) => assert_eq!(cmd, "ls -la"),
        other => panic!("unexpected {:?}", other),
    }
}

#[test]
fn run_needs_yes_for_a_confirm_recipe() {
    match plan_command(&run("deploy", &["env=prod"], false), &book()) {
        Err(e @ CliError::NeedsConfirmation { .. }) => {
            if let CliError::NeedsConfirmation { name, rendered } = &e {
                assert_eq!(name, "deploy");
                assert_eq!(rendered, "deploy --env prod");
            }
            assert_eq!(
                e.message(),
                "Re-run with --yes to execute this command in headless mode"
            );
        }
        other => panic!("unexpected {:?}", other),
    }
    match plan_command(&run("deploy", &["env=prod"], true), &book()) {
        Ok(Outcome::Execute(cmd)) => assert_eq!(cmd, "deploy --env prod"),
        other => panic!("unexpected {:?}", other),
    }
}

#[test]
fn run_reports_an_ambiguous_name() {
    let mut recipes = book();
    recipes.push(recipe("list", &[], "ls", Safety::Safe));
    match plan_command(&run("list", &[], true), &recipes) {
        Err(e @ CliError::Find(_)) => assert!(e.message().contains("list")),
        other => panic!("unexpected {:?}", other),
    }
}
