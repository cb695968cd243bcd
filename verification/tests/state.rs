use pantry::model::{Recipe, RunOutput, Safety};
use pantry::state::{
    filter_recipes, rank_matches, search_text, Action, App, Effect, Key, KeyInput, Mode,
    PromptStage, Tone,
};
use pantry::strmap::StrMap;
use pantry::template::Template;

fn recipe(name: &str, command: &str) -> Recipe {
    Recipe {
        name: name.to_string(),
        tags: Vec::new(),
        description: String::new(),
        command: command.to_string(),
        interactive: false,
        presets: Vec::new(),
        choices: StrMap::new(),
        safety: Safety::Safe,
        source: "test".to_string(),
        compiled: Template::parse(command),
        last_run: None,
    }
}

fn key(code: Key) -> KeyInput {
    KeyInput { code, ctrl: false }
}

fn ch(c: char) -> KeyInput {
    key(Key::Char(c))
}

fn ctrl(c: char) -> KeyInput {
    KeyInput { code: Key::Char(c), ctrl: true }
}

fn book() -> Vec<Recipe> {
    let mut deploy = recipe("deploy", "deploy --env {env} --service {service}");
    deploy.presets = vec!["env=prod service=api".to_string(), "env=dev".to_string()];
    let mut pick = recipe("pick", "use {env}");
    pick.choices.insert(
        "env".to_string(),
        vec!["dev".to_string(), "staging".to_string(), "prod".to_string()],
    );
    vec![recipe("list", "ls -la"), deploy, pick, recipe("echo", "echo {word}")]
}

fn copied(e: Effect) -> (String, String, bool) {
    match e {
        Effect::Copy { text, recipe_name, quit_after } => (text, recipe_name, quit_after),
        _ => panic!("expected a copy"),
    }
}

fn ran(e: Effect) -> (String, usize) {
    match e {
        Effect::Run { command, recipe_idx } => (command, recipe_idx),
        _ => panic!("expected a run"),
    }
}

fn is_nothing(e: &Effect) -> bool {
    matches!(e, Effect::Nothing)
}

#[test]
fn new_app_starts_in_normal_mode() {
    let app = App::new(book());
    assert!(matches!(app.mode(), Mode::Normal));
    assert_eq!(app.selected(), 0);
    assert_eq!(app.query(), "");
    assert_eq!(app.status(), "");
    assert_eq!(app.running(), None);
    assert_eq!(app.filtered_indices(), vec![0, 1, 2, 3]);
    assert_eq!(app.footer_state(), ("NORMAL".to_string(), Tone::Blue));
}

#[test]
fn quit_keys() {
    let mut app = App::new(book());
    assert!(matches!(app.handle_key(ch('q')), Effect::Quit));
    assert!(matches!(app.handle_key(ctrl('c')), Effect::Quit));
}

#[test]
fn selection_moves_and_stays_in_range() {
    let mut app = App::new(book());
    app.handle_key(key(Key::Up));
    assert_eq!(app.selected(), 0);
    app.handle_key(key(Key::Down));
    app.handle_key(ch('j'));
    assert_eq!(app.selected(), 2);
    for _ in 0..5 {
        app.handle_key(key(Key::Down));
    }
    assert_eq!(app.selected(), 3);
    app.handle_key(ch('k'));
    assert_eq!(app.selected(), 2);
    app.move_selection(-10);
    assert_eq!(app.selected(), 0);
}

#[test]
fn enter_runs_a_command_without_placeholders() {
    let mut app = App::new(book());
    let (command, idx) = ran(app.handle_key(key(Key::Enter)));
    assert_eq!(command, "ls -la");
    assert_eq!(idx, 0);
    assert_eq!(app.running(), Some(0));
    assert_eq!(app.footer_state(), ("RUN |".to_string(), Tone::Cyan));
    app.tick();
    assert_eq!(app.spinner_frame(), 1);
    assert_eq!(app.footer_state(), ("RUN /".to_string(), Tone::Cyan));
    assert!(is_nothing(&app.handle_key(key(Key::Enter))));
    assert_eq!(app.status(), "Already running a command");
}

#[test]
fn finished_run_is_recorded() {
    let mut app = App::new(book());
    ran(app.handle_key(key(Key::Enter)));
    app.finish_run(RunOutput {
        command: "ls -la".to_string(),
        code: Some(-3),
        stdout: String::new(),
        stderr: "boom".to_string(),
    });
    assert_eq!(app.status(), "Command exited with code -3");
    assert_eq!(app.running(), None);
    assert_eq!(app.recipes()[0].last_run.as_ref().map(|r| r.code), Some(Some(-3)));
    assert_eq!(app.footer_state(), ("RUN FAILED".to_string(), Tone::Red));

    ran(app.handle_key(key(Key::Enter)));
    app.finish_run(RunOutput {
        command: "ls -la".to_string(),
        code: Some(0),
        stdout: "ok".to_string(),
        stderr: String::new(),
    });
    assert_eq!(app.status(), "Ran successfully");
    assert_eq!(app.footer_state(), ("RAN".to_string(), Tone::LightGreen));

    ran(app.handle_key(key(Key::Enter)));
    app.finish_run(RunOutput {
        command: "ls -la".to_string(),
        code: None,
        stdout: String::new(),
        stderr: String::new(),
    });
    assert_eq!(app.status(), "Command terminated by signal");
    assert_eq!(app.footer_state(), ("SIGNAL".to_string(), Tone::Red));

    ran(app.handle_key(key(Key::Enter)));
    app.run_disconnected();
    assert_eq!(app.status(), "Command runner disconnected");
    assert_eq!(app.footer_state(), ("RUN ERROR".to_string(), Tone::Red));
}

#[test]
fn copy_keys_and_their_outcome() {
    let mut app = App::new(book());
    let (text, name, quit) = copied(app.handle_key(ch('y')));
    assert_eq!((text.as_str(), name.as_str(), quit), ("ls -la", "list", false));
    let (_, _, quit) = copied(app.handle_key(ch('Y')));
    assert!(quit);
    let (_, _, quit) = copied(app.handle_key(ctrl('y')));
    assert!(!quit);
    assert!(app.finish_copy("list", true, Ok(())));
    assert_eq!(app.status(), "Copied: list");
    assert_eq!(app.footer_state(), ("COPIED!".to_string(), Tone::LightGreen));
    assert!(!app.finish_copy("list", true, Err("no display".to_string())));
    assert_eq!(app.status(), "Clipboard error: no display");
    assert_eq!(app.footer_state(), ("COPY ERROR".to_string(), Tone::Red));
}

#[test]
fn preset_prompt_applies_a_preset() {
    let mut app = App::new(book());
    app.handle_key(key(Key::Down));
    assert!(is_nothing(&app.handle_key(ch('y'))));
    match app.mode() {
        Mode::Prompt(p) => {
            assert!(p.stage() == PromptStage::ChoosePreset);
            assert!(p.action() == Action::Copy { quit_after: false });
            assert_eq!(p.placeholders(), &vec!["env".to_string(), "service".to_string()]);
            assert_eq!(p.recipe_idx(), 1);
        }
        _ => panic!("expected a prompt"),
    }
    assert_eq!(app.footer_state(), ("PROMPT".to_string(), Tone::Magenta));
    let (text, name, _) = copied(app.handle_key(key(Key::Enter)));
    assert_eq!(text, "deploy --env prod --service api");
    assert_eq!(name, "deploy");
    assert!(matches!(app.mode(), Mode::Normal));
}

#[test]
fn preset_prompt_reports_a_missing_value() {
    let mut app = App::new(book());
    app.handle_key(key(Key::Down));
    app.handle_key(key(Key::Enter));
    app.handle_key(key(Key::Down));
    let e = app.handle_key(key(Key::Enter));
    assert!(is_nothing(&e));
    assert_eq!(app.status(), "Preset missing value for {service}");
    assert!(matches!(app.mode(), Mode::Prompt(_)));
}

#[test]
fn custom_values_are_typed_in_order() {
    let mut app = App::new(book());
    app.handle_key(key(Key::Down));
    app.handle_key(key(Key::Enter));
    app.handle_key(key(Key::Down));
    app.handle_key(key(Key::Down));
    app.handle_key(key(Key::Down));
    app.handle_key(key(Key::Enter));
    match app.mode() {
        Mode::Prompt(p) => {
            assert!(p.stage() == PromptStage::InputValues);
            assert_eq!(p.current_placeholder(), "env");
        }
        _ => panic!("expected a prompt"),
    }
    for c in "qa".chars() {
        app.handle_key(ch(c));
    }
    app.handle_key(ch('x'));
    app.handle_key(key(Key::Backspace));
    assert!(is_nothing(&app.handle_key(key(Key::Enter))));
    match app.mode() {
        Mode::Prompt(p) => {
            assert_eq!(p.current_placeholder(), "service");
            assert_eq!(p.values().get("env"), Some(&"qa".to_string()));
            assert_eq!(p.input(), "");
        }
        _ => panic!("expected a prompt"),
    }
    for c in "web".chars() {
        app.handle_key(ch(c));
    }
    let (command, idx) = ran(app.handle_key(key(Key::Enter)));
    assert_eq!(command, "deploy --env qa --service web");
    assert_eq!(idx, 1);
}

#[test]
fn choices_are_picked_with_arrows() {
    let mut app = App::new(book());
    app.handle_key(key(Key::Down));
    app.handle_key(key(Key::Down));
    app.handle_key(ch('y'));
    match app.mode() {
        Mode::Prompt(p) => {
            assert!(p.stage() == PromptStage::InputValues);
            assert_eq!(p.current_choices().map(|c| c.len()), Some(3));
        }
        _ => panic!("expected a prompt"),
    }
    app.handle_key(ch('z'));
    app.handle_key(key(Key::Down));
    app.handle_key(key(Key::Down));
    app.handle_key(key(Key::Down));
    app.handle_key(key(Key::Up));
    let (text, _, _) = copied(app.handle_key(key(Key::Enter)));
    assert_eq!(text, "use staging");
}

#[test]
fn escape_cancels_a_prompt() {
    let mut app = App::new(book());
    app.handle_key(key(Key::Down));
    app.handle_key(key(Key::Down));
    app.handle_key(ch('y'));
    app.handle_key(key(Key::Esc));
    assert!(matches!(app.mode(), Mode::Normal));
    assert_eq!(app.status(), "Cancelled");
    assert_eq!(app.footer_state(), ("CANCELLED".to_string(), Tone::Yellow));
}

#[test]
fn search_filters_and_returns() {
    let mut app = App::new(book());
    app.handle_key(ch('/'));
    assert!(matches!(app.mode(), Mode::Search));
    assert_eq!(app.footer_state(), ("SEARCH".to_string(), Tone::Yellow));
    for c in "zzzz".chars() {
        app.handle_key(ch(c));
    }
    assert_eq!(app.query(), "zzzz");
    assert!(app.filtered_indices().is_empty());
    assert_eq!(app.selected(), 0);
    for _ in 0..4 {
        app.handle_key(key(Key::Backspace));
    }
    assert_eq!(app.query(), "");
    for c in "echo".chars() {
        app.handle_key(ch(c));
    }
    let shown = app.filtered_indices();
    assert_eq!(shown.first(), Some(&3));
    app.handle_key(key(Key::Esc));
    assert!(matches!(app.mode(), Mode::Normal));
    assert_eq!(app.query(), "echo");
}

#[test]
fn enter_with_nothing_shown_selects_nothing() {
    let mut app = App::new(book());
    app.handle_key(ch('/'));
    for c in "zzzz".chars() {
        app.handle_key(ch(c));
    }
    assert!(is_nothing(&app.handle_key(key(Key::Enter))));
    assert_eq!(app.status(), "No recipe selected");
    assert_eq!(app.footer_state(), ("NO RECIPE".to_string(), Tone::Yellow));
}

#[test]
fn reload_replaces_recipes_or_reports() {
    let mut app = App::new(book());
    app.handle_key(key(Key::Down));
    app.handle_key(key(Key::Down));
    app.handle_key(key(Key::Down));
    assert!(matches!(app.handle_key(ch('r')), Effect::Reload));
    app.finish_reload(Ok(vec![recipe("one", "true")]));
    assert_eq!(app.status(), "Reloaded recipes");
    assert_eq!(app.selected(), 0);
    assert_eq!(app.recipes().len(), 1);
    assert_eq!(app.footer_state(), ("RELOADED".to_string(), Tone::Cyan));
    app.finish_reload(Err("bad file".to_string()));
    assert_eq!(app.status(), "Reload failed: bad file");
    assert_eq!(app.footer_state(), ("RELOAD ERROR".to_string(), Tone::Red));
}

#[test]
fn ranking_orders_by_score_then_position() {
    assert_eq!(rank_matches(&vec![Some(5), None, Some(9), Some(5)]), vec![2, 0, 3]);
    assert!(rank_matches(&vec![None, None]).is_empty());
}

#[test]
fn search_text_joins_fields() {
    let mut r = recipe("pull", "git pull");
    r.tags = vec!["git".to_string(), "sync".to_string()];
    r.description = "update".to_string();
    assert_eq!(search_text(&r), "pull git sync update git pull");
}

#[test]
fn fuzzy_filter_keeps_only_matches() {
    let recipes = book();
    assert_eq!(filter_recipes(&recipes, ""), vec![0, 1, 2, 3]);
    let shown = filter_recipes(&recipes, "dpl");
    assert_eq!(shown, vec![1]);
    assert!(filter_recipes(&recipes, "qqq").is_empty());
}
