use pantry::model::{Recipe, RunOutput, Safety};
use pantry::screen::{
    list_item, list_items, margin_percent, prompt_screen, raw_line, recipe_details, recipe_lines,
    search_title, shortcut_text, Paint, Piece,
};
use pantry::state::{App, Key, KeyInput, Mode};
use pantry::strmap::StrMap;
use pantry::template::Template;

fn recipe(name: &str, command: &str) -> Recipe {
    Recipe {
        name: name.to_string(),
        tags: Vec::new(),
        description: String::new(),
        command: command.to_string(),
        interactive: false,
        presets: Vec::new(),
        choices: StrMap::new(),
        safety: Safety::Safe,
        source: "global.toml".to_string(),
        compiled: Template::parse(command),
        last_run: None,
    }
}

fn flat(lines: &[Vec<Piece>]) -> Vec<Vec<(String, Paint)>> {
    lines
        .iter()
        .map(|l| l.iter().map(|p| (p.text.clone(), p.paint)).collect())
        .collect()
}

fn p(text: &str, paint: Paint) -> (String, Paint) {
    (text.to_string(), paint)
}

fn key(code: Key) -> KeyInput {
    KeyInput { code, ctrl: false }
}

#[test]
fn details_of_a_plain_recipe() {
    let mut r = recipe("list", "ls -la\r\nwc -l\n");
    r.description = "show files".to_string();
    r.safety = Safety::Confirm;
    let lines = flat(&recipe_lines(&r));
    assert_eq!(
        lines,
        vec![
            vec![p("NAME: ", Paint::Header), p("list", Paint::Plain)],
            vec![p("SAFETY: ", Paint::Header), p("confirm", Paint::Bad)],
            vec![p("SOURCE: ", Paint::Header), p("global.toml", Paint::Source)],
            vec![],
            vec![p("DESCRIPTION:", Paint::Header)],
            vec![p("  ", Paint::Plain), p("show files", Paint::Italic)],
            vec![],
            vec![p("COMMAND:", Paint::Header)],
            vec![p("  ", Paint::Plain), p("ls -la", Paint::Command)],
            vec![p("  ", Paint::Plain), p("wc -l", Paint::Command)],
        ]
    );
}

#[test]
fn details_show_presets_choices_and_last_run() {
    let mut r = recipe("deploy", "deploy {env} {zone}");
    r.presets = vec!["env=prod zone=eu".to_string()];
    r.choices.insert("zone".to_string(), vec!["eu".to_string(), "us".to_string()]);
    r.choices.insert("env".to_string(), vec!["dev".to_string(), "prod".to_string()]);
    r.last_run = Some(RunOutput {
        command: "deploy prod eu".to_string(),
        code: Some(2),
        stdout: "   \n".to_string(),
        stderr: "1\n2\n3\n4\n5\n6\n7\n".to_string(),
    });
    let lines = flat(&recipe_lines(&r));
    let tail: Vec<Vec<(String, Paint)>> = lines[9..].to_vec();
    assert_eq!(
        tail,
        vec![
            vec![],
            vec![p("PRESETS:", Paint::Header)],
            vec![p("  - ", Paint::Plain), p("env=prod zone=eu", Paint::Accent)],
            vec![],
            vec![p("CHOICES:", Paint::Header)],
            vec![
                p("  - ", Paint::Plain),
                p("{env}", Paint::Accent),
                p(": ", Paint::Plain),
                p("dev, prod", Paint::Plain)
            ],
            vec![
                p("  - ", Paint::Plain),
                p("{zone}", Paint::Accent),
                p(": ", Paint::Plain),
                p("eu, us", Paint::Plain)
            ],
            vec![],
            vec![p("LAST RUN:", Paint::Header)],
            vec![p("  $ deploy prod eu", Paint::Plain)],
            vec![p("  exit: ", Paint::Plain), p("Some(2)", Paint::Bad)],
            vec![p("  stderr:", Paint::Plain)],
            vec![p("    1", Paint::Plain)],
            vec![p("    2", Paint::Plain)],
            vec![p("    3", Paint::Plain)],
            vec![p("    4", Paint::Plain)],
            vec![p("    5", Paint::Plain)],
            vec![p("    6", Paint::Plain)],
        ]
    );
}

#[test]
fn details_without_a_selection() {
    let app = App::new(Vec::new());
    let lines = flat(&recipe_details(&app, &app.filtered_indices()));
    assert_eq!(
        lines,
        vec![vec![p(
            "No recipes found. Add some in ~/.config/pantry/recipes.toml",
            Paint::Plain
        )]]
    );
}

#[test]
fn raw_lines_drop_newlines() {
    let l = raw_line("a\nb\r\n\nc");
    let texts: Vec<&str> = l.iter().map(|x| x.text.as_str()).collect();
    assert_eq!(texts, vec!["a", "b", "", "c"]);
    assert!(raw_line("").is_empty());
}

#[test]
fn list_entries_show_tags() {
    let mut r = recipe("pull", "git pull");
    r.tags = vec!["git".to_string(), "sync".to_string()];
    let item: Vec<(String, Paint)> = list_item(&r).iter().map(|x| (x.text.clone(), x.paint)).collect();
    assert_eq!(
        item,
        vec![
            p("pull", Paint::Plain),
            p(" ", Paint::Plain),
            p("[git]", Paint::Accent),
            p(" ", Paint::Plain),
            p("[sync]", Paint::Accent)
        ]
    );
    let app = App::new(vec![recipe("a", "x"), r]);
    assert_eq!(list_items(&app, &vec![1, 0]).len(), 2);
}

#[test]
fn mode_texts() {
    assert_eq!(search_title(&Mode::Normal), " Search (/ to edit) ");
    assert_eq!(search_title(&Mode::Search), " Search (Esc to stop editing) ");
    assert_eq!(
        shortcut_text(&Mode::Search),
        "Search: type filter | Up/Down move | Enter run | Esc stop editing"
    );
    assert_eq!(margin_percent(60), 20);
    assert_eq!(margin_percent(40), 30);
}

#[test]
fn preset_prompt_screen() {
    let mut r = recipe("deploy", "deploy {env}");
    r.presets = vec!["env=prod".to_string(), "env=dev".to_string()];
    let mut app = App::new(vec![r]);
    assert!(prompt_screen(&app).is_none());
    app.handle_key(KeyInput { code: Key::Char('Y'), ctrl: false });
    app.handle_key(key(Key::Down));
    let s = match prompt_screen(&app) {
        Some(s) => s,
        None => panic!("expected a prompt"),
    };
    assert_eq!((s.width, s.height), (60, 20));
    assert_eq!(s.title, " Choose preset to copy and quit ");
    assert_eq!(s.hint, " Enter select | Esc cancel ");
    assert_eq!(
        flat(&s.lines),
        vec![
            vec![p("  env=prod", Paint::Plain)],
            vec![p("> env=dev", Paint::Plain)],
            vec![p("  Custom values", Paint::Plain)],
        ]
    );
}

#[test]
fn value_prompt_screen() {
    let mut r = recipe("deploy", "deploy {env} {service}");
    r.choices.insert("service".to_string(), vec!["api".to_string(), "web".to_string()]);
    let mut app = App::new(vec![r]);
    app.handle_key(key(Key::Enter));
    for c in "qa".chars() {
        app.handle_key(key(Key::Char(c)));
    }
    let s = prompt_screen(&app).expect("prompt");
    assert_eq!((s.width, s.height), (70, 40));
    assert_eq!(s.title, " Fill placeholders to run ");
    assert_eq!(s.hint, " Enter accept | Esc cancel ");
    assert_eq!(
        flat(&s.lines),
        vec![
            vec![p("> {env}: ", Paint::FocusBold), p("qa", Paint::Focus)],
            vec![p("  {service}: ", Paint::Plain)],
        ]
    );
    app.handle_key(key(Key::Enter));
    app.handle_key(key(Key::Down));
    let s = prompt_screen(&app).expect("prompt");
    assert_eq!(s.hint, " Up/down choose | Enter accept | Esc cancel ");
    assert_eq!(
        flat(&s.lines),
        vec![
            vec![p("  {env}: qa", Paint::Plain)],
            vec![p("> {service}: ", Paint::FocusBold), p("web", Paint::Focus)],
            vec![p("    ", Paint::Plain), p("  api", Paint::Muted)],
            vec![p("    ", Paint::Plain), p("> web", Paint::Focus)],
        ]
    );
}
