use pantry::clipboard::{command_candidates, detect_command_provider, push_candidate};

fn programs(wayland: bool, x11: bool) -> Vec<&'static str> {
    command_candidates(wayland, x11).iter().map(|p| p.program()).collect()
}

#[test]
fn candidates_without_a_display() {
    assert_eq!(programs(false, false), vec!["pbcopy", "wl-copy", "xclip", "xsel"]);
}

#[test]
fn candidates_prefer_wayland() {
    assert_eq!(programs(true, false), vec!["wl-copy", "pbcopy", "xclip", "xsel"]);
}

#[test]
fn candidates_prefer_x11_programs() {
    assert_eq!(programs(false, true), vec!["xclip", "xsel", "pbcopy", "wl-copy"]);
    assert_eq!(programs(true, true), vec!["wl-copy", "xclip", "xsel", "pbcopy"]);
}

#[test]
fn candidates_carry_their_arguments() {
    for p in command_candidates(true, true) {
        let expected: &[&str] = match p.program() {
            "xclip" => &["-selection", "clipboard"],
            "xsel" => &["--clipboard", "--input"],
            _ => &[],
        };
        assert_eq!(p.args(), expected);
    }
}

#[test]
fn push_candidate_skips_a_known_program() {
    let all = command_candidates(false, false);
    let mut v = Vec::new();
    push_candidate(&mut v, all[1]);
    push_candidate(&mut v, all[0]);
    push_candidate(&mut v, all[1]);
    let names: Vec<&str> = v.iter().map(|p| p.program()).collect();
    assert_eq!(names, vec!["wl-copy", "pbcopy"]);
}

#[test]
fn detect_picks_the_first_available() {
    let all = command_candidates(false, true);
    let found = detect_command_provider(&all, &vec![false, true, true, false]);
    assert_eq!(found.map(|p| p.program()), Some("xsel"));
    let none = detect_command_provider(&all, &vec![false; 4]);
    assert!(none.is_none());
}
