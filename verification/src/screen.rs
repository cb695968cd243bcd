//! What the interface shows: the lines of the details pane and of the prompt, as pieces of
//! painted text, and the texts that depend on the mode.
use vstd::prelude::*;
use crate::model::{Recipe, RunOutput, Safety};
use crate::state::{
    Action, App, AppView, Mode, ModeView, PromptStage, PromptState, PromptView, choices_of,
};
use crate::strmap::StrMap;
use crate::text::{
    blank, decimal, int_text, is_blank, is_listing, join, join_strings, lemma_listing_is_sorted_listing,
    lines_of, owned, sorted_listing, sorted_without, text_lines, views,
};

verus! {

/// How a piece of text is painted.
#[derive(Debug, Clone, Copy, PartialEq, Eq, Structural)]
pub enum Paint {
    /// The terminal's default.
    Plain,
    /// A section label: blue and bold.
    Header,
    /// Green.
    Good,
    /// Red.
    Bad,
    /// Magenta.
    Source,
    /// Italic.
    Italic,
    /// Light yellow.
    Command,
    /// Cyan.
    Accent,
    /// Yellow.
    Focus,
    /// Yellow and bold.
    FocusBold,
    /// Gray.
    Muted,
}

/// A piece of text and its paint; a line is a list of pieces.
pub struct Piece {
    pub text: String,
    pub paint: Paint,
}

/// A line, in terms of texts.
pub open spec fn piece_texts(v: Seq<Piece>) -> Seq<(Seq<char>, Paint)> {
    v.map_values(|p: Piece| (p.text@, p.paint))
}

/// Lines, in terms of texts.
pub open spec fn line_texts(v: Seq<Vec<Piece>>) -> Seq<Seq<(Seq<char>, Paint)>> {
    v.map_values(|l: Vec<Piece>| piece_texts(l@))
}

/// A line made of a raw text: its lines become plain pieces, so that no piece holds a newline.
pub open spec fn raw_pieces(s: Seq<char>) -> Seq<(Seq<char>, Paint)> {
    text_lines(s).map_values(|l: Seq<char>| (l, Paint::Plain))
}

/// A line with one piece.
pub open spec fn single(text: Seq<char>, paint: Paint) -> Seq<(Seq<char>, Paint)> {
    seq![(text, paint)]
}

fn piece(text: String, paint: Paint) -> (r: Piece)
    ensures
        r.text@ == text@,
        r.paint == paint,
{
    Piece { text, paint }
}

fn line1(a: &str, pa: Paint) -> (r: Vec<Piece>)
    ensures
        piece_texts(r@) == single(a@, pa),
{
    let mut v: Vec<Piece> = Vec::new();
    v.push(piece(owned(a), pa));
    assert(piece_texts(v@) =~= single(a@, pa));
    v
}

fn line2(a: &str, pa: Paint, b: &str, pb: Paint) -> (r: Vec<Piece>)
    ensures
        piece_texts(r@) == seq![(a@, pa), (b@, pb)],
{
    let mut v: Vec<Piece> = Vec::new();
    v.push(piece(owned(a), pa));
    v.push(piece(owned(b), pb));
    assert(piece_texts(v@) =~= seq![(a@, pa), (b@, pb)]);
    v
}

fn empty_line() -> (r: Vec<Piece>)
    ensures
        piece_texts(r@) == Seq::<(Seq<char>, Paint)>::empty(),
{
    let v: Vec<Piece> = Vec::new();
    assert(piece_texts(v@) =~= Seq::<(Seq<char>, Paint)>::empty());
    v
}

fn push_line(lines: &mut Vec<Vec<Piece>>, line: Vec<Piece>)
    ensures
        line_texts(final(lines)@) == line_texts(old(lines)@).push(piece_texts(line@)),
{
    let ghost before = lines@;
    lines.push(line);
    assert(line_texts(lines@) =~= line_texts(before).push(piece_texts(line@)));
}

fn append_lines(lines: &mut Vec<Vec<Piece>>, more: Vec<Vec<Piece>>)
    ensures
        line_texts(final(lines)@) == line_texts(old(lines)@) + line_texts(more@),
{
    let ghost before = line_texts(lines@);
    let mut rest = more;
    let ghost all = rest@;
    let mut k: usize = 0;
    let n = rest.len();
    while k < n
        invariant
            n == all.len(),
            k <= n,
            rest@ == all.subrange(k as int, n as int),
            line_texts(lines@) == before + line_texts(all.take(k as int)),
        decreases n - k,
    {
        let line = rest.remove(0);
        assert(line == all[k as int]);
        push_line(lines, line);
        k = k + 1;
        assert(line_texts(all.take(k as int)) =~= line_texts(all.take(k - 1)).push(
            piece_texts(all[k - 1]@),
        ));
        assert(rest@ =~= all.subrange(k as int, n as int));
    }
    assert(all.take(n as int) =~= all);
}

/// The pieces of a raw text (see `raw_pieces`).
pub fn raw_line(s: &str) -> (r: Vec<Piece>)
    ensures
        piece_texts(r@) == raw_pieces(s@),
{
    let parts = lines_of(s);
    let mut out: Vec<Piece> = Vec::new();
    let n = parts.len();
    let mut i: usize = 0;
    while i < n
        invariant
            n == parts@.len(),
            views(parts@) == text_lines(s@),
            i <= n,
            piece_texts(out@) == raw_pieces(s@).take(i as int),
        decreases n - i,
    {
        let ghost before = out@;
        out.push(piece(parts[i].clone(), Paint::Plain));
        assert(piece_texts(out@) =~= piece_texts(before).push((parts@[i as int]@, Paint::Plain)));
        i = i + 1;
        assert(raw_pieces(s@).take(i as int) =~= raw_pieces(s@).take(i - 1).push(
            (parts@[i - 1]@, Paint::Plain),
        ));
    }
    assert(raw_pieces(s@).take(n as int) =~= raw_pieces(s@));
    out
}

/// A line with a section label.
pub open spec fn header(label: Seq<char>) -> Seq<(Seq<char>, Paint)> {
    single(label, Paint::Header)
}

/// The name of a safety level, as recipe files write it.
pub open spec fn safety_text(s: Safety) -> Seq<char> {
    match s {
        Safety::Safe => "safe"@,
        Safety::Confirm => "confirm"@,
    }
}

/// Safe recipes are shown in green, the others in red.
pub open spec fn safety_paint(s: Safety) -> Paint {
    match s {
        Safety::Safe => Paint::Good,
        Safety::Confirm => Paint::Bad,
    }
}

/// Each text on a line of its own, indented by two spaces.
pub open spec fn indented(items: Seq<Seq<char>>, paint: Paint) -> Seq<Seq<(Seq<char>, Paint)>> {
    items.map_values(|t: Seq<char>| seq![("  "@, Paint::Plain), (t, paint)])
}

/// Each text on a line of its own, as an item of a list.
pub open spec fn listed(items: Seq<Seq<char>>, paint: Paint) -> Seq<Seq<(Seq<char>, Paint)>> {
    items.map_values(|t: Seq<char>| seq![("  - "@, Paint::Plain), (t, paint)])
}

/// A section: an empty line, the label, then the body.
pub open spec fn section(label: Seq<char>, body: Seq<Seq<(Seq<char>, Paint)>>) -> Seq<
    Seq<(Seq<char>, Paint)>,
> {
    seq![seq![], header(label)] + body
}

/// The line that lists the choices of a placeholder.
pub open spec fn choice_line(name: Seq<char>, values: Seq<Seq<char>>) -> Seq<(Seq<char>, Paint)> {
    seq![
        ("  - "@, Paint::Plain),
        ("{"@ + name + "}"@, Paint::Accent),
        (": "@, Paint::Plain),
        (join(values, ", "@), Paint::Plain),
    ]
}

/// An exit code as `{:?}` prints an `Option<i32>`.
pub open spec fn code_text(code: Option<i32>) -> Seq<char> {
    match code {
        Some(c) => "Some("@ + int_text(c as int) + ")"@,
        None => "None"@,
    }
}

/// At most the first six lines of a text.
pub open spec fn first_six(lines: Seq<Seq<char>>) -> Seq<Seq<char>> {
    if lines.len() <= 6 {
        lines
    } else {
        lines.take(6)
    }
}

/// The part of the last run that shows one output stream: nothing if it is blank, otherwise
/// its label and its first six lines.
pub open spec fn stream_lines(label: Seq<char>, out: Seq<char>) -> Seq<Seq<(Seq<char>, Paint)>> {
    if is_blank(out) {
        seq![]
    } else {
        seq![single(label, Paint::Plain)] + first_six(text_lines(out)).map_values(
            |l: Seq<char>| single("    "@ + l, Paint::Plain),
        )
    }
}

/// The section about the last run of a recipe.
pub open spec fn last_run_lines(run: RunOutput) -> Seq<Seq<(Seq<char>, Paint)>> {
    section(
        "LAST RUN:"@,
        seq![
            raw_pieces("  $ "@ + run.command@),
            seq![
                ("  exit: "@, Paint::Plain),
                (code_text(run.code), if run.code == Some(0i32) {
                    Paint::Good
                } else {
                    Paint::Bad
                }),
            ],
        ],
    ) + stream_lines("  stdout:"@, run.stdout@) + stream_lines("  stderr:"@, run.stderr@)
}

/// The sections of a recipe after its command: its presets, its choices (by placeholder
/// name, in increasing order) and its last run, each only if there is something to show.
pub open spec fn extra_lines(r: Recipe) -> Seq<Seq<(Seq<char>, Paint)>> {
    (if r.presets@.len() == 0 {
        seq![]
    } else {
        section("PRESETS:"@, listed(views(r.presets@), Paint::Accent))
    }) + (if r.choices@.dom() == Set::<Seq<char>>::empty() {
        seq![]
    } else {
        section(
            "CHOICES:"@,
            sorted_listing(r.choices@.dom()).map_values(
                |n: Seq<char>| choice_line(n, views(r.choices@[n]@)),
            ),
        )
    }) + match r.last_run {
        Some(run) => last_run_lines(run),
        None => seq![],
    }
}

/// The details pane of a recipe.
pub open spec fn detail_lines(r: Recipe) -> Seq<Seq<(Seq<char>, Paint)>> {
    seq![
        seq![("NAME: "@, Paint::Header), (r.name@, Paint::Plain)],
        seq![("SAFETY: "@, Paint::Header), (safety_text(r.safety), safety_paint(r.safety))],
        seq![("SOURCE: "@, Paint::Header), (r.source@, Paint::Source)],
        seq![],
        header("DESCRIPTION:"@),
        seq![("  "@, Paint::Plain), (r.description@, Paint::Italic)],
        seq![],
        header("COMMAND:"@),
    ] + indented(text_lines(r.command@), Paint::Command) + extra_lines(r)
}

fn indented_lines(items: &Vec<String>, paint: Paint, bullet: &str) -> (r: Vec<Vec<Piece>>)
    ensures
        line_texts(r@) == views(items@).map_values(
            |t: Seq<char>| seq![(bullet@, Paint::Plain), (t, paint)],
        ),
{
    let mut out: Vec<Vec<Piece>> = Vec::new();
    let n = items.len();
    let mut i: usize = 0;
    while i < n
        invariant
            n == items@.len(),
            i <= n,
            line_texts(out@) == views(items@).take(i as int).map_values(
                |t: Seq<char>| seq![(bullet@, Paint::Plain), (t, paint)],
            ),
        decreases n - i,
    {
        push_line(&mut out, line2(bullet, Paint::Plain, items[i].as_str(), paint));
        i = i + 1;
        assert(views(items@).take(i as int).map_values(
            |t: Seq<char>| seq![(bullet@, Paint::Plain), (t, paint)],
        ) =~= views(items@).take(i - 1).map_values(
            |t: Seq<char>| seq![(bullet@, Paint::Plain), (t, paint)],
        ).push(seq![(bullet@, Paint::Plain), (items@[i - 1]@, paint)]));
    }
    assert(views(items@).take(n as int) =~= views(items@));
    out
}

fn choice_lines(choices: &StrMap<Vec<String>>) -> (r: Vec<Vec<Piece>>)
    ensures
        line_texts(r@) == sorted_listing(choices@.dom()).map_values(
            |n: Seq<char>| choice_line(n, views(choices@[n]@)),
        ),
{
    let keys = choices.keys();
    let none: Vec<String> = Vec::new();
    let names = sorted_without(keys, &none);
    proof {
        assert(views(keys@).to_set().difference(views(none@).to_set()) =~= choices@.dom());
        lemma_listing_is_sorted_listing(views(names@), choices@.dom());
    }
    let ghost want = sorted_listing(choices@.dom()).map_values(
        |n: Seq<char>| choice_line(n, views(choices@[n]@)),
    );
    let mut out: Vec<Vec<Piece>> = Vec::new();
    let m = names.len();
    let mut i: usize = 0;
    while i < m
        invariant
            m == names@.len(),
            views(names@) == sorted_listing(choices@.dom()),
            is_listing(views(names@), choices@.dom()),
            want == sorted_listing(choices@.dom()).map_values(
                |n: Seq<char>| choice_line(n, views(choices@[n]@)),
            ),
            i <= m,
            line_texts(out@) == want.take(i as int),
        decreases m - i,
    {
        let name = &names[i];
        assert(views(names@).to_set().contains(name@)) by {
            assert(views(names@)[i as int] == name@);
        }
        let values = match choices.get(name.as_str()) {
            Some(v) => v,
            None => {
                assert(false);
                return out;
            },
        };
        let mut braced = String::from_str("{");
        braced.append(name.as_str());
        braced.append("}");
        let joined = join_strings(values, ", ");
        let mut line: Vec<Piece> = Vec::new();
        line.push(piece(String::from_str("  - "), Paint::Plain));
        line.push(piece(braced, Paint::Accent));
        line.push(piece(String::from_str(": "), Paint::Plain));
        line.push(piece(joined, Paint::Plain));
        assert(piece_texts(line@) =~= choice_line(name@, views(choices@[name@]@)));
        push_line(&mut out, line);
        i = i + 1;
        assert(want.take(i as int) =~= want.take(i - 1).push(want[i - 1]));
    }
    assert(want.take(m as int) =~= want);
    out
}

fn stream_part(label: &str, out: &str) -> (r: Vec<Vec<Piece>>)
    ensures
        line_texts(r@) == stream_lines(label@, out@),
{
    let mut lines: Vec<Vec<Piece>> = Vec::new();
    if blank(out) {
        assert(line_texts(lines@) =~= stream_lines(label@, out@));
        return lines;
    }
    push_line(&mut lines, line1(label, Paint::Plain));
    let parts = lines_of(out);
    let n = if parts.len() <= 6 {
        parts.len()
    } else {
        6
    };
    let ghost shown = first_six(text_lines(out@));
    assert(shown =~= views(parts@).take(n as int));
    let mut i: usize = 0;
    while i < n
        invariant
            n <= parts@.len(),
            shown == views(parts@).take(n as int),
            i <= n,
            line_texts(lines@) == seq![single(label@, Paint::Plain)] + shown.take(i as int).map_values(
                |l: Seq<char>| single("    "@ + l, Paint::Plain),
            ),
        decreases n - i,
    {
        let mut t = String::from_str("    ");
        t.append(parts[i].as_str());
        push_line(&mut lines, line1(t.as_str(), Paint::Plain));
        i = i + 1;
        assert(shown.take(i as int).map_values(|l: Seq<char>| single("    "@ + l, Paint::Plain))
            =~= shown.take(i - 1).map_values(|l: Seq<char>| single("    "@ + l, Paint::Plain)).push(
            single("    "@ + shown[i - 1], Paint::Plain),
        ));
    }
    assert(shown.take(n as int) =~= shown);
    lines
}

fn code_string(code: Option<i32>) -> (r: String)
    ensures
        r@ == code_text(code),
{
    match code {
        Some(c) => {
            let mut s = String::from_str("Some(");
            let d = decimal(c);
            s.append(d.as_str());
            s.append(")");
            s
        },
        None => String::from_str("None"),
    }
}

fn last_run_part(run: &RunOutput) -> (r: Vec<Vec<Piece>>)
    ensures
        line_texts(r@) == last_run_lines(*run),
{
    let mut lines: Vec<Vec<Piece>> = Vec::new();
    assert(line_texts(lines@) =~= Seq::<Seq<(Seq<char>, Paint)>>::empty());
    push_line(&mut lines, empty_line());
    push_line(&mut lines, line1("LAST RUN:", Paint::Header));
    let mut cmd = String::from_str("  $ ");
    cmd.append(run.command.as_str());
    push_line(&mut lines, raw_line(cmd.as_str()));
    let paint = if run.code == Some(0i32) {
        Paint::Good
    } else {
        Paint::Bad
    };
    let code = code_string(run.code);
    push_line(&mut lines, line2("  exit: ", Paint::Plain, code.as_str(), paint));
    assert(line_texts(lines@) =~= section(
        "LAST RUN:"@,
        seq![
            raw_pieces("  $ "@ + run.command@),
            seq![("  exit: "@, Paint::Plain), (code_text(run.code), paint)],
        ],
    ));
    append_lines(&mut lines, stream_part("  stdout:", run.stdout.as_str()));
    append_lines(&mut lines, stream_part("  stderr:", run.stderr.as_str()));
    lines
}

fn safety_line(s: Safety) -> (r: Vec<Piece>)
    ensures
        piece_texts(r@) == seq![("SAFETY: "@, Paint::Header), (safety_text(s), safety_paint(s))],
{
    match s {
        Safety::Safe => line2("SAFETY: ", Paint::Header, "safe", Paint::Good),
        Safety::Confirm => line2("SAFETY: ", Paint::Header, "confirm", Paint::Bad),
    }
}

/// The first lines of the details pane: name, safety, file and description, up to the label
/// of the command.
pub open spec fn head_lines(r: Recipe) -> Seq<Seq<(Seq<char>, Paint)>> {
    seq![
        seq![("NAME: "@, Paint::Header), (r.name@, Paint::Plain)],
        seq![("SAFETY: "@, Paint::Header), (safety_text(r.safety), safety_paint(r.safety))],
        seq![("SOURCE: "@, Paint::Header), (r.source@, Paint::Source)],
        seq![],
        header("DESCRIPTION:"@),
        seq![("  "@, Paint::Plain), (r.description@, Paint::Italic)],
        seq![],
        header("COMMAND:"@),
    ]
}

fn head_part(r: &Recipe) -> (out: Vec<Vec<Piece>>)
    ensures
        line_texts(out@) == head_lines(*r),
{
    let mut lines: Vec<Vec<Piece>> = Vec::new();
    assert(line_texts(lines@) =~= Seq::<Seq<(Seq<char>, Paint)>>::empty());
    push_line(&mut lines, line2("NAME: ", Paint::Header, r.name.as_str(), Paint::Plain));
    push_line(&mut lines, safety_line(r.safety));
    push_line(&mut lines, line2("SOURCE: ", Paint::Header, r.source.as_str(), Paint::Source));
    push_line(&mut lines, empty_line());
    push_line(&mut lines, line1("DESCRIPTION:", Paint::Header));
    push_line(&mut lines, line2("  ", Paint::Plain, r.description.as_str(), Paint::Italic));
    push_line(&mut lines, empty_line());
    push_line(&mut lines, line1("COMMAND:", Paint::Header));
    assert(line_texts(lines@) =~= head_lines(*r));
    lines
}

fn section_part(label: &str, body: Vec<Vec<Piece>>) -> (out: Vec<Vec<Piece>>)
    ensures
        line_texts(out@) == section(label@, line_texts(body@)),
{
    let mut lines: Vec<Vec<Piece>> = Vec::new();
    assert(line_texts(lines@) =~= Seq::<Seq<(Seq<char>, Paint)>>::empty());
    push_line(&mut lines, empty_line());
    push_line(&mut lines, line1(label, Paint::Header));
    append_lines(&mut lines, body);
    assert(line_texts(lines@) =~= section(label@, line_texts(body@)));
    lines
}

fn extra_part(r: &Recipe) -> (out: Vec<Vec<Piece>>)
    ensures
        line_texts(out@) == extra_lines(*r),
{
    let mut lines: Vec<Vec<Piece>> = Vec::new();
    assert(line_texts(lines@) =~= Seq::<Seq<(Seq<char>, Paint)>>::empty());
    if r.presets.len() > 0 {
        append_lines(
            &mut lines,
            section_part("PRESETS:", indented_lines(&r.presets, Paint::Accent, "  - ")),
        );
    }
    let ghost with_presets = line_texts(lines@);
    if !r.choices.is_empty() {
        append_lines(&mut lines, section_part("CHOICES:", choice_lines(&r.choices)));
    }
    let ghost with_choices = line_texts(lines@);
    match &r.last_run {
        Some(run) => append_lines(&mut lines, last_run_part(run)),
        None => {},
    }
    assert(line_texts(lines@) =~= extra_lines(*r));
    lines
}

/// The lines of the details pane for a recipe.
pub fn recipe_lines(r: &Recipe) -> (out: Vec<Vec<Piece>>)
    ensures
        line_texts(out@) == detail_lines(*r),
{
    let mut lines = head_part(r);
    let command_lines = lines_of(r.command.as_str());
    append_lines(&mut lines, indented_lines(&command_lines, Paint::Command, "  "));
    append_lines(&mut lines, extra_part(r));
    lines
}

/// The details pane when nothing is selected.
pub open spec fn no_recipe_lines() -> Seq<Seq<(Seq<char>, Paint)>> {
    seq![single("No recipes found. Add some in ~/.config/pantry/recipes.toml"@, Paint::Plain)]
}

/// The details pane: the recipe under the selection among the positions `filtered`, or a
/// hint when there is none.
pub open spec fn details_view(v: AppView, filtered: Seq<usize>) -> Seq<Seq<(Seq<char>, Paint)>> {
    if v.selected < filtered.len() {
        detail_lines(v.recipes[filtered[v.selected as int] as int])
    } else {
        no_recipe_lines()
    }
}

/// The lines of the details pane, for the recipes shown at the positions `filtered`.
pub fn recipe_details(app: &App, filtered: &Vec<usize>) -> (r: Vec<Vec<Piece>>)
    requires
        forall|k: int| 0 <= k < filtered@.len() ==> #[trigger] filtered@[k] < app@.recipes.len(),
    ensures
        line_texts(r@) == details_view(app@, filtered@),
{
    match app.selected_recipe_index(filtered) {
        Some(idx) => {
            assert(idx == filtered@[app@.selected as int]);
            recipe_lines(&app.recipes()[idx])
        },
        None => {
            let mut lines: Vec<Vec<Piece>> = Vec::new();
            assert(line_texts(lines@) =~= Seq::<Seq<(Seq<char>, Paint)>>::empty());
            push_line(
                &mut lines,
                line1("No recipes found. Add some in ~/.config/pantry/recipes.toml", Paint::Plain),
            );
            assert(line_texts(lines@) =~= no_recipe_lines());
            lines
        },
    }
}

/// `>` for the highlighted row, a space for the others.
pub open spec fn marker(on: bool) -> Seq<char> {
    if on {
        ">"@
    } else {
        " "@
    }
}

/// The title of the prompt.
pub open spec fn prompt_title(action: Action, stage: PromptStage) -> Seq<char> {
    match stage {
        PromptStage::ChoosePreset => match action {
            Action::Run => " Choose preset to run "@,
            Action::Copy { quit_after } => if quit_after {
                " Choose preset to copy and quit "@
            } else {
                " Choose preset to copy "@
            },
        },
        PromptStage::InputValues => match action {
            Action::Run => " Fill placeholders to run "@,
            Action::Copy { quit_after } => if quit_after {
                " Fill placeholders to copy and quit "@
            } else {
                " Fill placeholders to copy "@
            },
        },
    }
}

/// The keys the prompt offers, shown at its bottom.
pub open spec fn prompt_hint(p: PromptView) -> Seq<char> {
    match p.stage {
        PromptStage::ChoosePreset => " Enter select | Esc cancel "@,
        PromptStage::InputValues => if choices_of(p) is Some {
            " Up/down choose | Enter accept | Esc cancel "@
        } else {
            " Enter accept | Esc cancel "@
        },
    }
}

/// The rows of the preset stage: each preset, then the entry for custom values, the
/// highlighted one marked.
pub open spec fn preset_rows(p: PromptView) -> Seq<Seq<char>> {
    Seq::new(
        p.presets.len(),
        |i: int| marker(i == p.selected_preset) + " "@ + p.presets[i],
    ).push(marker(p.selected_preset == p.presets.len()) + " Custom values"@)
}

/// The lines of the preset stage: its rows joined by newlines, then split into lines.
pub open spec fn preset_lines(p: PromptView) -> Seq<Seq<(Seq<char>, Paint)>> {
    text_lines(join(preset_rows(p), "\n"@)).map_values(|l: Seq<char>| raw_pieces(l))
}

/// The value shown for the placeholder at position `idx`: the recorded one before the
/// current placeholder, the highlighted choice or the typed text at it, nothing after it.
pub open spec fn row_value(p: PromptView, idx: int) -> Seq<char> {
    if idx < p.current {
        if p.values.contains_key(p.placeholders[idx]) {
            p.values[p.placeholders[idx]]
        } else {
            seq![]
        }
    } else if idx == p.current {
        match choices_of(p) {
            Some(c) => c[p.choice_index as int],
            None => p.input,
        }
    } else {
        seq![]
    }
}

/// The rows that list the choices of the current placeholder.
pub open spec fn choice_rows(p: PromptView, c: Seq<Seq<char>>) -> Seq<Seq<(Seq<char>, Paint)>> {
    Seq::new(
        c.len(),
        |i: int|
            seq![
                ("    "@, Paint::Plain),
                (marker(i == p.choice_index) + " "@ + c[i], if i == p.choice_index {
                    Paint::Focus
                } else {
                    Paint::Muted
                }),
            ],
    )
}

/// The lines of the placeholder at position `idx`: the current one is highlighted and followed
/// by its choices, if it has any.
pub open spec fn placeholder_rows(p: PromptView, idx: int) -> Seq<Seq<(Seq<char>, Paint)>> {
    let name = p.placeholders[idx];
    if idx == p.current {
        seq![
            seq![
                (marker(true) + " {"@ + name + "}: "@, Paint::FocusBold),
                (row_value(p, idx), Paint::Focus),
            ],
        ] + match choices_of(p) {
            Some(c) => choice_rows(p, c),
            None => seq![],
        }
    } else {
        seq![raw_pieces(marker(false) + " {"@ + name + "}: "@ + row_value(p, idx))]
    }
}

/// The lines of the placeholders before position `n`.
pub open spec fn value_lines(p: PromptView, n: int) -> Seq<Seq<(Seq<char>, Paint)>>
    decreases n,
{
    if n <= 0 {
        seq![]
    } else {
        value_lines(p, n - 1) + placeholder_rows(p, n - 1)
    }
}

/// The lines of the prompt.
pub open spec fn prompt_lines(p: PromptView) -> Seq<Seq<(Seq<char>, Paint)>> {
    match p.stage {
        PromptStage::ChoosePreset => preset_lines(p),
        PromptStage::InputValues => value_lines(p, p.placeholders.len() as int),
    }
}

/// The prompt popup: its size in percent of the screen, its title, its lines and its hint.
pub struct PromptScreen {
    pub width: u16,
    pub height: u16,
    pub title: &'static str,
    pub lines: Vec<Vec<Piece>>,
    pub hint: &'static str,
}

/// The prompt takes 60% by 20% of the screen for the presets and 70% by 40% for the values.
pub open spec fn prompt_size(stage: PromptStage) -> (u16, u16) {
    match stage {
        PromptStage::ChoosePreset => (60, 20),
        PromptStage::InputValues => (70, 40),
    }
}

fn title_of(action: Action, stage: PromptStage) -> (r: &'static str)
    ensures
        r@ == prompt_title(action, stage),
{
    match stage {
        PromptStage::ChoosePreset => match action {
            Action::Run => " Choose preset to run ",
            Action::Copy { quit_after } => if quit_after {
                " Choose preset to copy and quit "
            } else {
                " Choose preset to copy "
            },
        },
        PromptStage::InputValues => match action {
            Action::Run => " Fill placeholders to run ",
            Action::Copy { quit_after } => if quit_after {
                " Fill placeholders to copy and quit "
            } else {
                " Fill placeholders to copy "
            },
        },
    }
}

fn marker_str(on: bool) -> (r: &'static str)
    ensures
        r@ == marker(on),
{
    if on {
        ">"
    } else {
        " "
    }
}

fn preset_part(p: &PromptState) -> (r: Vec<Vec<Piece>>)
    ensures
        line_texts(r@) == preset_lines(p@),
{
    let presets = p.presets();
    let sel = p.selected_preset();
    let mut rows: Vec<String> = Vec::new();
    let n = presets.len();
    let mut i: usize = 0;
    let ghost want = preset_rows(p@);
    while i < n
        invariant
            n == presets@.len(),
            views(presets@) == p@.presets,
            sel == p@.selected_preset,
            want == preset_rows(p@),
            i <= n,
            views(rows@) == want.take(i as int),
        decreases n - i,
    {
        let mut row = String::from_str(marker_str(i == sel));
        row.append(" ");
        row.append(presets[i].as_str());
        let ghost before = views(rows@);
        rows.push(row);
        assert(views(rows@) =~= before.push(row@));
        i = i + 1;
        assert(want.take(i as int) =~= want.take(i - 1).push(want[i - 1]));
    }
    let mut last = String::from_str(marker_str(sel == n));
    last.append(" Custom values");
    let ghost before = views(rows@);
    rows.push(last);
    assert(views(rows@) =~= before.push(last@));
    assert(views(rows@) =~= want);
    let joined = join_strings(&rows, "\n");
    let parts = lines_of(joined.as_str());
    let mut out: Vec<Vec<Piece>> = Vec::new();
    let m = parts.len();
    let mut k: usize = 0;
    let ghost target = preset_lines(p@);
    assert(line_texts(out@) =~= Seq::<Seq<(Seq<char>, Paint)>>::empty());
    while k < m
        invariant
            m == parts@.len(),
            views(parts@) == text_lines(join(want, "\n"@)),
            want == preset_rows(p@),
            target == preset_lines(p@),
            k <= m,
            line_texts(out@) == target.take(k as int),
        decreases m - k,
    {
        push_line(&mut out, raw_line(parts[k].as_str()));
        k = k + 1;
        assert(target.take(k as int) =~= target.take(k - 1).push(target[k - 1]));
    }
    assert(target.take(m as int) =~= target);
    out
}

fn choice_part(p: &PromptState, choices: &Vec<String>) -> (r: Vec<Vec<Piece>>)
    requires
        choices_of(p@) == Some(views(choices@)),
    ensures
        line_texts(r@) == choice_rows(p@, views(choices@)),
{
    let ci = p.choice_index();
    let mut out: Vec<Vec<Piece>> = Vec::new();
    let n = choices.len();
    let mut i: usize = 0;
    let ghost want = choice_rows(p@, views(choices@));
    assert(line_texts(out@) =~= Seq::<Seq<(Seq<char>, Paint)>>::empty());
    while i < n
        invariant
            n == choices@.len(),
            ci == p@.choice_index,
            want == choice_rows(p@, views(choices@)),
            i <= n,
            line_texts(out@) == want.take(i as int),
        decreases n - i,
    {
        let mut text = String::from_str(marker_str(i == ci));
        text.append(" ");
        text.append(choices[i].as_str());
        let paint = if i == ci {
            Paint::Focus
        } else {
            Paint::Muted
        };
        push_line(&mut out, line2("    ", Paint::Plain, text.as_str(), paint));
        i = i + 1;
        assert(want.take(i as int) =~= want.take(i - 1).push(want[i - 1]));
    }
    assert(want.take(n as int) =~= want);
    out
}

fn placeholder_part(p: &PromptState, idx: usize) -> (r: Vec<Vec<Piece>>)
    requires
        idx < p@.placeholders.len(),
        choices_of(p@) matches Some(c) ==> p@.choice_index < c.len(),
    ensures
        line_texts(r@) == placeholder_rows(p@, idx as int),
{
    let name = &p.placeholders()[idx];
    let current = p.current();
    let value: String = if idx < current {
        match p.values().get(name.as_str()) {
            Some(v) => v.clone(),
            None => String::new(),
        }
    } else if idx == current {
        match p.current_choices() {
            Some(c) => c[p.choice_index()].clone(),
            None => owned(p.input()),
        }
    } else {
        String::new()
    };
    assert(value@ == row_value(p@, idx as int));
    let mut label = String::from_str(marker_str(idx == current));
    label.append(" {");
    label.append(name.as_str());
    label.append("}: ");
    let mut out: Vec<Vec<Piece>> = Vec::new();
    assert(line_texts(out@) =~= Seq::<Seq<(Seq<char>, Paint)>>::empty());
    if idx == current {
        push_line(&mut out, line2(label.as_str(), Paint::FocusBold, value.as_str(), Paint::Focus));
        match p.current_choices() {
            Some(c) => append_lines(&mut out, choice_part(p, c)),
            None => {},
        }
    } else {
        label.append(value.as_str());
        push_line(&mut out, raw_line(label.as_str()));
    }
    assert(line_texts(out@) =~= placeholder_rows(p@, idx as int));
    out
}

fn value_part(p: &PromptState) -> (r: Vec<Vec<Piece>>)
    requires
        choices_of(p@) matches Some(c) ==> p@.choice_index < c.len(),
    ensures
        line_texts(r@) == value_lines(p@, p@.placeholders.len() as int),
{
    let n = p.placeholders().len();
    let mut out: Vec<Vec<Piece>> = Vec::new();
    assert(line_texts(out@) =~= Seq::<Seq<(Seq<char>, Paint)>>::empty());
    let mut i: usize = 0;
    while i < n
        invariant
            n == p@.placeholders.len(),
            choices_of(p@) matches Some(c) ==> p@.choice_index < c.len(),
            i <= n,
            line_texts(out@) == value_lines(p@, i as int),
        decreases n - i,
    {
        append_lines(&mut out, placeholder_part(p, i));
        i = i + 1;
    }
    out
}

/// The prompt popup of a prompt.
pub fn render_prompt(p: &PromptState) -> (r: PromptScreen)
    requires
        choices_of(p@) matches Some(c) ==> p@.choice_index < c.len(),
    ensures
        (r.width, r.height) == prompt_size(p@.stage),
        r.title@ == prompt_title(p@.action, p@.stage),
        line_texts(r.lines@) == prompt_lines(p@),
        r.hint@ == prompt_hint(p@),
{
    let stage = p.stage();
    let title = title_of(p.action(), stage);
    match stage {
        PromptStage::ChoosePreset => PromptScreen {
            width: 60,
            height: 20,
            title,
            lines: preset_part(p),
            hint: " Enter select | Esc cancel ",
        },
        PromptStage::InputValues => {
            let hint = if p.current_choices().is_some() {
                " Up/down choose | Enter accept | Esc cancel "
            } else {
                " Enter accept | Esc cancel "
            };
            PromptScreen { width: 70, height: 40, title, lines: value_part(p), hint }
        },
    }
}

/// The prompt popup, when the interface is in the prompt.
pub fn prompt_screen(app: &App) -> (r: Option<PromptScreen>)
    ensures
        match app@.mode {
            ModeView::Prompt(p) => r matches Some(s) && (s.width, s.height) == prompt_size(p.stage)
                && s.title@ == prompt_title(p.action, p.stage) && line_texts(s.lines@)
                == prompt_lines(p) && s.hint@ == prompt_hint(p),
            _ => r is None,
        },
{
    match app.mode() {
        Mode::Prompt(p) => Some(render_prompt(p)),
        _ => None,
    }
}

/// The title of the search box.
pub open spec fn search_title_view(m: ModeView) -> Seq<char> {
    match m {
        ModeView::Normal => " Search (/ to edit) "@,
        ModeView::Search => " Search (Esc to stop editing) "@,
        ModeView::Prompt(_) => " Search "@,
    }
}

/// The title of the search box in a mode.
pub fn search_title(mode: &Mode) -> (r: &'static str)
    ensures
        r@ == search_title_view(mode@),
{
    match mode {
        Mode::Normal => " Search (/ to edit) ",
        Mode::Search => " Search (Esc to stop editing) ",
        Mode::Prompt(_) => " Search ",
    }
}

/// The keys offered in a mode.
pub open spec fn shortcuts_view(m: ModeView) -> Seq<char> {
    match m {
        ModeView::Normal => "Normal: / search | Enter run | y copy | Y copy+quit | r reload | q / Ctrl+C quit"@,
        ModeView::Search => "Search: type filter | Up/Down move | Enter run | Esc stop editing"@,
        ModeView::Prompt(_) => "Prompt: type value | Enter continue | Esc cancel"@,
    }
}

/// The shortcut line of a mode.
pub fn shortcut_text(mode: &Mode) -> (r: &'static str)
    ensures
        r@ == shortcuts_view(mode@),
{
    match mode {
        Mode::Normal => "Normal: / search | Enter run | y copy | Y copy+quit | r reload | q / Ctrl+C quit",
        Mode::Search => "Search: type filter | Up/Down move | Enter run | Esc stop editing",
        Mode::Prompt(_) => "Prompt: type value | Enter continue | Esc cancel",
    }
}

/// The pieces that follow a recipe's name in the list: a space and its tag in brackets, for
/// each tag.
pub open spec fn tag_pieces(tags: Seq<Seq<char>>) -> Seq<(Seq<char>, Paint)>
    decreases tags.len(),
{
    if tags.len() == 0 {
        seq![]
    } else {
        tag_pieces(tags.drop_last()) + seq![
            (" "@, Paint::Plain),
            ("["@ + tags.last() + "]"@, Paint::Accent),
        ]
    }
}

/// The list entry of a recipe: its name, then its tags.
pub open spec fn list_entry(r: Recipe) -> Seq<(Seq<char>, Paint)> {
    single(r.name@, Paint::Plain) + tag_pieces(views(r.tags@))
}

/// The list entry of a recipe.
pub fn list_item(r: &Recipe) -> (out: Vec<Piece>)
    ensures
        piece_texts(out@) == list_entry(*r),
{
    let mut out = line1(r.name.as_str(), Paint::Plain);
    let n = r.tags.len();
    let mut i: usize = 0;
    while i < n
        invariant
            n == r.tags@.len(),
            i <= n,
            piece_texts(out@) == single(r.name@, Paint::Plain) + tag_pieces(
                views(r.tags@).take(i as int),
            ),
        decreases n - i,
    {
        let mut t = String::from_str("[");
        t.append(r.tags[i].as_str());
        t.append("]");
        let ghost before = piece_texts(out@);
        out.push(piece(String::from_str(" "), Paint::Plain));
        out.push(piece(t, Paint::Accent));
        assert(piece_texts(out@) =~= before + seq![(" "@, Paint::Plain), (t@, Paint::Accent)]);
        i = i + 1;
        assert(views(r.tags@).take(i as int).drop_last() =~= views(r.tags@).take(i - 1));
    }
    assert(views(r.tags@).take(n as int) =~= views(r.tags@));
    out
}

/// The list entries of the recipes at the positions `filtered`.
pub fn list_items(app: &App, filtered: &Vec<usize>) -> (r: Vec<Vec<Piece>>)
    requires
        forall|k: int| 0 <= k < filtered@.len() ==> #[trigger] filtered@[k] < app@.recipes.len(),
    ensures
        r@.len() == filtered@.len(),
        forall|k: int|
            0 <= k < r@.len() ==> piece_texts(#[trigger] r@[k]@) == list_entry(
                app@.recipes[filtered@[k] as int],
            ),
{
    let recipes = app.recipes();
    let mut out: Vec<Vec<Piece>> = Vec::new();
    let n = filtered.len();
    let mut i: usize = 0;
    while i < n
        invariant
            n == filtered@.len(),
            recipes@ == app@.recipes,
            forall|k: int| 0 <= k < filtered@.len() ==> #[trigger] filtered@[k] < app@.recipes.len(),
            i <= n,
            out@.len() == i,
            forall|k: int|
                0 <= k < i ==> piece_texts(#[trigger] out@[k]@) == list_entry(
                    app@.recipes[filtered@[k] as int],
                ),
        decreases n - i,
    {
        assert(filtered@[i as int] < app@.recipes.len());
        out.push(list_item(&recipes[filtered[i]]));
        i = i + 1;
    }
    out
}

/// The margin on each side of a centred box that takes `p` percent.
pub fn margin_percent(p: u16) -> (r: u16)
    requires
        p <= 100,
    ensures
        r == (100 - p) / 2,
{
    (100 - p) / 2
}

} // verus!
