//! The clipboard programs to try, and in which order.
use vstd::prelude::*;
use crate::text::text_eq;

verus! {

/// A clipboard program and the arguments it takes to read the text from its input.
#[derive(Clone, Copy)]
pub struct CommandProvider {
    program: &'static str,
    args: &'static [&'static str],
}

/// The arguments of a command provider, as texts.
pub open spec fn arg_texts(args: Seq<&'static str>) -> Seq<Seq<char>> {
    args.map_values(|a: &'static str| a@)
}

/// The arguments each known clipboard program is run with.
pub open spec fn args_for(program: Seq<char>) -> Seq<Seq<char>> {
    if program == "xclip"@ {
        seq!["-selection"@, "clipboard"@]
    } else if program == "xsel"@ {
        seq!["--clipboard"@, "--input"@]
    } else {
        seq![]
    }
}

impl CommandProvider {
    /// The program.
    pub closed spec fn program_text(&self) -> Seq<char> {
        self.program@
    }

    /// The arguments.
    pub closed spec fn arg_list(&self) -> Seq<Seq<char>> {
        arg_texts(self.args@)
    }

    /// The program to run.
    pub fn program(&self) -> (r: &'static str)
        ensures
            r@ == self.program_text(),
    {
        self.program
    }

    /// The arguments to run it with.
    pub fn args(&self) -> (r: &'static [&'static str])
        ensures
            arg_texts(r@) == self.arg_list(),
    {
        self.args
    }

    fn wl_copy() -> (r: CommandProvider)
        ensures
            r.program_text() == "wl-copy"@,
            r.arg_list() == args_for("wl-copy"@),
    {
        let r = CommandProvider { program: "wl-copy", args: &[] };
        assert(r.args@.len() == 0);
        assert("wl-copy"@ != "xclip"@) by {
            reveal_strlit("wl-copy");
            reveal_strlit("xclip");
            assert("wl-copy"@[0] != "xclip"@[0]);
        }
        assert("wl-copy"@ != "xsel"@) by {
            reveal_strlit("wl-copy");
            reveal_strlit("xsel");
            assert("wl-copy"@[0] != "xsel"@[0]);
        }
        assert(r.arg_list() =~= args_for("wl-copy"@));
        r
    }

    fn xclip() -> (r: CommandProvider)
        ensures
            r.program_text() == "xclip"@,
            r.arg_list() == args_for("xclip"@),
    {
        let r = CommandProvider { program: "xclip", args: &["-selection", "clipboard"] };
        assert(r.arg_list() =~= args_for("xclip"@));
        r
    }

    fn xsel() -> (r: CommandProvider)
        ensures
            r.program_text() == "xsel"@,
            r.arg_list() == args_for("xsel"@),
    {
        let r = CommandProvider { program: "xsel", args: &["--clipboard", "--input"] };
        assert("xsel"@ != "xclip"@) by {
            reveal_strlit("xclip");
            reveal_strlit("xsel");
            assert("xsel"@.len() != "xclip"@.len());
        }
        assert(r.arg_list() =~= args_for("xsel"@));
        r
    }

    fn pbcopy() -> (r: CommandProvider)
        ensures
            r.program_text() == "pbcopy"@,
            r.arg_list() == args_for("pbcopy"@),
    {
        let r = CommandProvider { program: "pbcopy", args: &[] };
        assert(r.args@.len() == 0);
        assert("pbcopy"@ != "xclip"@) by {
            reveal_strlit("pbcopy");
            reveal_strlit("xclip");
            assert("pbcopy"@[0] != "xclip"@[0]);
        }
        assert("pbcopy"@ != "xsel"@) by {
            reveal_strlit("pbcopy");
            reveal_strlit("xsel");
            assert("pbcopy"@[0] != "xsel"@[0]);
        }
        assert(r.arg_list() =~= args_for("pbcopy"@));
        r
    }
}

/// The programs of a list of providers.
pub open spec fn programs(v: Seq<CommandProvider>) -> Seq<Seq<char>> {
    v.map_values(|p: CommandProvider| p.program_text())
}

/// `s` with every text that occurred earlier left out.
pub open spec fn first_occurrences(s: Seq<Seq<char>>) -> Seq<Seq<char>>
    decreases s.len(),
{
    if s.len() == 0 {
        seq![]
    } else {
        let prev = first_occurrences(s.drop_last());
        if prev.contains(s.last()) {
            prev
        } else {
            prev.push(s.last())
        }
    }
}

/// The programs to consider, in order of preference, before leaving out repeats: `wl-copy`
/// under Wayland, `xclip` and `xsel` under X11, then `pbcopy`, `wl-copy`, `xclip` and `xsel`.
pub open spec fn preferred_programs(wayland: bool, x11: bool) -> Seq<Seq<char>> {
    (if wayland {
        seq!["wl-copy"@]
    } else {
        seq![]
    }) + (if x11 {
        seq!["xclip"@, "xsel"@]
    } else {
        seq![]
    }) + seq!["pbcopy"@, "wl-copy"@, "xclip"@, "xsel"@]
}

/// Adds `provider` to `candidates` unless a provider with the same program is there.
pub fn push_candidate(candidates: &mut Vec<CommandProvider>, provider: CommandProvider)
    ensures
        programs(old(candidates)@).contains(provider.program_text()) ==> final(candidates)@ == old(
            candidates,
        )@,
        !programs(old(candidates)@).contains(provider.program_text()) ==> final(candidates)@
            == old(candidates)@.push(provider),
{
    let n = candidates.len();
    let mut i: usize = 0;
    while i < n
        invariant
            n == candidates@.len(),
            i <= n,
            forall|k: int| 0 <= k < i ==> programs(candidates@)[k] != provider.program_text(),
        decreases n - i,
    {
        if text_eq(candidates[i].program(), provider.program()) {
            assert(programs(candidates@)[i as int] == provider.program_text());
            return;
        }
        i = i + 1;
    }
    candidates.push(provider);
}

/// The clipboard programs to try, in order of preference, each once; `wayland` and `x11` say
/// whether a Wayland or an X11 display is set.
pub fn command_candidates(wayland: bool, x11: bool) -> (r: Vec<CommandProvider>)
    ensures
        programs(r@) == first_occurrences(preferred_programs(wayland, x11)),
        forall|i: int|
            0 <= i < r@.len() ==> (#[trigger] r@[i]).arg_list() == args_for(r@[i].program_text()),
{
    let mut candidates: Vec<CommandProvider> = Vec::new();
    let ghost mut pref: Seq<Seq<char>> = seq![];
    assert(programs(candidates@) =~= first_occurrences(pref));
    if wayland {
        consider(&mut candidates, CommandProvider::wl_copy(), Ghost(pref));
        proof {
            pref = pref.push("wl-copy"@);
        }
    }
    if x11 {
        consider(&mut candidates, CommandProvider::xclip(), Ghost(pref));
        proof {
            pref = pref.push("xclip"@);
        }
        consider(&mut candidates, CommandProvider::xsel(), Ghost(pref));
        proof {
            pref = pref.push("xsel"@);
        }
    }
    consider(&mut candidates, CommandProvider::pbcopy(), Ghost(pref));
    proof {
        pref = pref.push("pbcopy"@);
    }
    consider(&mut candidates, CommandProvider::wl_copy(), Ghost(pref));
    proof {
        pref = pref.push("wl-copy"@);
    }
    consider(&mut candidates, CommandProvider::xclip(), Ghost(pref));
    proof {
        pref = pref.push("xclip"@);
    }
    consider(&mut candidates, CommandProvider::xsel(), Ghost(pref));
    proof {
        pref = pref.push("xsel"@);
        assert(pref =~= preferred_programs(wayland, x11));
    }
    candidates
}

/// `push_candidate`, keeping track of the programs considered so far.
fn consider(candidates: &mut Vec<CommandProvider>, provider: CommandProvider, Ghost(pref): Ghost<
    Seq<Seq<char>>,
>)
    requires
        programs(old(candidates)@) == first_occurrences(pref),
        forall|i: int|
            0 <= i < old(candidates)@.len() ==> (#[trigger] old(candidates)@[i]).arg_list()
                == args_for(old(candidates)@[i].program_text()),
        provider.arg_list() == args_for(provider.program_text()),
    ensures
        programs(final(candidates)@) == first_occurrences(pref.push(provider.program_text())),
        forall|i: int|
            0 <= i < final(candidates)@.len() ==> (#[trigger] final(candidates)@[i]).arg_list()
                == args_for(final(candidates)@[i].program_text()),
{
    let ghost before = candidates@;
    push_candidate(candidates, provider);
    assert(pref.push(provider.program_text()).drop_last() =~= pref);
    proof {
        if !programs(before).contains(provider.program_text()) {
            assert(programs(candidates@) =~= programs(before).push(provider.program_text()));
        }
    }
}

/// The first candidate whose program is available; `available[i]` says whether the program
/// of `candidates[i]` was found.
pub fn detect_command_provider(candidates: &Vec<CommandProvider>, available: &Vec<bool>) -> (r:
    Option<CommandProvider>)
    requires
        available@.len() == candidates@.len(),
    ensures
        r is None <==> forall|i: int| 0 <= i < available@.len() ==> !available@[i],
        r matches Some(p) ==> exists|i: int|
            0 <= i < candidates@.len() && available@[i] && candidates@[i] == p && forall|k: int|
                0 <= k < i ==> !available@[k],
{
    let n = candidates.len();
    let mut i: usize = 0;
    while i < n
        invariant
            n == candidates@.len(),
            n == available@.len(),
            i <= n,
            forall|k: int| 0 <= k < i ==> !available@[k],
        decreases n - i,
    {
        if available[i] {
            return Some(candidates[i]);
        }
        i = i + 1;
    }
    None
}

} // verus!
