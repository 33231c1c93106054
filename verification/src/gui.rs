//! The window: which renderers are tried, and in what order.

use vstd::prelude::*;

verus! {

/// A set of graphics backends to try.
#[derive(Debug, PartialEq, Eq, Clone, Copy)]
pub enum Backend {
    /// What the user chose.
    Chosen,
    /// The primary backends, and GL.
    PrimaryGl,
    /// GL only.
    GlOnly,
    /// The primary backends.
    Primary,
}

/// How many adapters each candidate has.
#[derive(Debug, PartialEq, Eq, Clone, Copy)]
pub struct Adapters {
    pub primary_gl: usize,
    pub gl_only: usize,
    pub primary: usize,
}

/// A backend as a list, if it has adapters.
pub open spec fn usable(backend: Backend, adapters: usize) -> Seq<Backend> {
    if adapters > 0 {
        seq![backend]
    } else {
        Seq::empty()
    }
}

/// The candidates that have adapters, in the order of preference.
pub open spec fn available(a: Adapters) -> Seq<Backend> {
    usable(Backend::PrimaryGl, a.primary_gl) + usable(Backend::GlOnly, a.gl_only) + usable(
        Backend::Primary,
        a.primary,
    )
}

/// Keeps the candidates that have adapters.
pub fn probe_available_backends(a: Adapters) -> (r: Vec<Backend>)
    ensures
        r@ == available(a),
{
    let mut out: Vec<Backend> = Vec::new();
    if a.primary_gl > 0 {
        out.push(Backend::PrimaryGl);
    }
    if a.gl_only > 0 {
        out.push(Backend::GlOnly);
    }
    if a.primary > 0 {
        out.push(Backend::Primary);
    }
    assert(out@ =~= available(a));
    out
}

/// The backends that are tried: what the user chose and nothing else, or
/// whatever is available.
pub open spec fn to_try(chosen: bool, probed: Seq<Backend>) -> Seq<Backend> {
    if chosen {
        seq![Backend::Chosen]
    } else {
        probed
    }
}

/// Decides which backends are tried.
pub fn backend_attempts(chosen: bool, probed: Vec<Backend>) -> (r: Vec<Backend>)
    ensures
        r@ == to_try(chosen, probed@),
{
    if chosen {
        let one = vec![Backend::Chosen];
        assert(one@ =~= seq![Backend::Chosen]);
        one
    } else {
        probed
    }
}

/// What is done about the window next.
#[derive(Debug, PartialEq, Eq, Clone, Copy)]
pub enum GuiStep {
    /// Open it with the attempt of this number.
    Try(usize),
    /// Open it with the software renderer.
    Fallback,
    /// It was open, and is closed.
    Finished,
}

/// What is done next, with `done` attempts behind: the next attempt, or where
/// there is none the software renderer.
pub open spec fn next_try(done: nat, attempts: nat) -> GuiStep {
    if done < attempts {
        GuiStep::Try(done as usize)
    } else {
        GuiStep::Fallback
    }
}

/// Begins to open the window with a number of attempts.
pub fn run_gui(attempts: usize) -> (r: GuiStep)
    ensures
        r == next_try(0, attempts as nat),
{
    if attempts > 0 {
        GuiStep::Try(0)
    } else {
        GuiStep::Fallback
    }
}

/// Goes on after an attempt: one that opened the window ends the matter, one
/// that failed is followed by the next.
pub fn gui_next(attempt: usize, attempts: usize, opened: bool) -> (r: GuiStep)
    requires
        attempt < attempts,
    ensures
        r == if opened {
            GuiStep::Finished
        } else {
            next_try(attempt as nat + 1, attempts as nat)
        },
{
    if opened {
        GuiStep::Finished
    } else if attempt + 1 < attempts {
        GuiStep::Try(attempt + 1)
    } else {
        GuiStep::Fallback
    }
}

/// Where opening the window gets to, from an attempt on, when each attempt
/// opens the window or not.
pub open spec fn gui_outcome(from: nat, opens: Seq<bool>) -> GuiStep
    decreases opens.len() - from,
{
    match next_try(from, opens.len()) {
        GuiStep::Try(_) => if opens[from as int] {
            GuiStep::Finished
        } else {
            gui_outcome(from + 1, opens)
        },
        step => step,
    }
}

/// The window opens with the first attempt that works; the software renderer
/// is used exactly where none does.
pub proof fn law_fallback_only_after_all_attempts(from: nat, opens: Seq<bool>)
    requires
        from <= opens.len(),
    ensures
        gui_outcome(from, opens) == (if exists|i: int| from <= i < opens.len() && #[trigger] opens[i] {
            GuiStep::Finished
        } else {
            GuiStep::Fallback
        }),
    decreases opens.len() - from,
{
    if from < opens.len() {
        if opens[from as int] {
            assert(exists|i: int| from <= i < opens.len() && #[trigger] opens[i]);
        } else {
            law_fallback_only_after_all_attempts(from + 1, opens);
        }
    }
}

/// The path that the window is asked to open: the given one, in its canonical
/// form if it has one. Whether it is a directory is not asked here.
pub open spec fn opened_dir(
    path: Option<Seq<char>>,
    canonical: Option<Seq<char>>,
) -> Option<Seq<char>> {
    match path {
        Some(given) => match canonical {
            Some(c) => Some(c),
            None => Some(given),
        },
        None => None,
    }
}

/// Takes the canonical form of a path where there is one.
pub fn resolved_path(path: Option<String>, canonical: Option<String>) -> (r: Option<String>)
    ensures
        r.deep_view() == opened_dir(path.deep_view(), canonical.deep_view()),
{
    match path {
        Some(given) => match canonical {
            Some(c) => Some(c),
            None => Some(given),
        },
        None => None,
    }
}

/// Keeps a path that is a directory.
pub fn initial_path(path: Option<String>, is_dir: bool) -> (r: Option<String>)
    ensures
        r == if is_dir {
            path
        } else {
            None
        },
{
    if is_dir {
        path
    } else {
        None
    }
}

/// A backend is available exactly where it has adapters. The primary backends
/// with GL come first, and those without it last.
pub proof fn law_backends_with_adapters_are_available(a: Adapters)
    ensures
        available(a).contains(Backend::PrimaryGl) <==> a.primary_gl > 0,
        available(a).contains(Backend::GlOnly) <==> a.gl_only > 0,
        available(a).contains(Backend::Primary) <==> a.primary > 0,
        !available(a).contains(Backend::Chosen),
        available(a).no_duplicates(),
        a.primary_gl > 0 ==> available(a)[0] == Backend::PrimaryGl,
        a.primary > 0 ==> available(a).last() == Backend::Primary,
{
    let r = available(a);
    let i: int = if a.primary_gl > 0 {
        1
    } else {
        0
    };
    if a.primary_gl > 0 {
        assert(r[0] == Backend::PrimaryGl);
    }
    if a.gl_only > 0 {
        assert(r[i] == Backend::GlOnly);
    }
    if a.primary > 0 {
        assert(r[r.len() - 1] == Backend::Primary);
    }
}

/// A choice of the user's is the only backend that is tried; without one, all
/// that were found are, in order.
pub proof fn law_the_chosen_backend_is_tried_alone(probed: Seq<Backend>)
    ensures
        to_try(true, probed) == seq![Backend::Chosen],
        to_try(false, probed) == probed,
{
}

/// Attempts are made one after the other, and the software renderer comes after
/// the last of them.
pub proof fn law_attempts_follow_each_other(done: nat, attempts: nat)
    requires
        attempts <= usize::MAX,
    ensures
        done < attempts ==> next_try(done, attempts) == GuiStep::Try(done as usize),
        next_try(done, attempts) is Fallback <==> done >= attempts,
        !(next_try(done, attempts) is Finished),
{
}

/// A path is opened in its canonical form, or as it was given where it has none.
/// Without a path nothing is opened.
pub proof fn law_canonical_form_is_preferred(given: Seq<char>, canonical: Option<Seq<char>>)
    ensures
        canonical is Some ==> opened_dir(Some(given), canonical) == canonical,
        canonical is None ==> opened_dir(Some(given), canonical) == Some(given),
        opened_dir(None, canonical) is None,
{
}

} // verus!
