//! What a second start of the program does, and what closing its window does.

use crate::repair::{path_argument, path_from};
use crate::text::stands_at;
use vstd::prelude::*;

verus! {

/// Something to do to the running program.
#[derive(Debug, PartialEq, Eq)]
pub enum Action {
    /// Tells the page of the window something.
    Emit {
        /// What it is about.
        event: String,
        /// What is told.
        payload: String,
    },
    /// Shows a window.
    Show(String),
    /// Puts a window in front.
    Focus(String),
    /// Hides a window.
    Hide(String),
    /// Does not let a window be closed.
    KeepOpen,
}

/// Something to do to the running program.
pub enum Deed {
    /// Tells the page of the window something: what it is about, and what is told.
    Emit(Seq<char>, Seq<char>),
    /// Shows a window.
    Show(Seq<char>),
    /// Puts a window in front.
    Focus(Seq<char>),
    /// Hides a window.
    Hide(Seq<char>),
    /// Does not let a window be closed.
    KeepOpen,
}

impl View for Action {
    type V = Deed;

    open spec fn view(&self) -> Deed {
        match self {
            Action::Emit { event, payload } => Deed::Emit(event@, payload@),
            Action::Show(window) => Deed::Show(window@),
            Action::Focus(window) => Deed::Focus(window@),
            Action::Hide(window) => Deed::Hide(window@),
            Action::KeepOpen => Deed::KeepOpen,
        }
    }
}

/// What is to be done, one after the other.
pub open spec fn deeds(actions: Seq<Action>) -> Seq<Deed> {
    Seq::new(actions.len(), |i: int| actions[i]@)
}

/// Brings the window back.
pub open spec fn showing() -> Seq<Deed> {
    seq![Deed::Show("main"@), Deed::Focus("main"@)]
}

/// What a second start of the program with `args` does: the file that it was asked
/// to open goes to the running program, whose window comes back.
pub open spec fn second_start_of(args: Seq<String>) -> Seq<Deed> {
    match path_from(args, 1) {
        Some(i) => seq![Deed::Emit("open-file"@, args[i]@)] + showing(),
        None => showing(),
    }
}

/// What a second start of the program does. The first of `args` is the program.
pub fn second_start(args: &Vec<String>) -> (r: Vec<Action>)
    ensures
        deeds(r@) == second_start_of(args@),
{
    let mut r: Vec<Action> = Vec::new();
    if let Some(i) = path_argument(args) {
        r.push(
            Action::Emit { event: String::from_str("open-file"), payload: args[i].clone() },
        );
    }
    r.push(Action::Show(String::from_str("main")));
    r.push(Action::Focus(String::from_str("main")));
    assert(deeds(r@) =~= second_start_of(args@));
    r
}

/// What closing the window `label` does: the main window is only hidden.
pub fn close_window(label: &str) -> (r: Vec<Action>)
    ensures
        deeds(r@) == if label@ == "main"@ {
            seq![Deed::KeepOpen, Deed::Hide("main"@)]
        } else {
            Seq::<Deed>::empty()
        },
{
    let mut r: Vec<Action> = Vec::new();
    if String::from_str(label) == String::from_str("main") {
        r.push(Action::KeepOpen);
        r.push(Action::Hide(String::from_str("main")));
        assert(deeds(r@) =~= seq![Deed::KeepOpen, Deed::Hide("main"@)]);
    } else {
        assert(deeds(r@) =~= Seq::<Deed>::empty());
    }
    r
}

proof fn lemma_path_from(args: Seq<String>, i: int)
    requires
        0 <= i,
    ensures
        ({
            let r = path_from(args, i);
            let end = match r {
                Some(k) => k,
                None => args.len() as int,
            };
            &&& r matches Some(k) ==> i <= k < args.len() && !stands_at(args[k]@, "-"@, 0)
            &&& forall|j: int| i <= j < end ==> stands_at((#[trigger] args[j])@, "-"@, 0)
        }),
    decreases args.len() - i,
{
    if i < args.len() && stands_at(args[i]@, "-"@, 0) {
        lemma_path_from(args, i + 1);
    }
}

/// A second start passes on the first argument behind the program's name that does
/// not start with a hyphen, if there is one, and then brings the window back. It
/// does nothing else.
pub proof fn law_second_start_passes_the_file_on(args: Seq<String>)
    ensures
        ({
            let done = second_start_of(args);
            let n = done.len();
            &&& n == 2 || n == 3
            &&& done[n - 2] == Deed::Show("main"@)
            &&& done[n - 1] == Deed::Focus("main"@)
            &&& n == 3 <==> exists|i: int|
                1 <= i < args.len() && !stands_at((#[trigger] args[i])@, "-"@, 0)
            &&& n == 3 ==> exists|i: int|
                1 <= i < args.len() && !stands_at((#[trigger] args[i])@, "-"@, 0) && (forall|j: int|
                    1 <= j < i ==> stands_at((#[trigger] args[j])@, "-"@, 0)) && done[0]
                    == Deed::Emit("open-file"@, args[i]@)
        }),
{
    lemma_path_from(args, 1);
    let done = second_start_of(args);
    match path_from(args, 1) {
        Some(i) => {
            assert(!stands_at(args[i]@, "-"@, 0));
            assert(done[0] == Deed::Emit("open-file"@, args[i]@));
        },
        None => {},
    }
}

} // verus!
