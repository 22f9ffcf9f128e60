//! The watched folder as a whole: when watching starts, which of the files that
//! fall into the folder are repaired, and where to.

use crate::repair::{is_own_output, is_repaired_stem, law_repaired_stems_end_alike};
use crate::text::chars_of;
use crate::watch::{copy_path, lies_below, parts_of, watching_tooltip, Queue};
use vstd::prelude::*;
use vstd::utf8::{encode_scalar, encode_utf8};

verus! {

/// The folder that repaired files go to, below the watched one.
pub const RESULTS_NAME: [u8; 9] = [0x72, 0x65, 0x70, 0x61, 0x72, 0x61, 0x64, 0x6f, 0x73];

/// What came of an attempt to watch a folder.
#[derive(Debug)]
pub enum Tried {
    /// There is no such folder.
    NoFolder,
    /// No watcher could be had: the system's words.
    NoWatcher(String),
    /// The watcher did not take the folder: the system's words.
    NotWatched(String),
    /// The folder is watched.
    Watching,
}

/// What the user is told where a folder is not watched.
pub open spec fn refusal(tried: Tried) -> Option<Seq<char>> {
    match tried {
        Tried::NoFolder => Some("La carpeta no existe."@),
        Tried::NoWatcher(e) => Some("No se pudo iniciar el vigilante: "@ + e@),
        Tried::NotWatched(e) => Some("No se pudo vigilar la carpeta: "@ + e@),
        Tried::Watching => None,
    }
}

/// Which folder is watched, if any.
#[derive(Debug)]
pub struct Watched {
    folder: Option<String>,
}

impl View for Watched {
    type V = Option<Seq<char>>;

    closed spec fn view(&self) -> Option<Seq<char>> {
        match self.folder {
            Some(folder) => Some(folder@),
            None => None,
        }
    }
}

impl Watched {
    /// No folder is watched.
    pub fn new() -> (w: Self)
        ensures
            w@ is None,
    {
        Watched { folder: None }
    }

    /// Takes in what came of watching `folder`. Says what the tray shows from now
    /// on. Where the folder is not watched, says why, and whatever was watched
    /// before still is.
    pub fn start(&mut self, folder: &str, tried: &Tried) -> (r: Result<String, String>)
        ensures
            r is Ok <==> *tried is Watching,
            r matches Ok(text) ==> text@ == "Vigilando: "@ + folder@ && final(self)@ == Some(
                folder@,
            ),
            r matches Err(text) ==> refusal(*tried) == Some(text@) && final(self)@ == old(self)@,
    {
        let mut text: String = String::new();
        match tried {
            Tried::NoFolder => {
                text.append("La carpeta no existe.");
                assert(text@ =~= "La carpeta no existe."@);
            },
            Tried::NoWatcher(e) => {
                text.append("No se pudo iniciar el vigilante: ");
                text.append(e.as_str());
                assert(text@ =~= "No se pudo iniciar el vigilante: "@ + e@);
            },
            Tried::NotWatched(e) => {
                text.append("No se pudo vigilar la carpeta: ");
                text.append(e.as_str());
                assert(text@ =~= "No se pudo vigilar la carpeta: "@ + e@);
            },
            Tried::Watching => {
                self.folder = Some(String::from_str(folder));
                return Ok(watching_tooltip(folder));
            },
        }
        Err(text)
    }

    /// No folder is watched any more. Says what the tray shows from now on.
    pub fn stop(&mut self) -> (r: String)
        ensures
            r@ == "Reparador de Videos"@,
            final(self)@ is None,
    {
        self.folder = None;
        String::from_str("Reparador de Videos")
    }
}

/// The path of `name` in `folder`: a slash goes between them unless it is there.
pub open spec fn joined(folder: Seq<char>, name: Seq<char>) -> Seq<char> {
    if folder.len() == 0 || folder.last() == '/' {
        folder + name
    } else {
        folder + "/"@ + name
    }
}

/// The folder that what is repaired in `folder` goes to.
pub fn results_dir(folder: &str) -> (r: String)
    ensures
        r@ == joined(folder@, "reparados"@),
{
    let c: Vec<char> = chars_of(folder);
    let mut r: String = String::from_str(folder);
    if c.len() > 0 && c[c.len() - 1] != '/' {
        r.append("/");
    }
    r.append("reparados");
    r
}

/// What happened to a file.
#[derive(Clone, Copy, Debug, PartialEq, Eq, Structural)]
pub enum Happening {
    /// It came to be.
    Created,
    /// It has changed.
    Modified,
    /// Something else.
    Other,
}

/// Something happened to a file.
#[derive(Debug)]
pub struct Event {
    /// What happened.
    pub happening: Happening,
    /// The parts of the file's path.
    pub path: Vec<Vec<u8>>,
    /// It is a file, and no folder.
    pub is_file: bool,
    /// Its name without what stands behind the last dot, where that is text.
    pub stem: Option<String>,
}

/// What is known of something that happened to a file.
pub struct Sighting {
    /// What happened.
    pub happening: Happening,
    /// The parts of the file's path.
    pub path: Seq<Seq<u8>>,
    /// It is a file, and no folder.
    pub is_file: bool,
    /// Its name without what stands behind the last dot, where that is text.
    pub stem: Option<Seq<char>>,
}

impl View for Event {
    type V = Sighting;

    open spec fn view(&self) -> Sighting {
        Sighting {
            happening: self.happening,
            path: parts_of(self.path),
            is_file: self.is_file,
            stem: match self.stem {
                Some(stem) => Some(stem@),
                None => None,
            },
        }
    }
}

/// Where what is repaired in `folder` goes to, in parts.
pub open spec fn results_in(folder: Seq<Seq<u8>>) -> Seq<Seq<u8>> {
    folder.push(RESULTS_NAME@)
}

/// The part that results go to is the name that its path ends with, as text.
pub proof fn law_results_have_one_name()
    ensures
        RESULTS_NAME@ == encode_utf8("reparados"@),
{
    reveal_strlit("reparados");
    let text = "reparados"@;
    lemma_ascii_encodes(text);
    assert(RESULTS_NAME@ =~= encode_utf8(text));
}

proof fn lemma_ascii_encodes(text: Seq<char>)
    requires
        forall|i: int| 0 <= i < text.len() ==> (#[trigger] text[i]) as u32 <= 0x7f,
    ensures
        encode_utf8(text).len() == text.len(),
        forall|i: int|
            0 <= i < text.len() ==> #[trigger] encode_utf8(text)[i] == text[i] as u32 as u8,
    decreases text.len(),
{
    if text.len() > 0 {
        let c = text[0] as u32;
        let rest = text.drop_first();
        assert forall|i: int| 0 <= i < rest.len() implies (#[trigger] rest[i]) as u32 <= 0x7f by {
            assert(text[i + 1] as u32 <= 0x7f);
        }
        lemma_ascii_encodes(rest);
        assert(c & 0x7f == c) by (bit_vector)
            requires
                c <= 0x7f,
        ;
        assert(encode_scalar(c) =~= seq![c as u8]);
        assert forall|i: int| 0 <= i < text.len() implies #[trigger] encode_utf8(text)[i]
            == text[i] as u32 as u8 by {
            if i > 0 {
                assert(encode_utf8(text)[i] == encode_utf8(rest)[i - 1]);
                assert(rest[i - 1] == text[i]);
            }
        }
    }
}

/// A file is one to repair: it is new or has changed, it was not repaired before,
/// and it does not lie where repaired files go to.
pub open spec fn is_input(folder: Seq<Seq<u8>>, s: Sighting) -> bool {
    &&& s.happening == Happening::Created || s.happening == Happening::Modified
    &&& s.is_file
    &&& !(s.stem matches Some(stem) && is_repaired_stem(stem))
    &&& !results_in(folder).is_prefix_of(s.path)
}

/// What a watched folder sees, one thing after the other.
pub enum Step {
    /// Something happened to a file.
    Seen(Sighting),
    /// The repair of the file at a path is over.
    Over(Seq<Seq<u8>>),
}

/// The files that are being repaired behind `step`, where those of `busy` were
/// before.
pub open spec fn busy_after(
    folder: Seq<Seq<u8>>,
    busy: Set<Seq<Seq<u8>>>,
    step: Step,
) -> Set<Seq<Seq<u8>>> {
    match step {
        Step::Seen(s) => if is_input(folder, s) {
            busy.insert(s.path)
        } else {
            busy
        },
        Step::Over(path) => busy.remove(path),
    }
}

/// A folder that is watched, and what is being repaired of it.
pub struct Watch {
    name: String,
    folder: Vec<Vec<u8>>,
    results: Vec<Vec<u8>>,
    queue: Queue,
}

impl View for Watch {
    type V = Set<Seq<Seq<u8>>>;

    closed spec fn view(&self) -> Set<Seq<Seq<u8>>> {
        self.queue@
    }
}

impl Watch {
    /// Results go below the folder.
    pub closed spec fn wf(&self) -> bool {
        self.queue.wf() && parts_of(self.results) == results_in(parts_of(self.folder))
    }

    /// The folder as it was named.
    pub closed spec fn folder_name(&self) -> Seq<char> {
        self.name@
    }

    /// The folder in parts.
    pub closed spec fn folder(&self) -> Seq<Seq<u8>> {
        parts_of(self.folder)
    }

    /// Starts to watch the folder `name`, whose parts are `folder`: nothing is
    /// being repaired.
    pub fn new(name: &str, folder: Vec<Vec<u8>>) -> (w: Self)
        ensures
            w.wf(),
            w.folder_name() == name@,
            w.folder() == parts_of(folder),
            w@ == Set::<Seq<Seq<u8>>>::empty(),
    {
        let mut last: Vec<u8> = Vec::new();
        last.extend_from_slice(RESULTS_NAME.as_slice());
        assert(last@ =~= RESULTS_NAME@);
        let mut results: Vec<Vec<u8>> = copy_path(&folder);
        let ghost before = results;
        results.push(last);
        proof {
            assert forall|i: int| 0 <= i < results@.len() implies parts_of(results)[i]
                == results_in(parts_of(folder))[i] by {
                if i < before@.len() {
                    assert(parts_of(before)[i] == parts_of(folder)[i]);
                }
            }
            assert(parts_of(before).len() == parts_of(folder).len());
            assert(parts_of(results) =~= results_in(parts_of(folder)));
        }
        Watch { name: String::from_str(name), folder, results, queue: Queue::new() }
    }

    /// Takes in that something happened to a file. If it is to be repaired, says
    /// which folder it goes to.
    pub fn take_event(&mut self, e: &Event) -> (r: Option<String>)
        requires
            old(self).wf(),
        ensures
            final(self).wf(),
            final(self).folder_name() == old(self).folder_name(),
            final(self).folder() == old(self).folder(),
            r is Some <==> is_input(old(self).folder(), e@) && !old(self)@.contains(e@.path),
            r matches Some(dir) ==> dir@ == joined(old(self).folder_name(), "reparados"@),
            final(self)@ == busy_after(old(self).folder(), old(self)@, Step::Seen(e@)),
    {
        match e.happening {
            Happening::Created => {},
            Happening::Modified => {},
            Happening::Other => {
                return None;
            },
        }
        let own: bool = match &e.stem {
            Some(stem) => is_own_output(Some(stem.as_str())),
            None => false,
        };
        if !e.is_file || own || lies_below(&self.results, &e.path) {
            return None;
        }
        if self.queue.admit_file(&e.path) {
            Some(results_dir(self.name.as_str()))
        } else {
            None
        }
    }

    /// The repair of the file at `path` is over, whatever came of it.
    pub fn take_end(&mut self, path: &Vec<Vec<u8>>)
        requires
            old(self).wf(),
        ensures
            final(self).wf(),
            final(self).folder_name() == old(self).folder_name(),
            final(self).folder() == old(self).folder(),
            final(self)@ == busy_after(old(self).folder(), old(self)@, Step::Over(parts_of(*path))),
    {
        self.queue.finish(path);
    }
}

/// The files that are being repaired after all of `steps`.
pub open spec fn busy_at_end(folder: Seq<Seq<u8>>, steps: Seq<Step>) -> Set<Seq<Seq<u8>>>
    decreases steps.len(),
{
    if steps.len() == 0 {
        Set::empty()
    } else {
        busy_after(folder, busy_at_end(folder, steps.drop_last()), steps.last())
    }
}

/// The repair of the file at `path` starts at step `k`.
pub open spec fn starts(
    folder: Seq<Seq<u8>>,
    steps: Seq<Step>,
    k: int,
    path: Seq<Seq<u8>>,
) -> bool {
    &&& 0 <= k < steps.len()
    &&& steps[k] matches Step::Seen(s) && s.path == path && is_input(folder, s)
    &&& !busy_at_end(folder, steps.take(k)).contains(path)
}

/// A repair of the file at `path` started before step `k` and is not over by then.
pub open spec fn in_progress(
    folder: Seq<Seq<u8>>,
    steps: Seq<Step>,
    k: int,
    path: Seq<Seq<u8>>,
) -> bool {
    exists|j: int|
        0 <= j < k && #[trigger] starts(folder, steps, j, path) && forall|m: int|
            j < m < k ==> #[trigger] steps[m] != Step::Over(path)
}

proof fn lemma_busy(folder: Seq<Seq<u8>>, steps: Seq<Step>, k: int, path: Seq<Seq<u8>>)
    requires
        0 <= k <= steps.len(),
    ensures
        busy_at_end(folder, steps.take(k)).contains(path) <==> in_progress(folder, steps, k, path),
    decreases k,
{
    if k > 0 {
        let last = steps[k - 1];
        assert(steps.take(k).drop_last() =~= steps.take(k - 1));
        assert(steps.take(k).last() == last);
        lemma_busy(folder, steps, k - 1, path);
        let before = busy_at_end(folder, steps.take(k - 1)).contains(path);
        if last != Step::Over(path) {
            if before {
                let j = choose|j: int|
                    0 <= j < k - 1 && #[trigger] starts(folder, steps, j, path) && forall|m: int|
                        j < m < k - 1 ==> #[trigger] steps[m] != Step::Over(path);
                assert(starts(folder, steps, j, path));
                assert(in_progress(folder, steps, k, path));
            } else {
                if busy_at_end(folder, steps.take(k)).contains(path) {
                    assert(starts(folder, steps, k - 1, path));
                    assert(in_progress(folder, steps, k, path));
                }
                if in_progress(folder, steps, k, path) {
                    let j = choose|j: int|
                        0 <= j < k && #[trigger] starts(folder, steps, j, path) && forall|m: int|
                            j < m < k ==> #[trigger] steps[m] != Step::Over(path);
                    if j < k - 1 {
                        assert(in_progress(folder, steps, k - 1, path));
                    }
                }
            }
        } else if in_progress(folder, steps, k, path) {
            let j = choose|j: int|
                0 <= j < k && #[trigger] starts(folder, steps, j, path) && forall|m: int|
                    j < m < k ==> #[trigger] steps[m] != Step::Over(path);
            assert(steps[k - 1] != Step::Over(path));
        }
    }
}

/// Whatever falls into a watched folder is repaired: whenever a file comes to be or
/// changes, its repair starts, unless it was repaired before, lies where repaired
/// files go to, or is being repaired already.
pub proof fn law_what_falls_in_is_repaired(
    folder: Seq<Seq<u8>>,
    steps: Seq<Step>,
    k: int,
    s: Sighting,
)
    requires
        0 <= k < steps.len(),
        steps[k] == Step::Seen(s),
    ensures
        starts(folder, steps, k, s.path) <==> is_input(folder, s) && !in_progress(
            folder,
            steps,
            k,
            s.path,
        ),
{
    lemma_busy(folder, steps, k, s.path);
}

/// No file is repaired twice at a time: between two starts of one file's repair, the
/// first is over.
pub proof fn law_repairs_of_a_file_take_turns(
    folder: Seq<Seq<u8>>,
    steps: Seq<Step>,
    j: int,
    k: int,
    path: Seq<Seq<u8>>,
)
    requires
        j < k,
        starts(folder, steps, j, path),
        starts(folder, steps, k, path),
    ensures
        exists|m: int| j < m < k && #[trigger] steps[m] == Step::Over(path),
{
    lemma_busy(folder, steps, k, path);
    if forall|m: int| j < m < k ==> #[trigger] steps[m] != Step::Over(path) {
        assert(in_progress(folder, steps, k, path));
    }
}

/// What lies where repaired files go to is never taken for a file to repair.
pub proof fn law_results_are_left(folder: Seq<Seq<u8>>, s: Sighting, rest: Seq<Seq<u8>>)
    requires
        s.path == results_in(folder) + rest,
    ensures
        !is_input(folder, s),
{
    let results = results_in(folder);
    assert(results =~= s.path.subrange(0, results.len() as int));
}

/// What changes is taken as what comes to be, and nothing that happens otherwise is.
pub proof fn law_changes_count(folder: Seq<Seq<u8>>, s: Sighting, t: Sighting)
    requires
        s.happening == Happening::Created,
        s.path == t.path,
        s.is_file == t.is_file,
        s.stem == t.stem,
    ensures
        t.happening == Happening::Modified ==> is_input(folder, t) == is_input(folder, s),
        t.happening == Happening::Other ==> !is_input(folder, t),
{
}

/// A new file below the folder is one to repair, unless the name of the part below the
/// folder is that of results or its stem ends as that of a repaired file. A folder is
/// none.
pub proof fn law_new_files_are_repaired(folder: Seq<Seq<u8>>, s: Sighting, rest: Seq<Seq<u8>>)
    requires
        s.happening == Happening::Created,
        s.path == folder + rest,
        rest.len() > 0,
        rest[0] != encode_utf8("reparados"@),
    ensures
        !s.is_file ==> !is_input(folder, s),
        s.is_file && s.stem is None ==> is_input(folder, s),
        s.is_file ==> (s.stem matches Some(stem) ==> is_input(folder, s) == (stem.len() < 9
            || stem.skip(stem.len() - 9) != "_reparado"@)),
{
    law_results_have_one_name();
    let results = results_in(folder);
    assert(s.path[folder.len() as int] == rest[0]);
    if results.is_prefix_of(s.path) {
        assert(results[folder.len() as int] == RESULTS_NAME@);
        assert(s.path.subrange(0, results.len() as int)[folder.len() as int] == rest[0]);
    }
    if let Some(stem) = s.stem {
        law_repaired_stems_end_alike(stem);
    }
}

} // verus!
