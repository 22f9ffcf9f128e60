//! Watching a folder: which files to repair, when, and what is told of it.

use vstd::prelude::*;

verus! {

/// How often a file is looked at before it is taken as it is.
pub const MAX_POLLS: u32 = 10;

/// Waiting for a file to stop growing.
#[derive(Clone, Copy, Debug)]
pub struct Settling {
    last: Option<u64>,
    polls: u32,
}

impl Settling {
    /// The size that was seen last.
    pub closed spec fn last_size(&self) -> Option<u64> {
        self.last
    }

    /// How often the file was looked at.
    pub closed spec fn count(&self) -> int {
        self.polls as int
    }

    /// The file was not looked at yet.
    pub fn new() -> (s: Self)
        ensures
            s.last_size() is None,
            s.count() == 0,
    {
        Settling { last: None, polls: 0 }
    }

    /// Takes in the size that the file has now, if it is still there. Says whether
    /// to repair it, once that can be said: a file that is gone is not repaired,
    /// one that has kept its size is, and so is one that still grows at the end.
    pub fn poll(&mut self, size: Option<u64>) -> (r: Option<bool>)
        requires
            old(self).count() < MAX_POLLS,
        ensures
            r == settles(old(self).last_size(), old(self).count(), size),
            r is None ==> final(self).last_size() == size && final(self).count() == old(
                self,
            ).count() + 1 && final(self).count() < MAX_POLLS,
    {
        match size {
            None => Some(false),
            Some(s) => {
                if s > 0 {
                    if let Some(l) = self.last {
                        if l == s {
                            return Some(true);
                        }
                    }
                }
                self.last = size;
                self.polls = self.polls + 1;
                if self.polls == MAX_POLLS {
                    Some(s > 0)
                } else {
                    None
                }
            },
        }
    }
}

/// Whether to repair a file of this size that was looked at `polls` times before.
pub open spec fn settles(last: Option<u64>, polls: int, size: Option<u64>) -> Option<bool> {
    match size {
        None => Some(false),
        Some(s) => if s > 0 && last == size {
            Some(true)
        } else if polls + 1 == MAX_POLLS {
            Some(s > 0)
        } else {
            None
        },
    }
}

/// What comes of a file whose sizes are `sizes`, one look after the other.
pub open spec fn settled(last: Option<u64>, polls: int, sizes: Seq<Option<u64>>) -> Option<bool>
    decreases sizes.len(),
{
    if sizes.len() == 0 {
        None
    } else {
        let r = settles(last, polls, sizes[0]);
        if r is Some {
            r
        } else {
            settled(sizes[0], polls + 1, sizes.skip(1))
        }
    }
}

/// After the last look it is said whether to repair a file.
pub proof fn law_waiting_ends(last: Option<u64>, polls: int, sizes: Seq<Option<u64>>)
    requires
        0 <= polls < MAX_POLLS,
        sizes.len() + polls >= MAX_POLLS,
    ensures
        settled(last, polls, sizes) is Some,
    decreases sizes.len(),
{
    if settles(last, polls, sizes[0]) is None {
        law_waiting_ends(sizes[0], polls + 1, sizes.skip(1));
    }
}

/// A file that is empty or gone at every look is not repaired.
pub proof fn law_empty_files_are_left(
    last: Option<u64>,
    polls: int,
    sizes: Seq<Option<u64>>,
)
    requires
        0 <= polls < MAX_POLLS,
        forall|i: int|
            0 <= i < sizes.len() ==> #[trigger] sizes[i] is None || sizes[i] == Some(0u64),
    ensures
        settled(last, polls, sizes) != Some(true),
    decreases sizes.len(),
{
    if sizes.len() > 0 && settles(last, polls, sizes[0]) is None {
        assert forall|i: int| 0 <= i < sizes.skip(1).len() implies #[trigger] sizes.skip(1)[i] is None
            || sizes.skip(1)[i] == Some(0u64) by {
            assert(sizes[i + 1] is None || sizes[i + 1] == Some(0u64));
        }
        assert(sizes[0] is None || sizes[0] == Some(0u64));
        law_empty_files_are_left(sizes[0], polls + 1, sizes.skip(1));
    } else if sizes.len() > 0 {
        assert(sizes[0] is None || sizes[0] == Some(0u64));
    }
}

/// The parts of a path, each a name.
pub open spec fn parts_of(path: Vec<Vec<u8>>) -> Seq<Seq<u8>> {
    Seq::new(path@.len(), |i: int| path@[i]@)
}

fn same_bytes(a: &[u8], b: &[u8]) -> (r: bool)
    ensures
        r == (a@ == b@),
{
    if a.len() != b.len() {
        return false;
    }
    let mut i: usize = 0;
    while i < a.len()
        invariant
            i <= a@.len() == b@.len(),
            forall|k: int| 0 <= k < i ==> a@[k] == b@[k],
        decreases a@.len() - i,
    {
        if a[i] != b[i] {
            return false;
        }
        i = i + 1;
    }
    assert(a@ =~= b@);
    true
}

/// Whether the path `b` is `a` or lies below it.
pub fn lies_below(a: &Vec<Vec<u8>>, b: &Vec<Vec<u8>>) -> (r: bool)
    ensures
        r == parts_of(*a).is_prefix_of(parts_of(*b)),
{
    let ghost pa = parts_of(*a);
    let ghost pb = parts_of(*b);
    if a.len() > b.len() {
        return false;
    }
    let mut i: usize = 0;
    while i < a.len()
        invariant
            i <= a@.len() <= b@.len(),
            pa == parts_of(*a),
            pb == parts_of(*b),
            forall|k: int| 0 <= k < i ==> #[trigger] pa[k] == pb[k],
        decreases a@.len() - i,
    {
        if !same_bytes(a[i].as_slice(), b[i].as_slice()) {
            assert(pa[i as int] != pb.subrange(0, pa.len() as int)[i as int]);
            return false;
        }
        i = i + 1;
    }
    assert(pa =~= pb.subrange(0, pa.len() as int));
    true
}

/// Whether two paths are the same.
fn same_path(a: &Vec<Vec<u8>>, b: &Vec<Vec<u8>>) -> (r: bool)
    ensures
        r == (parts_of(*a) == parts_of(*b)),
{
    let r = a.len() == b.len() && lies_below(a, b);
    proof {
        let pb = parts_of(*b);
        assert(pb =~= pb.subrange(0, pb.len() as int));
    }
    r
}

/// The same path once more.
pub fn copy_path(path: &Vec<Vec<u8>>) -> (r: Vec<Vec<u8>>)
    ensures
        parts_of(r) == parts_of(*path),
{
    let mut r: Vec<Vec<u8>> = Vec::new();
    let mut i: usize = 0;
    while i < path.len()
        invariant
            i <= path@.len(),
            r@.len() == i,
            forall|k: int| 0 <= k < i ==> (#[trigger] r@[k])@ == path@[k]@,
        decreases path@.len() - i,
    {
        let mut part: Vec<u8> = Vec::new();
        part.extend_from_slice(path[i].as_slice());
        assert(part@ =~= path@[i as int]@);
        r.push(part);
        i = i + 1;
    }
    assert(parts_of(r) =~= parts_of(*path));
    r
}

/// The files that are being repaired, by their paths.
pub struct Queue {
    busy: Vec<Vec<Vec<u8>>>,
}

impl View for Queue {
    type V = Set<Seq<Seq<u8>>>;

    closed spec fn view(&self) -> Set<Seq<Seq<u8>>> {
        Set::new(
            |p: Seq<Seq<u8>>|
                exists|i: int| 0 <= i < self.busy@.len() && parts_of(#[trigger] self.busy@[i]) == p,
        )
    }
}

impl Queue {
    /// No path is there twice.
    pub closed spec fn wf(&self) -> bool {
        forall|i: int, j: int|
            0 <= i < j < self.busy@.len() ==> parts_of(#[trigger] self.busy@[i]) != parts_of(
                #[trigger] self.busy@[j],
            )
    }

    /// Nothing is being repaired.
    pub fn new() -> (q: Self)
        ensures
            q.wf(),
            q@ == Set::<Seq<Seq<u8>>>::empty(),
    {
        let q = Queue { busy: Vec::new() };
        assert(q@ =~= Set::<Seq<Seq<u8>>>::empty());
        q
    }

    /// Where `path` stands, if it is being repaired.
    fn place(&self, path: &Vec<Vec<u8>>) -> (r: Option<usize>)
        ensures
            r is Some <==> self@.contains(parts_of(*path)),
            r matches Some(i) ==> i < self.busy@.len() && parts_of(self.busy@[i as int])
                == parts_of(*path),
    {
        let mut i: usize = 0;
        while i < self.busy.len()
            invariant
                i <= self.busy@.len(),
                forall|k: int| 0 <= k < i ==> parts_of(#[trigger] self.busy@[k]) != parts_of(*path),
            decreases self.busy@.len() - i,
        {
            if same_path(&self.busy[i], path) {
                assert(parts_of(self.busy@[i as int]) == parts_of(*path));
                return Some(i);
            }
            i = i + 1;
        }
        None
    }

    /// Whether a file is not being repaired yet. If so, it is from now on.
    pub fn admit_file(&mut self, path: &Vec<Vec<u8>>) -> (r: bool)
        requires
            old(self).wf(),
        ensures
            final(self).wf(),
            r == !old(self)@.contains(parts_of(*path)),
            final(self)@ == old(self)@.insert(parts_of(*path)),
    {
        let ghost name = parts_of(*path);
        if self.place(path).is_some() {
            assert(self@ =~= old(self)@.insert(name));
            return false;
        }
        let ghost before = self.busy@;
        self.busy.push(copy_path(path));
        proof {
            assert forall|i: int, j: int| 0 <= i < j < self.busy@.len() implies parts_of(
                #[trigger] self.busy@[i],
            ) != parts_of(#[trigger] self.busy@[j]) by {
                assert(before[i] == self.busy@[i]);
                if j < before.len() {
                    assert(before[j] == self.busy@[j]);
                }
            }
            assert forall|x: Seq<Seq<u8>>| self@.contains(x) <==> old(self)@.insert(name).contains(
                x,
            ) by {
                if x == name {
                    assert(parts_of(self.busy@[before.len() as int]) == x);
                }
                if old(self)@.contains(x) {
                    let i = choose|i: int|
                        0 <= i < before.len() && parts_of(#[trigger] before[i]) == x;
                    assert(parts_of(self.busy@[i]) == x);
                }
                if self@.contains(x) {
                    let i = choose|i: int|
                        0 <= i < self.busy@.len() && parts_of(#[trigger] self.busy@[i]) == x;
                    if i < before.len() {
                        assert(parts_of(before[i]) == x);
                    }
                }
            }
            assert(self@ =~= old(self)@.insert(name));
        }
        true
    }

    /// The file is no longer being repaired.
    pub fn finish(&mut self, path: &Vec<Vec<u8>>)
        requires
            old(self).wf(),
        ensures
            final(self).wf(),
            final(self)@ == old(self)@.remove(parts_of(*path)),
    {
        let ghost name = parts_of(*path);
        match self.place(path) {
            None => {
                assert(self@ =~= old(self)@.remove(name));
            },
            Some(at) => {
                let ghost before = self.busy@;
                let _gone: Vec<Vec<u8>> = self.busy.remove(at);
                proof {
                    let now = self.busy@;
                    assert(now =~= before.remove(at as int));
                    assert forall|i: int, j: int| 0 <= i < j < now.len() implies parts_of(
                        #[trigger] now[i],
                    ) != parts_of(#[trigger] now[j]) by {
                        let i0 = if i < at {
                            i
                        } else {
                            i + 1
                        };
                        let j0 = if j < at {
                            j
                        } else {
                            j + 1
                        };
                        assert(now[i] == before[i0] && now[j] == before[j0]);
                        assert(parts_of(before[i0]) != parts_of(before[j0]));
                    }
                    assert forall|x: Seq<Seq<u8>>| self@.contains(x) <==> old(self)@.remove(
                        name,
                    ).contains(x) by {
                        if self@.contains(x) {
                            let i = choose|i: int|
                                0 <= i < now.len() && parts_of(#[trigger] now[i]) == x;
                            let i0 = if i < at {
                                i
                            } else {
                                i + 1
                            };
                            assert(parts_of(before[i0]) == x);
                            assert(parts_of(before[at as int]) == name);
                        }
                        if old(self)@.contains(x) && x != name {
                            let i = choose|i: int|
                                0 <= i < before.len() && parts_of(#[trigger] before[i]) == x;
                            let i1 = if i < at {
                                i
                            } else {
                                i - 1
                            };
                            assert(parts_of(now[i1]) == x);
                        }
                    }
                    assert(self@ =~= old(self)@.remove(name));
                }
            },
        }
    }
}

/// What the tray says of a file that was watched.
pub open spec fn tooltip_text(ok: bool, name: Seq<char>) -> Seq<char> {
    "Reparador de Videos — "@ + (if ok {
        "reparado"@
    } else {
        "error"@
    }) + ": "@ + name
}

/// What the tray says of a file that was watched.
pub fn result_tooltip(ok: bool, name: &str) -> (r: String)
    ensures
        r@ == tooltip_text(ok, name@),
{
    let mut r: String = String::from_str("Reparador de Videos — ");
    if ok {
        r.append("reparado");
    } else {
        r.append("error");
    }
    r.append(": ");
    r.append(name);
    r
}

/// What the tray says while a folder is watched.
pub fn watching_tooltip(folder: &str) -> (r: String)
    ensures
        r@ == "Vigilando: "@ + folder@,
{
    let mut r: String = String::from_str("Vigilando: ");
    r.append(folder);
    r
}

/// The job that repairs a watched file.
pub fn job_id(name: &str) -> (r: String)
    ensures
        r@ == "watch-"@ + name@,
{
    let mut r: String = String::from_str("watch-");
    r.append(name);
    r
}

/// A file is settled at the first look at which it is gone, or has the size that it had
/// at the look before and is not empty, or that is the tenth. It is repaired unless it
/// is gone or empty then.
pub proof fn law_settled_at_the_first_sign(sizes: Seq<Option<u64>>, k: int)
    requires
        0 <= k < sizes.len(),
        k < 10,
        forall|j: int|
            0 <= j < k ==> (#[trigger] sizes[j]) is Some && (j > 0 ==> sizes[j] != sizes[j - 1]
                || sizes[j] == Some(0u64)),
        sizes[k] is None || k == 9 || (k > 0 && sizes[k] == sizes[k - 1] && sizes[k] != Some(0u64)),
    ensures
        settled(None, 0, sizes) == Some(sizes[k] is Some && sizes[k] != Some(0u64)),
{
    lemma_settled_from(sizes, k, 0);
    assert(sizes.skip(0) =~= sizes);
}

proof fn lemma_settled_from(sizes: Seq<Option<u64>>, k: int, i: int)
    requires
        0 <= i <= k < sizes.len(),
        k < 10,
        forall|j: int|
            0 <= j < k ==> (#[trigger] sizes[j]) is Some && (j > 0 ==> sizes[j] != sizes[j - 1]
                || sizes[j] == Some(0u64)),
        sizes[k] is None || k == 9 || (k > 0 && sizes[k] == sizes[k - 1] && sizes[k] != Some(0u64)),
    ensures
        settled(
            if i == 0 {
                None
            } else {
                sizes[i - 1]
            },
            i,
            sizes.skip(i),
        ) == Some(sizes[k] is Some && sizes[k] != Some(0u64)),
    decreases k - i,
{
    let rest = sizes.skip(i);
    assert(rest[0] == sizes[i]);
    assert(rest.skip(1) =~= sizes.skip(i + 1));
    if i < k {
        assert(sizes[i] is Some);
        lemma_settled_from(sizes, k, i + 1);
    }
}

} // verus!
