//! Receiving-session registries for directed state consumers: which
//! watches fire, with what event depth, and which bound cells refresh when a
//! source session flushes its writes or goes away. A write and a watch
//! interact when one path is an ancestor of (or equal to) the other,
//! segment by segment and ignoring ASCII case. Snapshots, cells and
//! callback dispatch stay with the session runtime.

use vstd::prelude::*;
use vstd::string::StrSliceExecFns;

verus! {

/// A character with ASCII letters folded to lower case, as a code point.
pub open spec fn ascii_fold(c: char) -> u32 {
    if 'A' <= c && c <= 'Z' {
        (c as u32 + 32) as u32
    } else {
        c as u32
    }
}

/// Equality of two strings up to ASCII case.
pub open spec fn eq_ignore_ascii_case_spec(a: Seq<char>, b: Seq<char>) -> bool {
    a.len() == b.len() && forall|i: int| 0 <= i < a.len() ==> ascii_fold(#[trigger] a[i]) == ascii_fold(b[i])
}

/// Two store paths are comparable when their shared-length prefixes agree
/// segment by segment up to ASCII case: one is an ancestor of the other.
pub open spec fn spec_paths_comparable(left: Seq<String>, right: Seq<String>) -> bool {
    forall|i: int|
        0 <= i < left.len() && i < right.len() ==> eq_ignore_ascii_case_spec(#[trigger] left[i]@, right[i]@)
}

fn fold_char(c: char) -> (r: u32)
    ensures
        r == ascii_fold(c),
{
    let v = c as u32;
    if 'A' <= c && c <= 'Z' {
        v + 32
    } else {
        v
    }
}

/// Whether two strings are equal up to ASCII case.
pub fn eq_ignore_ascii_case(a: &str, b: &str) -> (r: bool)
    ensures
        r == eq_ignore_ascii_case_spec(a@, b@),
{
    let n = a.unicode_len();
    if n != b.unicode_len() {
        return false;
    }
    let mut i: usize = 0;
    while i < n
        invariant
            n == a@.len(),
            n == b@.len(),
            i <= n,
            forall|j: int| 0 <= j < i ==> ascii_fold(#[trigger] a@[j]) == ascii_fold(b@[j]),
        decreases n - i,
    {
        if fold_char(a.get_char(i)) != fold_char(b.get_char(i)) {
            return false;
        }
        i += 1;
    }
    true
}

/// Whether a write at one path concerns a consumer of the other: the
/// shared-length prefixes agree segment by segment, ignoring ASCII case.
pub fn paths_comparable(left: &[String], right: &[String]) -> (r: bool)
    ensures
        r == spec_paths_comparable(left@, right@),
{
    let common = if left.len() < right.len() { left.len() } else { right.len() };
    let mut i: usize = 0;
    while i < common
        invariant
            common <= left@.len(),
            common <= right@.len(),
            common == left@.len() || common == right@.len(),
            i <= common,
            forall|j: int| 0 <= j < i ==> eq_ignore_ascii_case_spec(#[trigger] left@[j]@, right@[j]@),
        decreases common - i,
    {
        if !eq_ignore_ascii_case(left[i].as_str(), right[i].as_str()) {
            return false;
        }
        i += 1;
    }
    true
}

/// Comparability does not depend on which path is the write's.
pub proof fn lemma_paths_comparable_symmetric(left: Seq<String>, right: Seq<String>)
    ensures
        spec_paths_comparable(left, right) == spec_paths_comparable(right, left),
{
    if spec_paths_comparable(left, right) {
        assert forall|i: int| 0 <= i < right.len() && i < left.len() implies eq_ignore_ascii_case_spec(
            #[trigger] right[i]@,
            left[i]@,
        ) by {
            assert(eq_ignore_ascii_case_spec(left[i]@, right[i]@));
            assert forall|k: int| 0 <= k < right[i]@.len() implies ascii_fold(#[trigger] right[i]@[k]) == ascii_fold(
                left[i]@[k],
            ) by {
                assert(ascii_fold(left[i]@[k]) == ascii_fold(right[i]@[k]));
            }
        }
    }
    if spec_paths_comparable(right, left) {
        assert forall|i: int| 0 <= i < left.len() && i < right.len() implies eq_ignore_ascii_case_spec(
            #[trigger] left[i]@,
            right[i]@,
        ) by {
            assert(eq_ignore_ascii_case_spec(right[i]@, left[i]@));
            assert forall|k: int| 0 <= k < left[i]@.len() implies ascii_fold(#[trigger] left[i]@[k]) == ascii_fold(
                right[i]@[k],
            ) by {
                assert(ascii_fold(right[i]@[k]) == ascii_fold(left[i]@[k]));
            }
        }
    }
}

/// A path is comparable with every path below it: an ancestor's write
/// reaches a watch on a descendant, and the other way round.
pub proof fn lemma_ancestor_comparable(ancestor: Seq<String>, descendant: Seq<String>)
    requires
        ancestor.len() <= descendant.len(),
        forall|i: int| 0 <= i < ancestor.len() ==> #[trigger] ancestor[i]@ == descendant[i]@,
    ensures
        spec_paths_comparable(ancestor, descendant),
        spec_paths_comparable(descendant, ancestor),
{
    assert forall|i: int| 0 <= i < ancestor.len() && i < descendant.len() implies eq_ignore_ascii_case_spec(
        #[trigger] ancestor[i]@,
        descendant[i]@,
    ) by {
        assert(ancestor[i]@ == descendant[i]@);
    }
    lemma_paths_comparable_symmetric(ancestor, descendant);
}

// ----------------------------------------------------------------------
// The registry
// ----------------------------------------------------------------------

/// A directed watch: the source session and the producer and path it
/// follows, the isolate and callback it reports to, and whether it fires
/// once per flush (coalesced) or once per write.
#[derive(Debug, Clone)]
pub struct RemoteWatcher<P, I> {
    pub source: u64,
    pub producer: P,
    pub path: Vec<String>,
    pub isolate: I,
    pub function_id: u64,
    pub coalesced: bool,
}

/// A cell bound to a source session's state at a path.
#[derive(Debug, Clone)]
pub struct RemoteBinding<P> {
    pub id: u32,
    pub source: u64,
    pub producer: P,
    pub path: Vec<String>,
}

/// One write of a source flush: who wrote where, at what event depth.
#[derive(Debug, Clone)]
pub struct PublishedWrite<P> {
    pub producer: P,
    pub path: Vec<String>,
    pub depth: u32,
}

/// A callback a flush owes: a per-write watch for one write, or a coalesced
/// watch once, each with the event depth it runs at.
#[derive(Debug, Clone, Copy, PartialEq, Eq, Structural)]
pub enum Delivery {
    PerWrite { watcher: usize, write: usize, depth: u32 },
    Coalesced { watcher: usize, depth: u32 },
}

/// Whether `write` reaches state `producer` holds at `path`.
pub open spec fn write_reaches<P>(write: PublishedWrite<P>, producer: P, path: Seq<String>) -> bool {
    write.producer == producer && spec_paths_comparable(write.path@, path)
}

/// The per-write deliveries of watcher `i` over the first `n` writes: one
/// for each write that reaches it below the depth cap, in write order.
pub open spec fn per_write_deliveries<P, I>(
    i: usize,
    w: RemoteWatcher<P, I>,
    writes: Seq<PublishedWrite<P>>,
    max_depth: u32,
    n: int,
) -> Seq<Delivery>
    decreases n,
{
    if n <= 0 {
        Seq::empty()
    } else {
        let rest = per_write_deliveries(i, w, writes, max_depth, n - 1);
        let wr = writes[n - 1];
        if write_reaches(wr, w.producer, w.path@) && wr.depth < max_depth {
            rest.push(Delivery::PerWrite { watcher: i, write: (n - 1) as usize, depth: (wr.depth + 1) as u32 })
        } else {
            rest
        }
    }
}

/// The least depth among the first `n` writes that reach `producer` at
/// `path`.
pub open spec fn least_depth<P>(writes: Seq<PublishedWrite<P>>, producer: P, path: Seq<String>, n: int) -> Option<u32>
    decreases n,
{
    if n <= 0 {
        None
    } else {
        let rest = least_depth(writes, producer, path, n - 1);
        let wr = writes[n - 1];
        if write_reaches(wr, producer, path) {
            match rest {
                Some(d) => Some(if wr.depth < d { wr.depth } else { d }),
                None => Some(wr.depth),
            }
        } else {
            rest
        }
    }
}

/// What watcher `i` is owed by a flush of `source`: nothing from another
/// source; per write, a delivery for each reaching write below the cap;
/// coalesced, one delivery at the least reaching depth, below the cap.
pub open spec fn watcher_deliveries<P, I>(
    i: usize,
    slot: Option<RemoteWatcher<P, I>>,
    source: u64,
    writes: Seq<PublishedWrite<P>>,
    max_depth: u32,
) -> Seq<Delivery> {
    match slot {
        None => Seq::empty(),
        Some(w) => if w.source != source {
            Seq::empty()
        } else if !w.coalesced {
            per_write_deliveries(i, w, writes, max_depth, writes.len() as int)
        } else {
            match least_depth(writes, w.producer, w.path@, writes.len() as int) {
                Some(d) => if d < max_depth {
                    seq![Delivery::Coalesced { watcher: i, depth: (d + 1) as u32 }]
                } else {
                    Seq::empty()
                },
                None => Seq::empty(),
            }
        },
    }
}

proof fn lemma_least_depth_is_least<P>(writes: Seq<PublishedWrite<P>>, producer: P, path: Seq<String>, n: int)
    requires
        0 <= n <= writes.len(),
    ensures
        least_depth(writes, producer, path, n) is None <==> forall|j: int|
            0 <= j < n ==> !write_reaches(#[trigger] writes[j], producer, path),
        least_depth(writes, producer, path, n) matches Some(d) ==> {
            &&& exists|j: int| 0 <= j < n && write_reaches(#[trigger] writes[j], producer, path) && writes[j].depth == d
            &&& forall|j: int| 0 <= j < n && write_reaches(#[trigger] writes[j], producer, path) ==> d <= writes[j].depth
        },
    decreases n,
{
    if n > 0 {
        lemma_least_depth_is_least(writes, producer, path, n - 1);
        let wr = writes[n - 1];
        if write_reaches(wr, producer, path) {
            if let Some(d) = least_depth(writes, producer, path, n - 1) {
                let j = choose|j: int| 0 <= j < n - 1 && write_reaches(#[trigger] writes[j], producer, path)
                    && writes[j].depth == d;
                assert(0 <= j < n && write_reaches(writes[j], producer, path));
            }
        }
    }
}

/// A coalesced watch of the flushing source is called once, at one more
/// than the least depth among the writes that reach it, whenever some
/// reaching write is below the depth cap; otherwise (no reaching write, or
/// all at or past the cap) it is not called.
pub proof fn lemma_coalesced_delivery<P, I>(
    i: usize,
    w: RemoteWatcher<P, I>,
    writes: Seq<PublishedWrite<P>>,
    max_depth: u32,
)
    requires
        w.coalesced,
    ensures
        (exists|j: int|
            0 <= j < writes.len() && write_reaches(#[trigger] writes[j], w.producer, w.path@) && writes[j].depth
                < max_depth) ==> {
            let ds = watcher_deliveries(i, Some(w), w.source, writes, max_depth);
            &&& ds.len() == 1
            &&& ds[0] matches Delivery::Coalesced { watcher, depth }
            &&& watcher == i
            &&& exists|j: int|
                0 <= j < writes.len() && write_reaches(#[trigger] writes[j], w.producer, w.path@) && depth
                    == writes[j].depth + 1
            &&& forall|j: int|
                0 <= j < writes.len() && write_reaches(#[trigger] writes[j], w.producer, w.path@) ==> depth
                    <= writes[j].depth + 1
        },
        (forall|j: int|
            0 <= j < writes.len() && write_reaches(#[trigger] writes[j], w.producer, w.path@) ==> writes[j].depth
                >= max_depth) ==> watcher_deliveries(i, Some(w), w.source, writes, max_depth).len() == 0,
{
    lemma_least_depth_is_least(writes, w.producer, w.path@, writes.len() as int);
    if let Some(d) = least_depth(writes, w.producer, w.path@, writes.len() as int) {
        let j = choose|j: int| 0 <= j < writes.len() && write_reaches(#[trigger] writes[j], w.producer, w.path@)
            && writes[j].depth == d;
        assert(write_reaches(writes[j], w.producer, w.path@));
    }
}

/// The deliveries the first `n` watchers are owed, in watcher order.
pub open spec fn spec_deliveries<P, I>(
    watchers: Seq<Option<RemoteWatcher<P, I>>>,
    source: u64,
    writes: Seq<PublishedWrite<P>>,
    max_depth: u32,
    n: int,
) -> Seq<Delivery>
    decreases n,
{
    if n <= 0 {
        Seq::empty()
    } else {
        spec_deliveries(watchers, source, writes, max_depth, n - 1) + watcher_deliveries(
            (n - 1) as usize,
            watchers[n - 1],
            source,
            writes,
            max_depth,
        )
    }
}

/// Whether any of `writes` reaches `producer` at `path`.
pub open spec fn any_reaches<P>(writes: Seq<PublishedWrite<P>>, producer: P, path: Seq<String>) -> bool {
    exists|j: int| 0 <= j < writes.len() && write_reaches(#[trigger] writes[j], producer, path)
}

/// The ids of the first `n` bindings to `source` that satisfy `touched`.
pub open spec fn bindings_where<P>(
    bindings: Seq<RemoteBinding<P>>,
    source: u64,
    writes: Seq<PublishedWrite<P>>,
    all: bool,
    n: int,
) -> Seq<u32>
    decreases n,
{
    if n <= 0 {
        Seq::empty()
    } else {
        let rest = bindings_where(bindings, source, writes, all, n - 1);
        let b = bindings[n - 1];
        if b.source == source && (all || any_reaches(writes, b.producer, b.path@)) {
            rest.push(b.id)
        } else {
            rest
        }
    }
}

/// The coalesced watchers of `source` among the first `n`, by index.
pub open spec fn coalesced_of<P, I>(watchers: Seq<Option<RemoteWatcher<P, I>>>, source: u64, n: int) -> Seq<usize>
    decreases n,
{
    if n <= 0 {
        Seq::empty()
    } else {
        let rest = coalesced_of(watchers, source, n - 1);
        match watchers[n - 1] {
            Some(w) => if w.source == source && w.coalesced {
                rest.push((n - 1) as usize)
            } else {
                rest
            },
            None => rest,
        }
    }
}

/// The directed watches and bindings of one receiving session.
pub struct RemoteStateRegistry<P, I> {
    watchers: Vec<Option<RemoteWatcher<P, I>>>,
    bindings: Vec<RemoteBinding<P>>,
}

impl<P: PartialEq + Clone, I: PartialEq> RemoteStateRegistry<P, I> {
    /// The watch slots, by token.
    pub closed spec fn watchers_view(&self) -> Seq<Option<RemoteWatcher<P, I>>> {
        self.watchers@
    }

    /// The bindings, oldest first.
    pub closed spec fn bindings_view(&self) -> Seq<RemoteBinding<P>> {
        self.bindings@
    }

    /// A registry with no watch and no binding.
    pub fn new() -> (r: Self)
        ensures
            r.watchers_view() == Seq::<Option<RemoteWatcher<P, I>>>::empty(),
            r.bindings_view() == Seq::<RemoteBinding<P>>::empty(),
    {
        RemoteStateRegistry { watchers: Vec::new(), bindings: Vec::new() }
    }

    /// Register a watch; its token is its slot (saturating at `u32::MAX`).
    pub fn watch(&mut self, watcher: RemoteWatcher<P, I>) -> (token: u32)
        ensures
            final(self).watchers_view() == old(self).watchers_view().push(Some(watcher)),
            final(self).bindings_view() == old(self).bindings_view(),
            token == if old(self).watchers_view().len() <= u32::MAX {
                old(self).watchers_view().len() as u32
            } else {
                u32::MAX
            },
    {
        self.watchers.push(Some(watcher));
        let index = self.watchers.len() - 1;
        if index <= 0xffff_ffff {
            index as u32
        } else {
            u32::MAX
        }
    }

    /// Drop a watch by its token, if that slot still holds a watch of the
    /// same isolate; anything else is left alone.
    pub fn unwatch(&mut self, token: u32, isolate: &I)
        requires
            vstd::laws_eq::obeys_concrete_eq::<I>(),
        ensures
            final(self).bindings_view() == old(self).bindings_view(),
            ({
                let t = token as int;
                if t < old(self).watchers_view().len() && (old(self).watchers_view()[t] matches Some(w) && w.isolate
                    == *isolate) {
                    final(self).watchers_view() == old(self).watchers_view().update(t, None)
                } else {
                    final(self).watchers_view() == old(self).watchers_view()
                }
            }),
    {
        proof {
            reveal(vstd::laws_eq::obeys_concrete_eq);
        }
        let index = token as usize;
        if index < self.watchers.len() {
            let same = match &self.watchers[index] {
                Some(w) => w.isolate == *isolate,
                None => false,
            };
            if same {
                self.watchers.set(index, None);
            }
        }
    }

    /// The binding already made for `source`'s `producer` at `path`
    /// (segments compared ignoring ASCII case), if any: binding twice hands
    /// out the same cell.
    pub fn find_binding(&self, source: u64, producer: &P, path: &[String]) -> (r: Option<u32>)
        requires
            vstd::laws_eq::obeys_concrete_eq::<P>(),
        ensures
            match r {
                Some(id) => exists|k: int|
                    0 <= k < self.bindings_view().len() && #[trigger] self.bindings_view()[k].id == id && same_key(
                        self.bindings_view()[k],
                        source,
                        *producer,
                        path@,
                    ),
                None => forall|k: int|
                    0 <= k < self.bindings_view().len() ==> !same_key(#[trigger] self.bindings_view()[k], source, *producer, path@),
            },
            r == bound_id(self.bindings_view(), source, *producer, path@),
    {
        proof {
            reveal(vstd::laws_eq::obeys_concrete_eq);
        }
        let mut k: usize = 0;
        while k < self.bindings.len()
            invariant
                vstd::laws_eq::obeys_concrete_eq::<P>(),
                k <= self.bindings@.len(),
                forall|j: int| 0 <= j < k ==> !same_key(#[trigger] self.bindings@[j], source, *producer, path@),
                bound_id(self.bindings@, source, *producer, path@) == first_bound_from(
                    self.bindings@,
                    source,
                    *producer,
                    path@,
                    k as int,
                ),
            decreases self.bindings@.len() - k,
        {
            proof {
                reveal(vstd::laws_eq::obeys_concrete_eq);
            }
            let b = &self.bindings[k];
            if b.source == source && b.producer == *producer && same_segments(b.path.as_slice(), path) {
                proof {
                    assert(same_key(self.bindings_view()[k as int], source, *producer, path@));
                    assert(self.bindings_view()[k as int].id == b.id);
                }
                return Some(b.id);
            }
            k += 1;
        }
        None
    }

    /// Record a new binding under the id the shared cell table gave it.
    pub fn add_binding(&mut self, binding: RemoteBinding<P>)
        ensures
            final(self).bindings_view() == old(self).bindings_view().push(binding),
            final(self).watchers_view() == old(self).watchers_view(),
    {
        self.bindings.push(binding);
    }

    /// The cell for `source`'s `producer` at `path`: the one already bound
    /// for that key (paths compared ignoring ASCII case), or a new binding
    /// under the id `allocate` hands out from the shared cell table.
    pub fn bind<A: FnOnce() -> u32>(&mut self, source: u64, producer: P, path: Vec<String>, allocate: A) -> (r: u32)
        requires
            vstd::laws_eq::obeys_concrete_eq::<P>(),
            allocate.requires(()),
        ensures
            final(self).watchers_view() == old(self).watchers_view(),
            binds_to(old(self).bindings_view(), final(self).bindings_view(), source, producer, path, r),
            bound_id(old(self).bindings_view(), source, producer, path@) is None ==> allocate.ensures((), r),
            bound_id(final(self).bindings_view(), source, producer, path@) == Some(r),
    {
        match self.find_binding(source, &producer, path.as_slice()) {
            Some(id) => id,
            None => {
                let id = allocate();
                let ghost before = self.bindings@;
                let binding = RemoteBinding { id, source, producer, path };
                proof {
                    assert forall|i: int| 0 <= i < binding.path@.len() implies eq_ignore_ascii_case_spec(
                        #[trigger] binding.path@[i]@,
                        binding.path@[i]@,
                    ) by {}
                    lemma_first_bound_push(before, binding, source, binding.producer, binding.path@, 0);
                }
                self.bindings.push(binding);
                id
            },
        }
    }

    /// What a flush of `source` owes: the callbacks, in watcher order (per
    /// write in write order), and the bindings to refresh (those of
    /// `source` that some write reaches). Writes at or past the depth cap
    /// fire nothing.
    pub fn deliver(&self, source: u64, writes: &[PublishedWrite<P>], max_depth: u32) -> (r: (Vec<Delivery>, Vec<u32>))
        requires
            vstd::laws_eq::obeys_concrete_eq::<P>(),
        ensures
            r.0@ == spec_deliveries(self.watchers_view(), source, writes@, max_depth, self.watchers_view().len() as int),
            r.1@ == bindings_where(self.bindings_view(), source, writes@, false, self.bindings_view().len() as int),
    {
        let mut out: Vec<Delivery> = Vec::new();
        let mut i: usize = 0;
        while i < self.watchers.len()
            invariant
                vstd::laws_eq::obeys_concrete_eq::<P>(),
                i <= self.watchers@.len(),
                out@ == spec_deliveries(self.watchers@, source, writes@, max_depth, i as int),
            decreases self.watchers@.len() - i,
        {
            let ghost before = out@;
            match &self.watchers[i] {
                None => {},
                Some(w) => {
                    if w.source == source {
                        if !w.coalesced {
                            let mut j: usize = 0;
                            while j < writes.len()
                                invariant
                                    vstd::laws_eq::obeys_concrete_eq::<P>(),
                                    j <= writes@.len(),
                                    out@ == before + per_write_deliveries(i, *w, writes@, max_depth, j as int),
                                decreases writes@.len() - j,
                            {
                                proof {
                                    reveal(vstd::laws_eq::obeys_concrete_eq);
                                }
                                let wr = &writes[j];
                                if wr.producer == w.producer && paths_comparable(wr.path.as_slice(), w.path.as_slice())
                                    && wr.depth < max_depth {
                                    out.push(Delivery::PerWrite { watcher: i, write: j, depth: wr.depth + 1 });
                                    proof {
                                        assert(out@ =~= before + per_write_deliveries(i, *w, writes@, max_depth, j + 1));
                                    }
                                }
                                j += 1;
                            }
                        } else {
                            let least = least_reaching_depth(writes, &w.producer, w.path.as_slice());
                            match least {
                                Some(d) => {
                                    if d < max_depth {
                                        out.push(Delivery::Coalesced { watcher: i, depth: d + 1 });
                                    }
                                },
                                None => {},
                            }
                        }
                    }
                },
            }
            proof {
                assert(out@ =~= spec_deliveries(self.watchers@, source, writes@, max_depth, i + 1));
            }
            i += 1;
        }
        let refresh = self.bindings_touched(source, writes, false);
        (out, refresh)
    }

    fn bindings_touched(&self, source: u64, writes: &[PublishedWrite<P>], all: bool) -> (r: Vec<u32>)
        requires
            vstd::laws_eq::obeys_concrete_eq::<P>(),
        ensures
            r@ == bindings_where(self.bindings@, source, writes@, all, self.bindings@.len() as int),
    {
        let mut out: Vec<u32> = Vec::new();
        let mut k: usize = 0;
        while k < self.bindings.len()
            invariant
                vstd::laws_eq::obeys_concrete_eq::<P>(),
                k <= self.bindings@.len(),
                out@ == bindings_where(self.bindings@, source, writes@, all, k as int),
            decreases self.bindings@.len() - k,
        {
            let b = &self.bindings[k];
            if b.source == source && (all || any_write_reaches(writes, &b.producer, b.path.as_slice())) {
                out.push(b.id);
            }
            k += 1;
        }
        out
    }

    /// What a source session's departure owes: each coalesced watch of it
    /// observes the now-absent snapshot once (per-write watches stay quiet:
    /// a departure is not a write), and every binding to it clears.
    pub fn source_destroyed(&self, source: u64) -> (r: (Vec<usize>, Vec<u32>))
        requires
            vstd::laws_eq::obeys_concrete_eq::<P>(),
        ensures
            r.0@ == coalesced_of(self.watchers_view(), source, self.watchers_view().len() as int),
            r.1@ == bindings_where(self.bindings_view(), source, Seq::empty(), true, self.bindings_view().len() as int),
    {
        let mut out: Vec<usize> = Vec::new();
        let mut i: usize = 0;
        while i < self.watchers.len()
            invariant
                i <= self.watchers@.len(),
                out@ == coalesced_of(self.watchers@, source, i as int),
            decreases self.watchers@.len() - i,
        {
            match &self.watchers[i] {
                Some(w) => {
                    if w.source == source && w.coalesced {
                        out.push(i);
                    }
                },
                None => {},
            }
            i += 1;
        }
        let none: Vec<PublishedWrite<P>> = Vec::new();
        let cleared = self.bindings_touched(source, none.as_slice(), true);
        (out, cleared)
    }
}

/// A binding's key matches: same source and producer, paths equal segment
/// by segment ignoring ASCII case.
pub open spec fn same_key<P>(b: RemoteBinding<P>, source: u64, producer: P, path: Seq<String>) -> bool {
    &&& b.source == source
    &&& b.producer == producer
    &&& b.path@.len() == path.len()
    &&& forall|i: int| 0 <= i < path.len() ==> eq_ignore_ascii_case_spec(#[trigger] b.path@[i]@, path[i]@)
}

/// The id of the first binding from the `k`th on whose key matches.
pub open spec fn first_bound_from<P>(
    bindings: Seq<RemoteBinding<P>>,
    source: u64,
    producer: P,
    path: Seq<String>,
    k: int,
) -> Option<u32>
    decreases bindings.len() - k,
{
    if k < 0 || k >= bindings.len() {
        None
    } else if same_key(bindings[k], source, producer, path) {
        Some(bindings[k].id)
    } else {
        first_bound_from(bindings, source, producer, path, k + 1)
    }
}

/// The cell already bound for `source`'s `producer` at `path` (segments
/// compared ignoring ASCII case): the oldest matching binding's id.
pub open spec fn bound_id<P>(bindings: Seq<RemoteBinding<P>>, source: u64, producer: P, path: Seq<String>) -> Option<u32> {
    first_bound_from(bindings, source, producer, path, 0)
}

/// Two paths name the same state: equal segment by segment ignoring
/// ASCII case.
pub open spec fn same_path(a: Seq<String>, b: Seq<String>) -> bool {
    a.len() == b.len() && forall|i: int| 0 <= i < a.len() ==> eq_ignore_ascii_case_spec(#[trigger] a[i]@, b[i]@)
}

/// `after` (handing out `r`) is what binding `source`'s `producer` at
/// `path` makes of the bindings `before`: the cell already bound for the
/// key, bindings unchanged, or a new binding under the fresh id `r`.
pub open spec fn binds_to<P>(
    before: Seq<RemoteBinding<P>>,
    after: Seq<RemoteBinding<P>>,
    source: u64,
    producer: P,
    path: Vec<String>,
    r: u32,
) -> bool {
    match bound_id(before, source, producer, path@) {
        Some(id) => r == id && after == before,
        None => after == before.push(RemoteBinding { id: r, source, producer, path }),
    }
}

proof fn lemma_first_bound_push<P>(
    bs: Seq<RemoteBinding<P>>,
    b: RemoteBinding<P>,
    source: u64,
    producer: P,
    path: Seq<String>,
    k: int,
)
    requires
        0 <= k <= bs.len(),
    ensures
        first_bound_from(bs, source, producer, path, k) is Some ==> first_bound_from(bs.push(b), source, producer, path, k)
            == first_bound_from(bs, source, producer, path, k),
        first_bound_from(bs, source, producer, path, k) is None && same_key(b, source, producer, path)
            ==> first_bound_from(bs.push(b), source, producer, path, k) == Some(b.id),
    decreases bs.len() - k,
{
    if k < bs.len() {
        assert(bs.push(b)[k] == bs[k]);
        lemma_first_bound_push(bs, b, source, producer, path, k + 1);
    } else {
        assert(bs.push(b)[k] == b);
    }
}

proof fn lemma_first_bound_same_path<P>(
    bs: Seq<RemoteBinding<P>>,
    source: u64,
    producer: P,
    p1: Seq<String>,
    p2: Seq<String>,
    k: int,
)
    requires
        same_path(p1, p2),
    ensures
        first_bound_from(bs, source, producer, p1, k) == first_bound_from(bs, source, producer, p2, k),
    decreases bs.len() - k,
{
    if 0 <= k < bs.len() {
        lemma_first_bound_same_path(bs, source, producer, p1, p2, k + 1);
        let b = bs[k];
        if same_key(b, source, producer, p1) {
            assert forall|i: int| 0 <= i < p2.len() implies eq_ignore_ascii_case_spec(#[trigger] b.path@[i]@, p2[i]@) by {
                assert(eq_ignore_ascii_case_spec(b.path@[i]@, p1[i]@));
                assert(eq_ignore_ascii_case_spec(p1[i]@, p2[i]@));
            }
        }
        if same_key(b, source, producer, p2) {
            assert forall|i: int| 0 <= i < p1.len() implies eq_ignore_ascii_case_spec(#[trigger] b.path@[i]@, p1[i]@) by {
                assert(eq_ignore_ascii_case_spec(b.path@[i]@, p2[i]@));
                assert(eq_ignore_ascii_case_spec(p1[i]@, p2[i]@));
            }
        }
    }
}

/// Binding twice hands out the same cell: a second bind of the same source
/// and producer, at the same path up to ASCII case, finds the cell the
/// first one handed out and adds no binding.
pub proof fn lemma_bind_twice<P>(
    b0: Seq<RemoteBinding<P>>,
    b1: Seq<RemoteBinding<P>>,
    b2: Seq<RemoteBinding<P>>,
    source: u64,
    producer: P,
    path: Vec<String>,
    again: Vec<String>,
    r1: u32,
    r2: u32,
)
    requires
        binds_to(b0, b1, source, producer, path, r1),
        same_path(path@, again@),
        binds_to(b1, b2, source, producer, again, r2),
    ensures
        r2 == r1,
        b2 == b1,
{
    lemma_first_bound_same_path(b1, source, producer, path@, again@, 0);
    if bound_id(b0, source, producer, path@) is None {
        let nb = RemoteBinding { id: r1, source, producer, path };
        assert forall|i: int| 0 <= i < path@.len() implies eq_ignore_ascii_case_spec(#[trigger] nb.path@[i]@, path@[i]@) by {}
        lemma_first_bound_push(b0, nb, source, producer, path@, 0);
    }
}

fn same_segments(a: &[String], b: &[String]) -> (r: bool)
    ensures
        r == (a@.len() == b@.len() && forall|i: int| 0 <= i < b@.len() ==> eq_ignore_ascii_case_spec(#[trigger] a@[i]@, b@[i]@)),
{
    if a.len() != b.len() {
        return false;
    }
    let mut i: usize = 0;
    while i < a.len()
        invariant
            a@.len() == b@.len(),
            i <= a@.len(),
            forall|j: int| 0 <= j < i ==> eq_ignore_ascii_case_spec(#[trigger] a@[j]@, b@[j]@),
        decreases a@.len() - i,
    {
        if !eq_ignore_ascii_case(a[i].as_str(), b[i].as_str()) {
            return false;
        }
        i += 1;
    }
    true
}

fn any_write_reaches<P: PartialEq>(writes: &[PublishedWrite<P>], producer: &P, path: &[String]) -> (r: bool)
    requires
        vstd::laws_eq::obeys_concrete_eq::<P>(),
    ensures
        r == any_reaches(writes@, *producer, path@),
{
    proof {
        reveal(vstd::laws_eq::obeys_concrete_eq);
    }
    let mut j: usize = 0;
    while j < writes.len()
        invariant
            vstd::laws_eq::obeys_concrete_eq::<P>(),
            j <= writes@.len(),
            forall|k: int| 0 <= k < j ==> !write_reaches(#[trigger] writes@[k], *producer, path@),
        decreases writes@.len() - j,
    {
        proof {
            reveal(vstd::laws_eq::obeys_concrete_eq);
        }
        let wr = &writes[j];
        if wr.producer == *producer && paths_comparable(wr.path.as_slice(), path) {
            proof {
                assert(write_reaches(writes@[j as int], *producer, path@));
            }
            return true;
        }
        j += 1;
    }
    false
}

fn least_reaching_depth<P: PartialEq>(writes: &[PublishedWrite<P>], producer: &P, path: &[String]) -> (r: Option<u32>)
    requires
        vstd::laws_eq::obeys_concrete_eq::<P>(),
    ensures
        r == least_depth(writes@, *producer, path@, writes@.len() as int),
{
    proof {
        reveal(vstd::laws_eq::obeys_concrete_eq);
    }
    let mut best: Option<u32> = None;
    let mut j: usize = 0;
    while j < writes.len()
        invariant
            vstd::laws_eq::obeys_concrete_eq::<P>(),
            j <= writes@.len(),
            best == least_depth(writes@, *producer, path@, j as int),
        decreases writes@.len() - j,
    {
        proof {
            reveal(vstd::laws_eq::obeys_concrete_eq);
        }
        let wr = &writes[j];
        if wr.producer == *producer && paths_comparable(wr.path.as_slice(), path) {
            best = match best {
                Some(d) => Some(if wr.depth < d { wr.depth } else { d }),
                None => Some(wr.depth),
            };
        }
        j += 1;
    }
    best
}

/// The watcher a delivery is for.
pub open spec fn delivery_watcher(d: Delivery) -> usize {
    match d {
        Delivery::PerWrite { watcher, .. } => watcher,
        Delivery::Coalesced { watcher, .. } => watcher,
    }
}

/// A flush from one source never fires another source's watches: every
/// delivery is for a live watch of that source.
pub proof fn lemma_deliveries_follow_the_source<P, I>(
    watchers: Seq<Option<RemoteWatcher<P, I>>>,
    source: u64,
    writes: Seq<PublishedWrite<P>>,
    max_depth: u32,
    n: int,
)
    requires
        0 <= n <= watchers.len(),
        watchers.len() <= usize::MAX,
    ensures
        forall|k: int|
            0 <= k < spec_deliveries(watchers, source, writes, max_depth, n).len() ==> {
                let i = delivery_watcher(#[trigger] spec_deliveries(watchers, source, writes, max_depth, n)[k]);
                &&& 0 <= i < n
                &&& watchers[i as int] matches Some(w)
                &&& w.source == source
            },
    decreases n,
{
    if n > 0 {
        lemma_deliveries_follow_the_source(watchers, source, writes, max_depth, n - 1);
        let prev = spec_deliveries(watchers, source, writes, max_depth, n - 1);
        let i = (n - 1) as usize;
        let mine = watcher_deliveries(i, watchers[n - 1], source, writes, max_depth);
        lemma_watcher_deliveries_are_its_own(i, watchers[n - 1], source, writes, max_depth);
        assert(spec_deliveries(watchers, source, writes, max_depth, n) == prev + mine);
        assert forall|k: int| 0 <= k < (prev + mine).len() implies {
            let j = delivery_watcher(#[trigger] (prev + mine)[k]);
            &&& 0 <= j < n
            &&& watchers[j as int] matches Some(w)
            &&& w.source == source
        } by {
            if k < prev.len() {
                assert((prev + mine)[k] == prev[k]);
            } else {
                assert((prev + mine)[k] == mine[k - prev.len()]);
            }
        }
    }
}

proof fn lemma_watcher_deliveries_are_its_own<P, I>(
    i: usize,
    slot: Option<RemoteWatcher<P, I>>,
    source: u64,
    writes: Seq<PublishedWrite<P>>,
    max_depth: u32,
)
    ensures
        forall|k: int|
            0 <= k < watcher_deliveries(i, slot, source, writes, max_depth).len() ==> {
                &&& delivery_watcher(#[trigger] watcher_deliveries(i, slot, source, writes, max_depth)[k]) == i
                &&& slot matches Some(w)
                &&& w.source == source
            },
{
    match slot {
        Some(w) => {
            if w.source == source && !w.coalesced {
                lemma_per_write_indices(i, w, writes, max_depth, writes.len() as int);
            }
        },
        None => {},
    }
}

proof fn lemma_per_write_indices<P, I>(
    i: usize,
    w: RemoteWatcher<P, I>,
    writes: Seq<PublishedWrite<P>>,
    max_depth: u32,
    n: int,
)
    ensures
        forall|k: int|
            0 <= k < per_write_deliveries(i, w, writes, max_depth, n).len() ==> ((#[trigger] per_write_deliveries(
                i,
                w,
                writes,
                max_depth,
                n,
            )[k]) matches Delivery::PerWrite { watcher, .. } && watcher == i),
        forall|k: int|
            0 <= k < per_write_deliveries(i, w, writes, max_depth, n).len() ==> delivery_watcher(
                #[trigger] per_write_deliveries(i, w, writes, max_depth, n)[k],
            ) == i,
    decreases n,
{
    if n > 0 {
        lemma_per_write_indices(i, w, writes, max_depth, n - 1);
    }
}

} // verus!
