//! The registry: worlds under unique identifiers.

use vstd::prelude::*;
use crate::error::WorldError;
use crate::status::WorldStatus;
use crate::world::{typed, World, WorldView};

verus! {

/// `e` is `NotFound` and names `id`.
pub open spec fn is_not_found(e: WorldError, id: Seq<char>) -> bool {
    e matches WorldError::NotFound(named) && named@ == id
}

/// `e` is `DuplicateId` and names `id`.
pub open spec fn is_duplicate(e: WorldError, id: Seq<char>) -> bool {
    e matches WorldError::DuplicateId(named) && named@ == id
}

/// `e` is `StillRunning` and names `id`.
pub open spec fn is_still_running(e: WorldError, id: Seq<char>) -> bool {
    e matches WorldError::StillRunning(named) && named@ == id
}

/// Whether `id` is taken: a world is registered under it.
pub open spec fn taken<R, F>(m: Map<Seq<char>, WorldView<R, F>>, id: Seq<char>) -> bool {
    m.dom().contains(id)
}

/// The registry after an attempt to register `world` under `id`: with the
/// new entry where `id` was free, unchanged where it was taken.
pub open spec fn registered<R, F>(
    m: Map<Seq<char>, WorldView<R, F>>,
    id: Seq<char>,
    world: WorldView<R, F>,
) -> Map<Seq<char>, WorldView<R, F>> {
    if taken(m, id) {
        m
    } else {
        m.insert(id, world)
    }
}

/// The registry after `step` was applied to the world under `id`; unchanged
/// where `id` is not taken.
pub open spec fn on_entry<R, F>(
    m: Map<Seq<char>, WorldView<R, F>>,
    id: Seq<char>,
    step: spec_fn(WorldView<R, F>) -> WorldView<R, F>,
) -> Map<Seq<char>, WorldView<R, F>> {
    if taken(m, id) {
        m.insert(id, step(m[id]))
    } else {
        m
    }
}

/// Whether the entry under `id` can be removed: it is there and its world
/// is not running.
pub open spec fn removable<R, F>(m: Map<Seq<char>, WorldView<R, F>>, id: Seq<char>) -> bool {
    taken(m, id) && !(m[id].status is Running)
}

/// The registry after an attempt to remove the entry under `id`: without
/// it where it can be removed, unchanged where it cannot.
pub open spec fn unregistered<R, F>(
    m: Map<Seq<char>, WorldView<R, F>>,
    id: Seq<char>,
) -> Map<Seq<char>, WorldView<R, F>> {
    if removable(m, id) {
        m.remove(id)
    } else {
        m
    }
}

/// A second registration under the same identifier is refused as a
/// duplicate and changes nothing, whatever the registry held before the
/// first: in particular the number of entries stays as the first left it.
pub proof fn lemma_second_add_is_refused<R, F>(
    m: Map<Seq<char>, WorldView<R, F>>,
    id: Seq<char>,
    first: WorldView<R, F>,
    second: WorldView<R, F>,
)
    ensures
        taken(registered(m, id, first), id),
        registered(registered(m, id, first), id, second) == registered(m, id, first),
        registered(registered(m, id, first), id, second).dom().len() == registered(
            m,
            id,
            first,
        ).dom().len(),
{
}

/// A running world is not removed, and the refusal changes nothing. Once
/// the same world has finished, failed or been stopped, the removal goes
/// ahead and its identifier is free again.
pub proof fn lemma_removal_waits_for_the_end<R, F>(
    m: Map<Seq<char>, WorldView<R, F>>,
    id: Seq<char>,
    value: R,
    reason: String,
)
    requires
        taken(m, id),
        m[id].status is Running,
    ensures
        !removable(m, id) && unregistered(m, id) == m,
        ({
            let ended = on_entry(m, id, |w: WorldView<R, F>| w.finished(value));
            removable(ended, id) && unregistered(ended, id) == m.remove(id)
        }),
        ({
            let ended = on_entry(m, id, |w: WorldView<R, F>| w.failed(reason));
            removable(ended, id) && unregistered(ended, id) == m.remove(id)
        }),
        ({
            let ended = on_entry(m, id, |w: WorldView<R, F>| w.stopped());
            removable(ended, id) && unregistered(ended, id) == m.remove(id)
        }),
        !taken(m.remove(id), id),
{
    assert(m.insert(id, m[id].finished(value)).remove(id) =~= m.remove(id));
    assert(m.insert(id, m[id].failed(reason)).remove(id) =~= m.remove(id));
    assert(m.insert(id, m[id].stopped()).remove(id) =~= m.remove(id));
}

/// A world after a bulk start: started if it was ready, else unchanged.
pub open spec fn started_if_ready<R, F>(w: WorldView<R, F>) -> WorldView<R, F> {
    if w.status is Ready {
        w.started()
    } else {
        w
    }
}

struct Entry<R, F> {
    id: String,
    world: World<R, F>,
}

spec fn holds<R, F>(entries: Seq<Entry<R, F>>, i: int, id: Seq<char>) -> bool {
    0 <= i < entries.len() && entries[i].id@ == id
}

spec fn ids_distinct<R, F>(entries: Seq<Entry<R, F>>) -> bool {
    forall|i: int, j: int|
        0 <= i < j < entries.len() ==> #[trigger] entries[i].id@ != #[trigger] entries[j].id@
}

spec fn as_map<R, F>(entries: Seq<Entry<R, F>>) -> Map<Seq<char>, WorldView<R, F>> {
    Map::new(
        |id: Seq<char>| exists|i: int| holds(entries, i, id),
        |id: Seq<char>| entries[choose|i: int| holds(entries, i, id)].world@,
    )
}

proof fn lemma_entry_in_map<R, F>(entries: Seq<Entry<R, F>>, i: int)
    requires
        ids_distinct(entries),
        0 <= i < entries.len(),
    ensures
        as_map(entries).dom().contains(entries[i].id@),
        as_map(entries)[entries[i].id@] == entries[i].world@,
{
    let id = entries[i].id@;
    assert(holds(entries, i, id));
    let j = choose|j: int| holds(entries, j, id);
    assert(holds(entries, j, id));
    assert(j == i);
}

proof fn lemma_absent<R, F>(entries: Seq<Entry<R, F>>, id: Seq<char>)
    requires
        forall|i: int| 0 <= i < entries.len() ==> (#[trigger] entries[i]).id@ != id,
    ensures
        !as_map(entries).dom().contains(id),
{
    assert forall|i: int| !holds(entries, i, id) by {
        if 0 <= i < entries.len() {
            assert(entries[i].id@ != id);
        }
    }
}

proof fn lemma_push<R, F>(entries: Seq<Entry<R, F>>, e: Entry<R, F>)
    requires
        ids_distinct(entries),
        !as_map(entries).dom().contains(e.id@),
    ensures
        ids_distinct(entries.push(e)),
        as_map(entries.push(e)) == as_map(entries).insert(e.id@, e.world@),
{
    let after = entries.push(e);
    let n = entries.len() as int;
    assert forall|i: int, j: int| 0 <= i < j < after.len() implies #[trigger] after[i].id@
        != #[trigger] after[j].id@ by {
        if j == n {
            assert(after[i] == entries[i]);
            if after[i].id@ == e.id@ {
                assert(holds(entries, i, e.id@));
            }
        } else {
            assert(after[i] == entries[i] && after[j] == entries[j]);
        }
    }
    let want = as_map(entries).insert(e.id@, e.world@);
    assert forall|id: Seq<char>| as_map(after).dom().contains(id) <==> want.dom().contains(
        id,
    ) by {
        if as_map(after).dom().contains(id) {
            let i = choose|i: int| holds(after, i, id);
            if i < n {
                assert(holds(entries, i, id));
            }
        }
        if want.dom().contains(id) {
            if id == e.id@ {
                assert(holds(after, n, id));
            } else {
                let i = choose|i: int| holds(entries, i, id);
                assert(holds(after, i, id));
            }
        }
    }
    assert forall|id: Seq<char>| as_map(after).dom().contains(id) implies as_map(after)[id]
        == want[id] by {
        let i = choose|i: int| holds(after, i, id);
        lemma_entry_in_map(after, i);
        if i < n {
            lemma_entry_in_map(entries, i);
        }
    }
    assert(as_map(after) =~= want);
}

proof fn lemma_remove<R, F>(entries: Seq<Entry<R, F>>, at: int)
    requires
        ids_distinct(entries),
        0 <= at < entries.len(),
    ensures
        ids_distinct(entries.remove(at)),
        as_map(entries.remove(at)) == as_map(entries).remove(entries[at].id@),
{
    let after = entries.remove(at);
    let gone = entries[at].id@;
    assert forall|i: int| 0 <= i < after.len() implies after[i] == entries[if i < at {
        i
    } else {
        i + 1
    }] by {}
    assert forall|i: int, j: int| 0 <= i < j < after.len() implies #[trigger] after[i].id@
        != #[trigger] after[j].id@ by {
        let a = if i < at { i } else { i + 1 };
        let b = if j < at { j } else { j + 1 };
        assert(after[i] == entries[a] && after[j] == entries[b]);
    }
    let want = as_map(entries).remove(gone);
    assert forall|id: Seq<char>| as_map(after).dom().contains(id) <==> want.dom().contains(
        id,
    ) by {
        if as_map(after).dom().contains(id) {
            let i = choose|i: int| holds(after, i, id);
            let a = if i < at { i } else { i + 1 };
            assert(after[i] == entries[a]);
            assert(holds(entries, a, id));
            assert(a != at);
            if a < at {
                assert(entries[a].id@ != entries[at].id@);
            } else {
                assert(entries[at].id@ != entries[a].id@);
            }
        }
        if want.dom().contains(id) {
            let a = choose|a: int| holds(entries, a, id);
            assert(a != at);
            let i = if a < at { a } else { a - 1 };
            assert(after[i] == entries[a]);
            assert(holds(after, i, id));
        }
    }
    assert forall|id: Seq<char>| as_map(after).dom().contains(id) implies as_map(after)[id]
        == want[id] by {
        let i = choose|i: int| holds(after, i, id);
        let a = if i < at { i } else { i + 1 };
        assert(after[i] == entries[a]);
        lemma_entry_in_map(after, i);
        lemma_entry_in_map(entries, a);
    }
    assert(as_map(after) =~= want);
}

proof fn lemma_replace<R, F>(before: Seq<Entry<R, F>>, after: Seq<Entry<R, F>>, at: int)
    requires
        ids_distinct(before),
        0 <= at < before.len(),
        after.len() == before.len(),
        forall|i: int| 0 <= i < before.len() ==> (#[trigger] after[i]).id@ == before[i].id@,
        forall|i: int| 0 <= i < before.len() && i != at ==> (#[trigger] after[i]).world@ == before[i].world@,
    ensures
        ids_distinct(after),
        as_map(after) == as_map(before).insert(before[at].id@, after[at].world@),
{
    assert forall|i: int, j: int| 0 <= i < j < after.len() implies #[trigger] after[i].id@
        != #[trigger] after[j].id@ by {
        assert(before[i].id@ != before[j].id@);
    }
    let want = as_map(before).insert(before[at].id@, after[at].world@);
    assert forall|id: Seq<char>| as_map(after).dom().contains(id) <==> want.dom().contains(
        id,
    ) by {
        if as_map(after).dom().contains(id) {
            let i = choose|i: int| holds(after, i, id);
            assert(holds(before, i, id));
        }
        if want.dom().contains(id) {
            if id == before[at].id@ {
                assert(holds(after, at, id));
            } else {
                let i = choose|i: int| holds(before, i, id);
                assert(holds(after, i, id));
            }
        }
    }
    assert forall|id: Seq<char>| as_map(after).dom().contains(id) implies as_map(after)[id]
        == want[id] by {
        let i = choose|i: int| holds(after, i, id);
        lemma_entry_in_map(after, i);
        if i != at {
            lemma_entry_in_map(before, i);
        }
    }
    assert(as_map(after) =~= want);
}

proof fn lemma_count<R, F>(entries: Seq<Entry<R, F>>)
    requires
        ids_distinct(entries),
    ensures
        as_map(entries).dom().finite(),
        as_map(entries).dom().len() == entries.len(),
    decreases entries.len(),
{
    if entries.len() == 0 {
        assert(as_map(entries).dom() =~= Set::<Seq<char>>::empty());
    } else {
        let front = entries.drop_last();
        let last = entries.last();
        assert forall|i: int, j: int| 0 <= i < j < front.len() implies #[trigger] front[i].id@
            != #[trigger] front[j].id@ by {
            assert(front[i] == entries[i] && front[j] == entries[j]);
        }
        lemma_count(front);
        assert forall|i: int| 0 <= i < front.len() implies (#[trigger] front[i]).id@
            != last.id@ by {
            assert(front[i] == entries[i]);
            assert(entries[i].id@ != entries[entries.len() - 1].id@);
        }
        lemma_absent(front, last.id@);
        lemma_push(front, last);
        assert(front.push(last) =~= entries);
    }
}

proof fn lemma_same_ids<R, F>(before: Seq<Entry<R, F>>, after: Seq<Entry<R, F>>)
    requires
        ids_distinct(before),
        after.len() == before.len(),
        forall|i: int| 0 <= i < before.len() ==> (#[trigger] after[i]).id@ == before[i].id@,
    ensures
        ids_distinct(after),
        as_map(after).dom() == as_map(before).dom(),
        forall|id: Seq<char>| #[trigger]
            as_map(before).dom().contains(id) ==> exists|i: int|
                holds(before, i, id) && as_map(before)[id] == before[i].world@ && as_map(after)[id]
                    == after[i].world@,
{
    assert forall|i: int, j: int| 0 <= i < j < after.len() implies #[trigger] after[i].id@
        != #[trigger] after[j].id@ by {
        assert(before[i].id@ != before[j].id@);
    }
    assert forall|id: Seq<char>| as_map(after).dom().contains(id) <==> as_map(
        before,
    ).dom().contains(id) by {
        if as_map(after).dom().contains(id) {
            let i = choose|i: int| holds(after, i, id);
            assert(holds(before, i, id));
        }
        if as_map(before).dom().contains(id) {
            let i = choose|i: int| holds(before, i, id);
            assert(holds(after, i, id));
        }
    }
    assert(as_map(after).dom() =~= as_map(before).dom());
    assert forall|id: Seq<char>| #[trigger]
        as_map(before).dom().contains(id) implies exists|i: int|
        holds(before, i, id) && as_map(before)[id] == before[i].world@ && as_map(after)[id]
            == after[i].world@ by {
        let i = choose|i: int| holds(before, i, id);
        lemma_entry_in_map(before, i);
        lemma_entry_in_map(after, i);
    }
}

/// A registry of worlds, each under an identifier of its own.
///
/// As a value it is a finite map from identifiers to worlds. Every
/// operation under one identifier leaves the entries under all others as
/// they were. The registry runs nothing: [`exec`](ParallelWorlds::exec) and
/// [`start_all`](ParallelWorlds::start_all) hand the callables out, and
/// [`finish`](ParallelWorlds::finish) and [`fail`](ParallelWorlds::fail)
/// take the outcomes back.
pub struct ParallelWorlds<R, F> {
    worlds: Vec<Entry<R, F>>,
}

impl<R, F> View for ParallelWorlds<R, F> {
    type V = Map<Seq<char>, WorldView<R, F>>;

    closed spec fn view(&self) -> Map<Seq<char>, WorldView<R, F>> {
        as_map(self.worlds@)
    }
}

fn position<R, F>(worlds: &Vec<Entry<R, F>>, key: &String) -> (found: Option<usize>)
    requires
        ids_distinct(worlds@),
    ensures
        match found {
            Some(i) => i < worlds.len() && worlds[i as int].id@ == key@ && as_map(
                worlds@,
            ).dom().contains(key@) && as_map(worlds@)[key@] == worlds[i as int].world@,
            None => !as_map(worlds@).dom().contains(key@),
        },
{
    let mut i: usize = 0;
    while i < worlds.len()
        invariant
            i <= worlds.len(),
            ids_distinct(worlds@),
            forall|j: int| 0 <= j < i ==> (#[trigger] worlds@[j]).id@ != key@,
        decreases worlds.len() - i,
    {
        if worlds[i].id == *key {
            proof {
                lemma_entry_in_map(worlds@, i as int);
            }
            return Some(i);
        }
        i += 1;
    }
    proof {
        lemma_absent(worlds@, key@);
    }
    None
}

impl<R, F> ParallelWorlds<R, F> {
    /// Holds of every registry: no identifier is registered twice.
    #[verifier::type_invariant]
    spec fn inv(&self) -> bool {
        ids_distinct(self.worlds@)
    }

    /// An empty registry.
    pub fn new() -> (registry: Self)
        ensures
            registry@ == Map::<Seq<char>, WorldView<R, F>>::empty(),
    {
        let registry = ParallelWorlds { worlds: Vec::new() };
        assert(registry@ =~= Map::<Seq<char>, WorldView<R, F>>::empty());
        registry
    }

    /// Registers `world` under `id`. Fails with `DuplicateId` where `id` is
    /// taken, and then leaves the registry as it was.
    pub fn add(&mut self, id: String, world: World<R, F>) -> (added: Result<(), WorldError>)
        ensures
            final(self)@ == registered(old(self)@, id@, world@),
            match added {
                Ok(_) => !taken(old(self)@, id@),
                Err(e) => taken(old(self)@, id@) && is_duplicate(e, id@),
            },
    {
        proof {
            use_type_invariant(&*self);
        }
        match position(&self.worlds, &id) {
            Some(_) => Err(WorldError::DuplicateId(id)),
            None => {
                let mut worlds: Vec<Entry<R, F>> = Vec::new();
                core::mem::swap(&mut self.worlds, &mut worlds);
                proof {
                    lemma_push(worlds@, Entry { id, world });
                }
                worlds.push(Entry { id, world });
                self.worlds = worlds;
                Ok(())
            },
        }
    }

    /// Starts the world under `id` and hands out its callable. Fails with
    /// `NotFound` where `id` is not registered, and otherwise as the world's
    /// own start does.
    pub fn exec(&mut self, id: &str) -> (started: Result<F, WorldError>)
        ensures
            final(self)@ == on_entry(old(self)@, id@, |w: WorldView<R, F>| w.started()),
            match started {
                Ok(f) => {
                    &&& taken(old(self)@, id@)
                    &&& old(self)@[id@].start_error() is None
                    &&& old(self)@[id@].process == Some(f)
                },
                Err(e) => if taken(old(self)@, id@) {
                    old(self)@[id@].start_error() == Some(e)
                } else {
                    is_not_found(e, id@)
                },
            },
    {
        proof {
            use_type_invariant(&*self);
        }
        let key = id.to_owned();
        match position(&self.worlds, &key) {
            None => Err(WorldError::NotFound(key)),
            Some(i) => {
                let mut worlds: Vec<Entry<R, F>> = Vec::new();
                core::mem::swap(&mut self.worlds, &mut worlds);
                let ghost before = worlds@;
                let started = worlds[i].world.start();
                proof {
                    lemma_replace(before, worlds@, i as int);
                }
                self.worlds = worlds;
                started
            },
        }
    }

    /// Removes the world under `id`. Fails with `NotFound` where `id` is not
    /// registered and with `StillRunning` where its world is running; a
    /// refused removal changes nothing.
    pub fn del(&mut self, id: &str) -> (removed: Result<(), WorldError>)
        ensures
            final(self)@ == unregistered(old(self)@, id@),
            match removed {
                Ok(_) => removable(old(self)@, id@),
                Err(e) => if taken(old(self)@, id@) {
                    old(self)@[id@].status is Running && is_still_running(e, id@)
                } else {
                    is_not_found(e, id@)
                },
            },
    {
        proof {
            use_type_invariant(&*self);
        }
        let key = id.to_owned();
        match position(&self.worlds, &key) {
            None => Err(WorldError::NotFound(key)),
            Some(i) => {
                match self.worlds[i].world.progress() {
                    WorldStatus::Running => Err(WorldError::StillRunning(key)),
                    _ => {
                        let mut worlds: Vec<Entry<R, F>> = Vec::new();
                        core::mem::swap(&mut self.worlds, &mut worlds);
                        proof {
                            lemma_remove(worlds@, i as int);
                        }
                        let _ = worlds.remove(i);
                        self.worlds = worlds;
                        Ok(())
                    },
                }
            },
        }
    }

    /// The world under `id`, or `None` where `id` is not registered.
    pub fn get(&self, id: &str) -> (found: Option<&World<R, F>>)
        ensures
            match found {
                Some(world) => taken(self@, id@) && world@ == self@[id@],
                None => !taken(self@, id@),
            },
    {
        proof {
            use_type_invariant(self);
        }
        let key = id.to_owned();
        match position(&self.worlds, &key) {
            None => None,
            Some(i) => Some(&self.worlds[i].world),
        }
    }

    /// Stops the world under `id`. Fails with `NotFound` where `id` is not
    /// registered, and otherwise as the world's own stop does: there is no
    /// harder way to end a world than to stop it.
    pub fn kill(&mut self, id: &str) -> (stopped: Result<(), WorldError>)
        ensures
            final(self)@ == on_entry(old(self)@, id@, |w: WorldView<R, F>| w.stopped()),
            match stopped {
                Ok(_) => taken(old(self)@, id@) && old(self)@[id@].status is Running,
                Err(e) => if taken(old(self)@, id@) {
                    !(old(self)@[id@].status is Running) && e == WorldError::NotRunning
                } else {
                    is_not_found(e, id@)
                },
            },
    {
        proof {
            use_type_invariant(&*self);
        }
        let key = id.to_owned();
        match position(&self.worlds, &key) {
            None => Err(WorldError::NotFound(key)),
            Some(i) => {
                let mut worlds: Vec<Entry<R, F>> = Vec::new();
                core::mem::swap(&mut self.worlds, &mut worlds);
                let ghost before = worlds@;
                let stopped = worlds[i].world.stop();
                proof {
                    lemma_replace(before, worlds@, i as int);
                }
                self.worlds = worlds;
                stopped
            },
        }
    }

    /// The status of the world under `id`, or `NotFound`.
    pub fn progress(&self, id: &str) -> (status: Result<WorldStatus, WorldError>)
        ensures
            match status {
                Ok(s) => taken(self@, id@) && s == self@[id@].status,
                Err(e) => !taken(self@, id@) && is_not_found(e, id@),
            },
    {
        proof {
            use_type_invariant(self);
        }
        let key = id.to_owned();
        match position(&self.worlds, &key) {
            None => Err(WorldError::NotFound(key)),
            Some(i) => Ok(self.worlds[i].world.progress()),
        }
    }

    /// Waits for the result of the world under `id`. Fails with `NotFound`
    /// where `id` is not registered, and otherwise answers as the world's
    /// own wait does: `None` while it is running.
    pub fn status(&mut self, id: &str) -> (waited: Option<Result<R, WorldError>>)
        ensures
            final(self)@ == on_entry(old(self)@, id@, |w: WorldView<R, F>| w.collected()),
            if taken(old(self)@, id@) {
                waited == old(self)@[id@].waited()
            } else {
                waited matches Some(Err(e)) && is_not_found(e, id@)
            },
    {
        proof {
            use_type_invariant(&*self);
        }
        let key = id.to_owned();
        match position(&self.worlds, &key) {
            None => Some(Err(WorldError::NotFound(key))),
            Some(i) => {
                let mut worlds: Vec<Entry<R, F>> = Vec::new();
                core::mem::swap(&mut self.worlds, &mut worlds);
                let ghost before = worlds@;
                let waited = worlds[i].world.status();
                proof {
                    lemma_replace(before, worlds@, i as int);
                }
                self.worlds = worlds;
                waited
            },
        }
    }

    /// Records that the callable of the world under `id` returned `value`.
    /// Fails with `NotFound` where `id` is not registered.
    pub fn finish(&mut self, id: &str, value: R) -> (recorded: Result<(), WorldError>)
        ensures
            final(self)@ == on_entry(old(self)@, id@, |w: WorldView<R, F>| w.finished(value)),
            match recorded {
                Ok(_) => taken(old(self)@, id@),
                Err(e) => !taken(old(self)@, id@) && is_not_found(e, id@),
            },
    {
        proof {
            use_type_invariant(&*self);
        }
        let key = id.to_owned();
        match position(&self.worlds, &key) {
            None => Err(WorldError::NotFound(key)),
            Some(i) => {
                let mut worlds: Vec<Entry<R, F>> = Vec::new();
                core::mem::swap(&mut self.worlds, &mut worlds);
                let ghost before = worlds@;
                worlds[i].world.finish(value);
                proof {
                    lemma_replace(before, worlds@, i as int);
                }
                self.worlds = worlds;
                Ok(())
            },
        }
    }

    /// Records that the callable of the world under `id` broke off for
    /// `reason`. Fails with `NotFound` where `id` is not registered.
    pub fn fail(&mut self, id: &str, reason: String) -> (recorded: Result<(), WorldError>)
        ensures
            final(self)@ == on_entry(old(self)@, id@, |w: WorldView<R, F>| w.failed(reason)),
            match recorded {
                Ok(_) => taken(old(self)@, id@),
                Err(e) => !taken(old(self)@, id@) && is_not_found(e, id@),
            },
    {
        proof {
            use_type_invariant(&*self);
        }
        let key = id.to_owned();
        match position(&self.worlds, &key) {
            None => Err(WorldError::NotFound(key)),
            Some(i) => {
                let mut worlds: Vec<Entry<R, F>> = Vec::new();
                core::mem::swap(&mut self.worlds, &mut worlds);
                let ghost before = worlds@;
                worlds[i].world.fail(reason);
                proof {
                    lemma_replace(before, worlds@, i as int);
                }
                self.worlds = worlds;
                Ok(())
            },
        }
    }

    /// The registered identifiers, each once, in no particular order.
    pub fn list(&self) -> (ids: Vec<String>)
        ensures
            self@.dom().finite(),
            ids.len() == self@.dom().len(),
            forall|id: Seq<char>|
                self@.dom().contains(id) <==> exists|i: int|
                    0 <= i < ids.len() && (#[trigger] ids[i])@ == id,
            forall|i: int, j: int| 0 <= i < j < ids.len() ==> #[trigger] ids[i]@ != #[trigger] ids[j]@,
    {
        proof {
            use_type_invariant(self);
            lemma_count(self.worlds@);
        }
        let mut ids: Vec<String> = Vec::new();
        let mut i: usize = 0;
        while i < self.worlds.len()
            invariant
                i <= self.worlds.len(),
                ids.len() == i,
                forall|j: int| 0 <= j < i ==> (#[trigger] ids[j])@ == self.worlds@[j].id@,
            decreases self.worlds.len() - i,
        {
            ids.push(self.worlds[i].id.clone());
            i += 1;
        }
        proof {
            assert forall|id: Seq<char>| self@.dom().contains(id) <==> exists|i: int|
                0 <= i < ids.len() && (#[trigger] ids[i])@ == id by {
                if self@.dom().contains(id) {
                    let j = choose|j: int| holds(self.worlds@, j, id);
                    assert(ids[j]@ == id);
                }
                if exists|i: int| 0 <= i < ids.len() && (#[trigger] ids[i])@ == id {
                    let j = choose|j: int| 0 <= j < ids.len() && (#[trigger] ids[j])@ == id;
                    assert(holds(self.worlds@, j, id));
                }
            }
            assert forall|i: int, j: int| 0 <= i < j < ids.len() implies #[trigger] ids[i]@
                != #[trigger] ids[j]@ by {
                assert(self.worlds@[i].id@ != self.worlds@[j].id@);
            }
        }
        ids
    }

    /// Stops every running world and leaves the others as they are.
    pub fn stop_all(&mut self)
        ensures
            final(self)@.dom() == old(self)@.dom(),
            forall|id: Seq<char>| #[trigger]
                old(self)@.dom().contains(id) ==> final(self)@[id] == old(self)@[id].stopped(),
    {
        proof {
            use_type_invariant(&*self);
        }
        let mut worlds: Vec<Entry<R, F>> = Vec::new();
        core::mem::swap(&mut self.worlds, &mut worlds);
        let ghost before = worlds@;
        let mut i: usize = 0;
        while i < worlds.len()
            invariant
                i <= worlds.len(),
                worlds.len() == before.len(),
                forall|j: int| 0 <= j < before.len() ==> (#[trigger] worlds@[j]).id@ == before[j].id@,
                forall|j: int|
                    0 <= j < i ==> (#[trigger] worlds@[j]).world@ == before[j].world@.stopped(),
                forall|j: int|
                    i <= j < before.len() ==> (#[trigger] worlds@[j]).world@ == before[j].world@,
            decreases worlds.len() - i,
        {
            let _ = worlds[i].world.stop();
            i += 1;
        }
        proof {
            lemma_same_ids(before, worlds@);
        }
        self.worlds = worlds;
    }

    /// Starts every ready world and hands out the callables, each with the
    /// identifier of its world, in no particular order.
    ///
    /// A ready world without a callable cannot be started; that failure is
    /// not reported, and the world stays as it is. Worlds that are not ready
    /// are not touched.
    pub fn start_all(&mut self) -> (jobs: Vec<(String, F)>)
        ensures
            final(self)@.dom() == old(self)@.dom(),
            forall|id: Seq<char>| #[trigger]
                old(self)@.dom().contains(id) ==> final(self)@[id] == started_if_ready(
                    old(self)@[id],
                ),
            forall|k: int|
                0 <= k < jobs.len() ==> {
                    let id = (#[trigger] jobs[k]).0@;
                    &&& old(self)@.dom().contains(id)
                    &&& old(self)@[id].status is Ready
                    &&& old(self)@[id].process == Some(jobs[k].1)
                },
            forall|id: Seq<char>| #[trigger]
                old(self)@.dom().contains(id) && old(self)@[id].status is Ready && old(
                    self,
                )@[id].process is Some ==> exists|k: int|
                    0 <= k < jobs.len() && (#[trigger] jobs[k]).0@ == id,
            forall|a: int, b: int|
                0 <= a < b < jobs.len() ==> (#[trigger] jobs[a]).0@ != (#[trigger] jobs[b]).0@,
    {
        proof {
            use_type_invariant(&*self);
        }
        let mut worlds: Vec<Entry<R, F>> = Vec::new();
        core::mem::swap(&mut self.worlds, &mut worlds);
        let ghost before = worlds@;
        let ghost mut source: Seq<int> = Seq::empty();
        let mut jobs: Vec<(String, F)> = Vec::new();
        let mut i: usize = 0;
        while i < worlds.len()
            invariant
                i <= worlds.len(),
                worlds.len() == before.len(),
                forall|j: int| 0 <= j < before.len() ==> (#[trigger] worlds@[j]).id@ == before[j].id@,
                forall|j: int|
                    0 <= j < i ==> (#[trigger] worlds@[j]).world@ == started_if_ready(
                        before[j].world@,
                    ),
                forall|j: int|
                    i <= j < before.len() ==> (#[trigger] worlds@[j]).world@ == before[j].world@,
                source.len() == jobs.len(),
                forall|k: int|
                    0 <= k < jobs.len() ==> {
                        let j = #[trigger] source[k];
                        &&& 0 <= j < i
                        &&& jobs[k].0@ == before[j].id@
                        &&& before[j].world@.status is Ready
                        &&& before[j].world@.process == Some(jobs[k].1)
                    },
                forall|a: int, b: int|
                    0 <= a < b < jobs.len() ==> #[trigger] source[a] < #[trigger] source[b],
                forall|j: int|
                    0 <= j < i && (#[trigger] before[j]).world@.status is Ready
                        && before[j].world@.process is Some ==> exists|k: int|
                        0 <= k < jobs.len() && #[trigger] source[k] == j,
            decreases worlds.len() - i,
        {
            match worlds[i].world.progress() {
                WorldStatus::Ready => {
                    match worlds[i].world.start() {
                        Ok(f) => {
                            let id = worlds[i].id.clone();
                            let ghost earlier = source;
                            jobs.push((id, f));
                            proof {
                                source = source.push(i as int);
                                assert(source[jobs.len() - 1] == i);
                                assert forall|j: int|
                                    0 <= j < i + 1 && (#[trigger] before[j]).world@.status is Ready
                                        && before[j].world@.process is Some implies exists|k: int|
                                    0 <= k < jobs.len() && #[trigger] source[k] == j by {
                                    if j < i {
                                        let k = choose|k: int|
                                            0 <= k < earlier.len() && #[trigger] earlier[k] == j;
                                        assert(source[k] == j);
                                    }
                                }
                            }
                        },
                        Err(_) => {},
                    }
                },
                _ => {},
            }
            i += 1;
        }
        proof {
            lemma_same_ids(before, worlds@);
            assert forall|k: int| 0 <= k < jobs.len() implies {
                let id = (#[trigger] jobs[k]).0@;
                &&& as_map(before).dom().contains(id)
                &&& as_map(before)[id].status is Ready
                &&& as_map(before)[id].process == Some(jobs[k].1)
            } by {
                lemma_entry_in_map(before, source[k]);
            }
            assert forall|id: Seq<char>| #[trigger]
                as_map(before).dom().contains(id) && as_map(before)[id].status is Ready && as_map(
                    before,
                )[id].process is Some implies exists|k: int|
                0 <= k < jobs.len() && (#[trigger] jobs[k]).0@ == id by {
                let j = choose|j: int| holds(before, j, id);
                lemma_entry_in_map(before, j);
                let k = choose|k: int| 0 <= k < jobs.len() && #[trigger] source[k] == j;
                assert(jobs[k].0@ == id);
            }
            assert forall|a: int, b: int| 0 <= a < b < jobs.len() implies (#[trigger] jobs[a]).0@
                != (#[trigger] jobs[b]).0@ by {
                assert(source[a] < source[b]);
                assert(before[source[a]].id@ != before[source[b]].id@);
            }
        }
        self.worlds = worlds;
        jobs
    }

    /// Waits for the result of the world under `id` and recovers its type,
    /// as [`World::status_as`] does. Fails with `NotFound` where `id` is not
    /// registered, and with `TypeMismatch` where `cast` answers `None`.
    pub fn status_as<T, C: FnOnce(R) -> Option<T>>(&mut self, id: &str, cast: C) -> (waited:
        Option<Result<T, WorldError>>)
        requires
            taken(old(self)@, id@) ==> (old(self)@[id@].result matches Some(value)
                ==> call_requires(cast, (value,))),
        ensures
            final(self)@ == on_entry(old(self)@, id@, |w: WorldView<R, F>| w.collected()),
            if taken(old(self)@, id@) {
                match old(self)@[id@].waited() {
                    None => waited is None,
                    Some(Err(e)) => waited == Some(Err::<T, WorldError>(e)),
                    Some(Ok(value)) => exists|recovered: Option<T>| #[trigger]
                        call_ensures(cast, (value,), recovered) && waited == Some(
                            typed(recovered),
                        ),
                }
            } else {
                waited matches Some(Err(e)) && is_not_found(e, id@)
            },
    {
        proof {
            use_type_invariant(&*self);
        }
        let key = id.to_owned();
        match position(&self.worlds, &key) {
            None => Some(Err(WorldError::NotFound(key))),
            Some(i) => {
                let mut worlds: Vec<Entry<R, F>> = Vec::new();
                core::mem::swap(&mut self.worlds, &mut worlds);
                let ghost before = worlds@;
                let waited = worlds[i].world.status_as(cast);
                proof {
                    lemma_replace(before, worlds@, i as int);
                }
                self.worlds = worlds;
                waited
            },
        }
    }
}

impl<R, F> Default for ParallelWorlds<R, F> {
    /// The same as [`ParallelWorlds::new`].
    fn default() -> (registry: Self)
        ensures
            registry@ == Map::<Seq<char>, WorldView<R, F>>::empty(),
    {
        ParallelWorlds::new()
    }
}

} // verus!
