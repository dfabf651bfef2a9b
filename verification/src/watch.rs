//! The registry of watch sessions: at most one per identifier, each owning
//! the handle of its native watch. Establishing the native watch is the
//! caller's work; which sessions exist, and whether an event still has a
//! session to be delivered for, is decided here.

use crate::error::WatchError;
use crate::event::{delivers, normalize, Delivery, RawEvent};
use crate::text::same_text;
use vstd::prelude::*;

verus! {

/// One active watch: its identifier, the root it watches, and the handle
/// that keeps the native watch alive. Dropping the session drops the handle.
struct WatchSession<H> {
    id: String,
    root: String,
    handle: H,
}

/// The active watch sessions.
pub struct WatcherState<H> {
    sessions: Vec<WatchSession<H>>,
}

/// The registry after the session `id`, if there is one, was stopped.
pub open spec fn stopped(sessions: Map<Seq<char>, Seq<char>>, id: Seq<char>) -> Map<
    Seq<char>,
    Seq<char>,
> {
    sessions.remove(id)
}

/// The registry after a session `id` on `root` was started, in place of any
/// session `id` before it.
pub open spec fn started(
    sessions: Map<Seq<char>, Seq<char>>,
    id: Seq<char>,
    root: Seq<char>,
) -> Map<Seq<char>, Seq<char>> {
    sessions.insert(id, root)
}

/// An event that the watch of `root` raised for session `id` is delivered
/// only while that very session is registered.
pub open spec fn accepts(sessions: Map<Seq<char>, Seq<char>>, id: Seq<char>, root: Seq<char>) -> bool {
    sessions.contains_key(id) && sessions[id] == root
}

spec fn distinct<H>(sessions: Seq<WatchSession<H>>) -> bool {
    forall|i: int, j: int|
        #![trigger sessions[i], sessions[j]]
        0 <= i < j < sessions.len() ==> sessions[i].id@ != sessions[j].id@
}

spec fn registry_of<H>(sessions: Seq<WatchSession<H>>) -> Map<Seq<char>, Seq<char>>
    decreases sessions.len(),
{
    if sessions.len() == 0 {
        Map::empty()
    } else {
        registry_of(sessions.drop_last()).insert(sessions.last().id@, sessions.last().root@)
    }
}

spec fn handles_of<H>(sessions: Seq<WatchSession<H>>) -> Map<Seq<char>, H>
    decreases sessions.len(),
{
    if sessions.len() == 0 {
        Map::empty()
    } else {
        handles_of(sessions.drop_last()).insert(sessions.last().id@, sessions.last().handle)
    }
}

proof fn lemma_handles_keys<H>(sessions: Seq<WatchSession<H>>)
    ensures
        handles_of(sessions).dom() == registry_of(sessions).dom(),
    decreases sessions.len(),
{
    if sessions.len() > 0 {
        lemma_handles_keys(sessions.drop_last());
    }
    assert(handles_of(sessions).dom() =~= registry_of(sessions).dom());
}

proof fn lemma_handles_remove<H>(sessions: Seq<WatchSession<H>>, at: int)
    requires
        distinct(sessions),
        0 <= at < sessions.len(),
    ensures
        handles_of(sessions.remove(at)) == handles_of(sessions).remove(sessions[at].id@),
    decreases sessions.len(),
{
    let fewer = sessions.remove(at);
    let front = sessions.drop_last();
    let last = sessions.last();
    if at == sessions.len() - 1 {
        assert(fewer =~= front);
        lemma_registry_keys(front, last.id@);
        lemma_handles_keys(front);
        if registry_of(front).contains_key(last.id@) {
            let i = choose|i: int| 0 <= i < front.len() && (#[trigger] front[i]).id@ == last.id@;
            assert(sessions[i].id@ == sessions[sessions.len() - 1].id@);
        }
        assert(!handles_of(front).dom().contains(last.id@));
        assert(handles_of(front) =~= handles_of(sessions).remove(last.id@));
    } else {
        assert(front[at] == sessions[at]);
        assert(fewer.drop_last() =~= front.remove(at));
        assert(fewer.last() == last);
        assert forall|i: int, j: int|
            #![trigger front[i], front[j]]
            0 <= i < j < front.len() implies front[i].id@ != front[j].id@ by {
            assert(front[i] == sessions[i] && front[j] == sessions[j]);
        }
        lemma_handles_remove(front, at);
        assert(sessions[at].id@ != sessions[sessions.len() - 1].id@);
        assert(handles_of(fewer) =~= handles_of(sessions).remove(sessions[at].id@));
    }
}

proof fn lemma_handles_push<H>(sessions: Seq<WatchSession<H>>, added: WatchSession<H>)
    ensures
        handles_of(sessions.push(added)) == handles_of(sessions).insert(added.id@, added.handle),
{
    assert(sessions.push(added).drop_last() =~= sessions);
}

proof fn lemma_registry_keys<H>(sessions: Seq<WatchSession<H>>, id: Seq<char>)
    ensures
        registry_of(sessions).contains_key(id) <==> exists|i: int|
            0 <= i < sessions.len() && (#[trigger] sessions[i]).id@ == id,
    decreases sessions.len(),
{
    if sessions.len() > 0 {
        let front = sessions.drop_last();
        lemma_registry_keys(front, id);
        if registry_of(sessions).contains_key(id) {
            if sessions.last().id@ == id {
                assert(sessions[sessions.len() - 1].id@ == id);
            } else {
                let i = choose|i: int| 0 <= i < front.len() && (#[trigger] front[i]).id@ == id;
                assert(sessions[i].id@ == id);
            }
        }
        if exists|i: int| 0 <= i < sessions.len() && (#[trigger] sessions[i]).id@ == id {
            let i = choose|i: int| 0 <= i < sessions.len() && (#[trigger] sessions[i]).id@ == id;
            if i < front.len() {
                assert(front[i].id@ == id);
            }
        }
    }
}

proof fn lemma_registry_value<H>(sessions: Seq<WatchSession<H>>, at: int)
    requires
        distinct(sessions),
        0 <= at < sessions.len(),
    ensures
        registry_of(sessions).contains_key(sessions[at].id@),
        registry_of(sessions)[sessions[at].id@] == sessions[at].root@,
    decreases sessions.len(),
{
    if at < sessions.len() - 1 {
        let front = sessions.drop_last();
        assert(front[at] == sessions[at]);
        assert(sessions[at].id@ != sessions[sessions.len() - 1].id@);
        lemma_registry_value(front, at);
    }
}

proof fn lemma_registry_remove<H>(sessions: Seq<WatchSession<H>>, at: int)
    requires
        distinct(sessions),
        0 <= at < sessions.len(),
    ensures
        distinct(sessions.remove(at)),
        registry_of(sessions.remove(at)) == registry_of(sessions).remove(sessions[at].id@),
    decreases sessions.len(),
{
    let fewer = sessions.remove(at);
    let front = sessions.drop_last();
    let last = sessions.last();
    assert forall|i: int, j: int|
        #![trigger fewer[i], fewer[j]]
        0 <= i < j < fewer.len() implies fewer[i].id@ != fewer[j].id@ by {
        let i0 = if i < at { i } else { i + 1 };
        let j0 = if j < at { j } else { j + 1 };
        assert(fewer[i] == sessions[i0]);
        assert(fewer[j] == sessions[j0]);
    }
    if at == sessions.len() - 1 {
        assert(fewer =~= front);
        lemma_registry_keys(front, last.id@);
        if registry_of(front).contains_key(last.id@) {
            let i = choose|i: int| 0 <= i < front.len() && (#[trigger] front[i]).id@ == last.id@;
            assert(sessions[i].id@ == sessions[sessions.len() - 1].id@);
        }
        assert(registry_of(front) =~= registry_of(sessions).remove(last.id@));
    } else {
        assert(front[at] == sessions[at]);
        assert(fewer.drop_last() =~= front.remove(at));
        assert(fewer.last() == last);
        lemma_registry_remove(front, at);
        assert(sessions[at].id@ != sessions[sessions.len() - 1].id@);
        assert(registry_of(fewer) =~= registry_of(sessions).remove(sessions[at].id@));
    }
}

proof fn lemma_registry_push<H>(sessions: Seq<WatchSession<H>>, added: WatchSession<H>)
    requires
        distinct(sessions),
        !registry_of(sessions).contains_key(added.id@),
    ensures
        distinct(sessions.push(added)),
        registry_of(sessions.push(added)) == registry_of(sessions).insert(added.id@, added.root@),
{
    let more = sessions.push(added);
    assert(more.drop_last() =~= sessions);
    assert forall|i: int, j: int|
        #![trigger more[i], more[j]]
        0 <= i < j < more.len() implies more[i].id@ != more[j].id@ by {
        if j == sessions.len() {
            lemma_registry_keys(sessions, added.id@);
            assert(more[i] == sessions[i]);
        } else {
            assert(more[i] == sessions[i]);
            assert(more[j] == sessions[j]);
        }
    }
}

/// Stopping a session twice leaves what stopping it once leaves.
pub proof fn lemma_stop_is_idempotent(sessions: Map<Seq<char>, Seq<char>>, id: Seq<char>)
    ensures
        stopped(stopped(sessions, id), id) == stopped(sessions, id),
        !stopped(sessions, id).contains_key(id),
{
    assert(stopped(stopped(sessions, id), id) =~= stopped(sessions, id));
}

/// Starting a session under an identifier that is in use replaces the
/// session: the registry holds the identifier once, with the second root,
/// as if the first start had not happened; events of the first root are no
/// longer accepted, and no other session is touched.
pub proof fn lemma_restart_replaces(
    sessions: Map<Seq<char>, Seq<char>>,
    id: Seq<char>,
    first: Seq<char>,
    second: Seq<char>,
)
    ensures
        started(started(sessions, id, first), id, second) == started(sessions, id, second),
        accepts(started(started(sessions, id, first), id, second), id, second),
        first != second ==> !accepts(started(started(sessions, id, first), id, second), id, first),
        forall|other: Seq<char>, root: Seq<char>|
            other != id ==> accepts(
                started(started(sessions, id, first), id, second),
                other,
                root,
            ) == accepts(sessions, other, root),
{
    assert(started(started(sessions, id, first), id, second) =~= started(sessions, id, second));
}

impl<H> View for WatcherState<H> {
    type V = Map<Seq<char>, Seq<char>>;

    /// The registry: each active identifier with the root it watches.
    closed spec fn view(&self) -> Map<Seq<char>, Seq<char>> {
        registry_of(self.sessions@)
    }
}

impl<H> WatcherState<H> {
    #[verifier::type_invariant]
    spec fn no_identifier_twice(self) -> bool {
        distinct(self.sessions@)
    }

    /// The handles that the registry owns: for each active identifier the
    /// handle of its native watch. A handle that is no longer here has left
    /// the registry for good; none is handed out.
    pub closed spec fn handles(&self) -> Map<Seq<char>, H> {
        handles_of(self.sessions@)
    }

    /// Every session owns a handle, and there is no handle without a session.
    pub proof fn lemma_handles_match_sessions(&self)
        ensures
            self.handles().dom() == self@.dom(),
    {
        lemma_handles_keys(self.sessions@);
    }

    /// A registry without sessions.
    pub fn new() -> (state: Self)
        ensures
            state@ == Map::<Seq<char>, Seq<char>>::empty(),
            state.handles() == Map::<Seq<char>, H>::empty(),
    {
        WatcherState { sessions: Vec::new() }
    }

    fn position(&self, id: &str) -> (at: Option<usize>)
        ensures
            match at {
                Some(i) => i < self.sessions.len() && self.sessions[i as int].id@ == id@,
                None => forall|i: int|
                    0 <= i < self.sessions.len() ==> (#[trigger] self.sessions[i]).id@ != id@,
            },
    {
        let mut i: usize = 0;
        while i < self.sessions.len()
            invariant
                i <= self.sessions.len(),
                forall|j: int| 0 <= j < i ==> (#[trigger] self.sessions[j]).id@ != id@,
            decreases self.sessions.len() - i,
        {
            if same_text(self.sessions[i].id.as_str(), id) {
                return Some(i);
            }
            i += 1;
        }
        None
    }

    /// Whether a session `id` is active.
    pub fn is_watching(&self, id: &str) -> (active: bool)
        ensures
            active == self@.contains_key(id@),
    {
        proof {
            lemma_registry_keys(self.sessions@, id@);
        }
        self.position(id).is_some()
    }

    /// The root that session `id` watches, if the session is active.
    pub fn watched_root(&self, id: &str) -> (root: Option<&String>)
        ensures
            match root {
                Some(path) => self@.contains_key(id@) && self@[id@] == path@,
                None => !self@.contains_key(id@),
            },
    {
        proof {
            use_type_invariant(self);
            lemma_registry_keys(self.sessions@, id@);
        }
        match self.position(id) {
            Some(at) => {
                proof {
                    lemma_registry_value(self.sessions@, at as int);
                }
                Some(&self.sessions[at].root)
            },
            None => None,
        }
    }

    /// The identifiers of the active sessions, each once.
    pub fn active_ids(&self) -> (ids: Vec<String>)
        ensures
            forall|i: int, j: int|
                #![trigger ids[i], ids[j]]
                0 <= i < j < ids.len() ==> ids[i]@ != ids[j]@,
            forall|id: Seq<char>|
                self@.contains_key(id) <==> exists|i: int|
                    0 <= i < ids.len() && (#[trigger] ids[i])@ == id,
    {
        proof {
            use_type_invariant(self);
        }
        let mut ids: Vec<String> = Vec::new();
        let mut k: usize = 0;
        while k < self.sessions.len()
            invariant
                k <= self.sessions.len(),
                ids.len() == k,
                forall|i: int| 0 <= i < k ==> (#[trigger] ids[i])@ == self.sessions[i].id@,
            decreases self.sessions.len() - k,
        {
            ids.push(self.sessions[k].id.clone());
            k += 1;
        }
        proof {
            assert forall|i: int, j: int|
                #![trigger ids[i], ids[j]]
                0 <= i < j < ids.len() implies ids[i]@ != ids[j]@ by {
                assert(self.sessions@[i].id@ != self.sessions@[j].id@);
            }
            assert forall|id: Seq<char>|
                self@.contains_key(id) <==> exists|i: int|
                    0 <= i < ids.len() && (#[trigger] ids[i])@ == id by {
                lemma_registry_keys(self.sessions@, id);
                if self@.contains_key(id) {
                    let i = choose|i: int|
                        0 <= i < self.sessions@.len() && (#[trigger] self.sessions@[i]).id@ == id;
                    assert(ids[i]@ == id);
                }
                if exists|i: int| 0 <= i < ids.len() && (#[trigger] ids[i])@ == id {
                    let i = choose|i: int| 0 <= i < ids.len() && (#[trigger] ids[i])@ == id;
                    assert(self.sessions@[i].id@ == id);
                }
            }
        }
        ids
    }

    /// Drops the session `id`, and with it its handle, if there is one.
    fn release(&mut self, id: &str)
        ensures
            final(self)@ == stopped(old(self)@, id@),
            final(self).handles() == old(self).handles().remove(id@),
    {
        proof {
            use_type_invariant(&*self);
            lemma_registry_keys(self.sessions@, id@);
            lemma_handles_keys(self.sessions@);
        }
        match self.position(id) {
            Some(at) => {
                proof {
                    lemma_registry_remove(self.sessions@, at as int);
                    lemma_handles_remove(self.sessions@, at as int);
                }
                let mut sessions: Vec<WatchSession<H>> = Vec::new();
                std::mem::swap(&mut self.sessions, &mut sessions);
                let _ = sessions.remove(at);
                self.sessions = sessions;
            },
            None => {
                assert(stopped(self@, id@) =~= self@);
                assert(self.handles().remove(id@) =~= self.handles());
            },
        }
    }

    /// Adds a session under an identifier that has none.
    fn install(&mut self, session: WatchSession<H>)
        requires
            !old(self)@.contains_key(session.id@),
        ensures
            final(self)@ == started(old(self)@, session.id@, session.root@),
            final(self).handles() == old(self).handles().insert(session.id@, session.handle),
    {
        proof {
            use_type_invariant(&*self);
            lemma_registry_push(self.sessions@, session);
            lemma_handles_push(self.sessions@, session);
        }
        let mut sessions: Vec<WatchSession<H>> = Vec::new();
        std::mem::swap(&mut self.sessions, &mut sessions);
        sessions.push(session);
        self.sessions = sessions;
    }
}

impl<H> Default for WatcherState<H> {
    fn default() -> (state: Self)
        ensures
            state@ == Map::<Seq<char>, Seq<char>>::empty(),
            state.handles() == Map::<Seq<char>, H>::empty(),
    {
        WatcherState::new()
    }
}

/// Stops the session `id`: removes it and releases its native watch before
/// returning. The registry owns the handle of `id` no longer, and every other
/// handle as before. Stopping an identifier that has no session succeeds and
/// changes nothing.
pub fn unwatch_dir<H>(state: &mut WatcherState<H>, id: &str) -> (done: Result<(), WatchError>)
    ensures
        done is Ok,
        final(state)@ == stopped(old(state)@, id@),
        final(state).handles() == old(state).handles().remove(id@),
{
    state.release(id);
    Ok(())
}

/// Registers the session `id` on `path`, given the outcome of establishing
/// its native watch: the handle, or nothing if the path cannot be watched.
/// A session that was active under `id` is stopped either way: a start
/// replaces it and a failed start leaves the identifier without a session.
/// After a start the registry owns the new handle under `id` and the old one
/// no longer; every other handle stays.
pub fn watch_dir<H>(state: &mut WatcherState<H>, path: String, id: String, handle: Option<H>) -> (done:
    Result<(), WatchError>)
    ensures
        match handle {
            Some(native) => {
                &&& done is Ok
                &&& final(state)@ == started(old(state)@, id@, path@)
                &&& final(state).handles() == old(state).handles().insert(id@, native)
            },
            None => {
                &&& done == Err::<(), WatchError>(WatchError::InvalidPath)
                &&& final(state)@ == stopped(old(state)@, id@)
                &&& final(state).handles() == old(state).handles().remove(id@)
            },
        },
{
    state.release(id.as_str());
    match handle {
        Some(native) => {
            proof {
                assert(stopped(old(state)@, id@).insert(id@, path@) =~= started(
                    old(state)@,
                    id@,
                    path@,
                ));
                assert(old(state).handles().remove(id@).insert(id@, native) =~= old(
                    state,
                ).handles().insert(id@, native));
            }
            state.install(WatchSession { id, root: path, handle: native });
            Ok(())
        },
        None => Err(WatchError::InvalidPath),
    }
}

/// Decides what goes to the sink for something the watch of `root` raised
/// for session `id`. Nothing goes out unless that session is registered at
/// this moment: after a stop or a replacement, what the old watch still
/// raises is dropped.
pub fn dispatch<H>(
    state: &WatcherState<H>,
    id: &str,
    root: &str,
    incoming: Result<RawEvent, String>,
) -> (sent: Option<Delivery>)
    ensures
        match sent {
            Some(delivery) => accepts(state@, id@, root@) && delivers(delivery, id@, incoming),
            None => !accepts(state@, id@, root@),
        },
{
    match state.watched_root(id) {
        Some(registered) => {
            if same_text(registered.as_str(), root) {
                Some(normalize(id, incoming))
            } else {
                None
            }
        },
        None => None,
    }
}

} // verus!
