//! The set controller: the task arena, the membership order, the token
//! index and the ready queue, together with the poll loop that drives the
//! member streams.

use vstd::prelude::*;

use crate::token_index::slab_alloc;
use crate::token_index::slab_entries;
use crate::token_index::slab_get;
use crate::token_index::slab_insert;
use crate::token_index::slab_remove;
use crate::token_index::slab_reset_with;
use crate::types::FinishedStream;
use crate::types::PollResult;
use crate::types::PollStream;
use crate::types::StreamEntry;
use crate::types::StreamYield;

verus! {

/// The per-member record: the stream value, the completion flag, the
/// scheduling flag, and the member's identity.
///
/// A task stays at a fixed arena slot for as long as the arena lives. The
/// slot outlives the membership of its stream: a task removed while it is
/// still scheduled stays in the ready queue as an orphan (`live` false,
/// `stream` gone) until the poll loop drains it.
struct Task<S> {
    /// The member stream; `None` for a reservation without a stream yet,
    /// for the stub, and for any slot whose member was released.
    stream: Option<S>,
    /// True once the stream has reported its end; sticky while the task
    /// stays a member.
    done: bool,
    /// The enqueue arbitration flag: true while the task sits in the ready
    /// queue, and also set at release time so that late wake signals
    /// refuse to schedule the slot again.
    queued: bool,
    /// True while the slot belongs to a current member (or to the stub).
    live: bool,
    /// The token under which the member is known; 0 for the stub.
    token: usize,
}

/// A set of streams which may yield items in any order.
///
/// Members are identified by stable nonzero tokens. Only members whose
/// wake signal has fired are polled, so the per-poll cost does not grow
/// with the number of members. See the crate documentation for the yield
/// protocol.
pub struct StreamUnordered<S> {
    /// The arena of task slots; slot 0 is the stub and is never a member.
    tasks: Vec<Task<S>>,
    /// Token index: maps each live token to its arena slot. The stub
    /// permanently occupies token 0, so member tokens are never 0.
    by_id: slab::Slab<usize>,
    /// Arena slots of the current members, oldest insertion first.
    /// Iteration order is the reverse of this sequence.
    members: Vec<usize>,
    /// Arena slots scheduled for a poll, front first.
    ready: Vec<usize>,
    /// True once a poll has reported the set exhausted; any insertion
    /// clears it.
    terminated: bool,
}

/// No two elements of the sequence are equal.
spec fn distinct_seq(s: Seq<usize>) -> bool {
    forall|a: int, b: int| 0 <= a < b < s.len() ==> s[a] != s[b]
}

impl<S> StreamUnordered<S> {
    /// The token index as a map from token to arena slot.
    pub closed spec fn ids(&self) -> Map<usize, usize> {
        slab_entries(self.by_id)
    }

    /// Whether `token` currently names a member (reservations included).
    pub closed spec fn is_member(&self, token: usize) -> bool {
        token != 0 && self.ids().contains_key(token)
    }

    /// The number of current members, reservations included.
    pub closed spec fn member_count(&self) -> nat {
        self.members@.len()
    }

    /// The stream stored under `token`: `None` if the token names no
    /// member or the member is a reservation without a stream.
    pub closed spec fn spec_stream(&self, token: usize) -> Option<S> {
        if self.is_member(token) {
            self.tasks@[self.ids()[token] as int].stream
        } else {
            None
        }
    }

    /// Whether the member named by `token` has reported its end.
    pub closed spec fn spec_done(&self, token: usize) -> bool {
        self.is_member(token) && self.tasks@[self.ids()[token] as int].done
    }

    /// Whether the set has reported itself exhausted and nothing has been
    /// inserted since.
    pub closed spec fn spec_terminated(&self) -> bool {
        self.terminated
    }

    /// Whether the member named by `token` is currently scheduled for a
    /// poll: its wake signal has fired and has not been consumed yet.
    pub closed spec fn spec_scheduled(&self, token: usize) -> bool {
        self.is_member(token) && self.tasks@[self.ids()[token] as int].queued
    }

    /// The tokens in the ready queue, front first: the order in which
    /// wake signals arrived and polls will serve them. A released slot
    /// still draining through the queue appears under the token it had.
    pub closed spec fn sched_order(&self) -> Seq<usize> {
        Seq::new(self.ready@.len(), |k: int| self.tasks@[self.ready@[k] as int].token)
    }

    /// The member tokens in insertion order, oldest first. Iteration
    /// walks this sequence from its end.
    pub closed spec fn token_order(&self) -> Seq<usize> {
        Seq::new(self.members@.len(), |k: int| self.tasks@[self.members@[k] as int].token)
    }

    /// Well-formedness of the whole controller state.
    pub closed spec fn wf(&self) -> bool {
        let ids = self.ids();
        let tasks = self.tasks@;
        let members = self.members@;
        let ready = self.ready@;
        &&& tasks.len() >= 1
        &&& ids.contains_key(0) && ids[0] == 0
        &&& tasks[0].live && tasks[0].token == 0 && tasks[0].stream is None && !tasks[0].done
            && tasks[0].queued
        &&& forall|t: usize| #[trigger] ids.contains_key(t) ==> ids[t] < tasks.len()
            && tasks[ids[t] as int].live && tasks[ids[t] as int].token == t
        &&& forall|i: int| 0 <= i < tasks.len() && (#[trigger] tasks[i]).live
            ==> ids.contains_key(tasks[i].token) && ids[tasks[i].token] == i
        &&& forall|k: int| 0 <= k < members.len() ==> (#[trigger] members[k]) < tasks.len()
            && tasks[members[k] as int].live && members[k] != 0
        &&& distinct_seq(members)
        &&& forall|i: int| 0 <= i < tasks.len() && (#[trigger] tasks[i]).live && i != 0
            ==> members.contains(i as usize)
        &&& forall|k: int| 0 <= k < ready.len() ==> (#[trigger] ready[k]) < tasks.len()
            && ready[k] != 0 && tasks[ready[k] as int].queued
        &&& distinct_seq(ready)
        &&& forall|i: int| 0 <= i < tasks.len() && !(#[trigger] tasks[i]).live
            ==> tasks[i].stream is None
        &&& forall|i: int| 0 <= i < tasks.len() && (#[trigger] tasks[i]).live && !tasks[i].done
            && i != 0 ==> (tasks[i].queued <==> ready.contains(i as usize))
        &&& (self.terminated ==> members.len() == 0)
    }

    /// Constructs a new, empty set.
    ///
    /// The returned set contains no streams; in this state a poll reports
    /// it exhausted.
    pub fn new() -> (s: StreamUnordered<S>)
        ensures
            s.wf(),
            s.member_count() == 0,
            !s.spec_terminated(),
            forall|t: usize| !s.is_member(t),
            s.token_order() == Seq::<usize>::empty(),
    {
        let mut by_id = slab_alloc();
        let _ = slab_reset_with(&mut by_id, 0);
        let mut tasks: Vec<Task<S>> = Vec::new();
        tasks.push(Task { stream: None, done: false, queued: true, live: true, token: 0 });
        let s = StreamUnordered {
            tasks,
            by_id,
            members: Vec::new(),
            ready: Vec::new(),
            terminated: false,
        };
        proof {
            assert(s.ids() =~= Map::<usize, usize>::empty().insert(0, 0));
            assert(s.token_order() =~= Seq::<usize>::empty());
        }
        s
    }

    /// Returns the number of streams contained in the set, reservations
    /// included.
    pub fn len(&self) -> (r: usize)
        requires
            self.wf(),
        ensures
            r == self.member_count(),
    {
        self.members.len()
    }

    /// Returns `true` if the set contains no streams.
    pub fn is_empty(&self) -> (r: bool)
        requires
            self.wf(),
        ensures
            r == (self.member_count() == 0),
    {
        self.members.len() == 0
    }

    /// Returns `true` if the set has reported itself exhausted and nothing
    /// has been inserted since.
    pub fn is_terminated(&self) -> (r: bool)
        requires
            self.wf(),
        ensures
            r == self.spec_terminated(),
            r ==> self.member_count() == 0,
    {
        self.terminated
    }
}

impl<S> Default for StreamUnordered<S> {
    /// An empty set, as [`StreamUnordered::new`] builds it.
    fn default() -> (s: Self)
        ensures
            s.wf(),
            s.member_count() == 0,
            !s.spec_terminated(),
            forall|t: usize| !s.is_member(t),
    {
        StreamUnordered::new()
    }
}

/// Pushing an element extends exactly the set of values a sequence holds.
proof fn lemma_push_contains(s: Seq<usize>, x: usize, y: usize)
    ensures
        s.push(x).contains(y) <==> (s.contains(y) || y == x),
{
    if s.contains(y) {
        let k = choose|k: int| 0 <= k < s.len() && s[k] == y;
        assert(s.push(x)[k] == y);
    }
    if y == x {
        assert(s.push(x)[s.len() as int] == y);
    }
    if s.push(x).contains(y) && y != x {
        let k = choose|k: int| 0 <= k < s.push(x).len() && s.push(x)[k] == y;
        assert(0 <= k < s.len());
        assert(s[k] == y);
    }
}

/// Pushing a value that is not yet present keeps a sequence duplicate-free.
proof fn lemma_distinct_push(s: Seq<usize>, x: usize)
    requires
        distinct_seq(s),
        !s.contains(x),
    ensures
        distinct_seq(s.push(x)),
{
    assert forall|a: int, b: int| 0 <= a < b < s.push(x).len() implies s.push(x)[a] != s.push(
        x,
    )[b] by {
        if b == s.len() {
            assert(s[a] == s.push(x)[a]);
            if s.push(x)[a] == x {
                assert(s.contains(x));
            }
        }
    }
}

/// Removing an index from a duplicate-free sequence removes exactly that
/// one value.
proof fn lemma_remove_contains(s: Seq<usize>, i: int, y: usize)
    requires
        0 <= i < s.len(),
        distinct_seq(s),
    ensures
        s.remove(i).contains(y) <==> (s.contains(y) && y != s[i]),
{
    s.remove_ensures(i);
    let r = s.remove(i);
    if r.contains(y) {
        let k = choose|k: int| 0 <= k < r.len() && r[k] == y;
        if k < i {
            assert(s[k] == y);
            assert(s.contains(y));
            assert(y != s[i]);
        } else {
            assert(s[k + 1] == y);
            assert(s.contains(y));
            assert(y != s[i]);
        }
    }
    if s.contains(y) && y != s[i] {
        let k = choose|k: int| 0 <= k < s.len() && s[k] == y;
        if k < i {
            assert(r[k] == y);
        } else {
            assert(r[k - 1] == y);
        }
    }
}

/// Removing an index keeps a sequence duplicate-free.
proof fn lemma_distinct_remove(s: Seq<usize>, i: int)
    requires
        0 <= i < s.len(),
        distinct_seq(s),
    ensures
        distinct_seq(s.remove(i)),
{
    s.remove_ensures(i);
    let r = s.remove(i);
    assert forall|a: int, b: int| 0 <= a < b < r.len() implies r[a] != r[b] by {
        if b < i {
        } else if a < i {
            assert(r[a] == s[a] && r[b] == s[b + 1]);
        } else {
            assert(r[a] == s[a + 1] && r[b] == s[b + 1]);
        }
    }
}

/// Dropping the front of a suffix advances the suffix by one.
proof fn lemma_skip_pop<A>(s: Seq<A>, d: int)
    requires
        0 <= d < s.len(),
    ensures
        s.skip(d).remove(0) == s.skip(d + 1),
{
    s.skip(d).remove_ensures(0);
    assert(s.skip(d).remove(0) =~= s.skip(d + 1)) by {
        assert forall|j: int|
            0 <= j < s.skip(d).remove(0).len() implies s.skip(d).remove(0)[j] == s.skip(
            d + 1,
        )[j] by {
            assert(s.skip(d).remove(0)[j] == s.skip(d)[j + 1]);
        }
    }
}

/// Find the position of a value known to occur in the vector.
fn find_pos(v: &Vec<usize>, x: usize) -> (pos: usize)
    requires
        v@.contains(x),
    ensures
        pos < v@.len(),
        v@[pos as int] == x,
{
    let n = v.len();
    let mut k: usize = 0;
    while k < n
        invariant
            n == v@.len(),
            v@.contains(x),
            k <= n,
            forall|j: int| 0 <= j < k ==> v@[j] != x,
        decreases n - k,
    {
        if v[k] == x {
            return k;
        }
        k = k + 1;
    }
    proof {
        let w = choose|w: int| 0 <= w < v@.len() && v@[w] == x;
        assert(false);
    }
    vstd::pervasive::unreached()
}

impl<S> StreamUnordered<S> {
    /// What reserving a slot does: a fresh nonzero token joins the members
    /// with no stream and no completion mark, everything else is kept, and
    /// a terminated set becomes live again.
    pub open spec fn reserve_effect(pre: Self, post: Self, t: usize) -> bool {
        &&& t != 0
        &&& !pre.is_member(t)
        &&& post.is_member(t)
        &&& post.spec_stream(t) is None
        &&& !post.spec_done(t)
        &&& forall|u: usize| u != t ==> post.is_member(u) == pre.is_member(u)
        &&& forall|u: usize| u != t ==> post.spec_stream(u) == pre.spec_stream(u)
        &&& forall|u: usize| u != t ==> post.spec_done(u) == pre.spec_done(u)
        &&& post.member_count() == pre.member_count() + 1
        &&& post.token_order() == pre.token_order().push(t)
        &&& !post.spec_terminated()
        &&& post.spec_scheduled(t)
        &&& post.sched_order() == pre.sched_order().push(t)
    }

    /// What supplying the stream of a reservation does: the stream appears
    /// under the reserved token and nothing else changes.
    pub open spec fn insert_effect(pre: Self, post: Self, t: usize, s: S) -> bool {
        &&& post.spec_stream(t) == Some(s)
        &&& !post.spec_done(t)
        &&& forall|u: usize| post.is_member(u) == pre.is_member(u)
        &&& forall|u: usize| u != t ==> post.spec_stream(u) == pre.spec_stream(u)
        &&& forall|u: usize| post.spec_done(u) == pre.spec_done(u)
        &&& post.member_count() == pre.member_count()
        &&& post.token_order() == pre.token_order()
        &&& post.spec_terminated() == pre.spec_terminated()
        &&& post.spec_scheduled(t)
        &&& (pre.spec_scheduled(t) ==> post.sched_order() == pre.sched_order())
        &&& (!pre.spec_scheduled(t) ==> post.sched_order() == pre.sched_order().push(t))
    }

    /// What pushing a stream does: reservation and insertion in one step.
    pub open spec fn push_effect(pre: Self, post: Self, s: S, t: usize) -> bool {
        &&& t != 0
        &&& !pre.is_member(t)
        &&& post.is_member(t)
        &&& post.spec_stream(t) == Some(s)
        &&& !post.spec_done(t)
        &&& forall|u: usize| u != t ==> post.is_member(u) == pre.is_member(u)
        &&& forall|u: usize| u != t ==> post.spec_stream(u) == pre.spec_stream(u)
        &&& forall|u: usize| u != t ==> post.spec_done(u) == pre.spec_done(u)
        &&& post.member_count() == pre.member_count() + 1
        &&& post.token_order() == pre.token_order().push(t)
        &&& !post.spec_terminated()
        &&& post.spec_scheduled(t)
        &&& post.sched_order() == pre.sched_order().push(t)
    }

    /// Returns a handle to a vacant stream entry allowing for further
    /// manipulation.
    ///
    /// This is useful when creating values that must contain their stream
    /// token: the reservation makes the token known before the stream value
    /// is supplied through [`StreamEntry::insert`].
    pub fn stream_entry(&mut self) -> (e: StreamEntry)
        requires
            old(self).wf(),
        ensures
            final(self).wf(),
            Self::reserve_effect(*old(self), *final(self), e.spec_token()),
            e.spec_was_terminated() == old(self).spec_terminated(),
    {
        let ghost pre = *old(self);
        let was_terminated = self.terminated;
        let idx = self.tasks.len();
        let token = slab_insert(&mut self.by_id, idx);
        self.tasks.push(
            Task { stream: None, done: false, queued: true, live: true, token },
        );
        self.members.push(idx);
        self.ready.push(idx);
        self.terminated = false;
        proof {
            let post = *self;
            assert(token != 0) by {
                assert(pre.ids().contains_key(0));
            }
            assert forall|u: usize| #[trigger] post.ids().contains_key(u) implies post.ids()[u]
                < post.tasks@.len() && post.tasks@[post.ids()[u] as int].live && post.tasks@[post.ids()[u] as int].token
                == u by {
                if u != token {
                    assert(pre.ids().contains_key(u));
                }
            }
            assert forall|i: int|
                0 <= i < post.tasks@.len() && (#[trigger] post.tasks@[i]).live implies post.ids().contains_key(
                post.tasks@[i].token,
            ) && post.ids()[post.tasks@[i].token] == i by {
                if i < idx {
                    assert(pre.tasks@[i].live);
                    assert(pre.ids().contains_key(pre.tasks@[i].token));
                    assert(pre.tasks@[i].token != token);
                }
            }
            lemma_distinct_push(pre.members@, idx as usize);
            lemma_distinct_push(pre.ready@, idx as usize);
            assert forall|i: int|
                0 <= i < post.tasks@.len() && (#[trigger] post.tasks@[i]).live && i != 0 implies post.members@.contains(
                i as usize,
            ) by {
                lemma_push_contains(pre.members@, idx as usize, i as usize);
                if i < idx {
                    assert(pre.tasks@[i].live);
                }
            }
            assert forall|i: int|
                0 <= i < post.tasks@.len() && (#[trigger] post.tasks@[i]).live && !post.tasks@[i].done
                && i != 0 implies (post.tasks@[i].queued <==> post.ready@.contains(i as usize)) by {
                lemma_push_contains(pre.ready@, idx as usize, i as usize);
                if i < idx {
                    assert(pre.tasks@[i].live && !pre.tasks@[i].done);
                }
            }
            assert forall|k: int| 0 <= k < post.members@.len() implies (#[trigger] post.members@[k])
                < post.tasks@.len() && post.tasks@[post.members@[k] as int].live && post.members@[k]
                != 0 by {
                if k < pre.members@.len() {
                    assert(post.members@[k] == pre.members@[k]);
                }
            }
            assert(post.wf());
            assert(post.token_order() =~= pre.token_order().push(token)) by {
                assert forall|k: int| 0 <= k < pre.members@.len() implies post.token_order()[k]
                    == pre.token_order()[k] by {
                    assert(post.members@[k] == pre.members@[k]);
                    assert(pre.members@[k] < idx);
                }
                assert(post.members@[pre.members@.len() as int] == idx);
                assert(post.token_order()[pre.members@.len() as int] == token);
            }
            assert forall|u: usize| u != token implies post.spec_stream(u) == pre.spec_stream(
                u,
            ) by {
                if pre.is_member(u) {
                    assert(pre.ids().contains_key(u));
                    assert(pre.ids()[u] < idx);
                }
            }
            assert forall|u: usize| u != token implies post.spec_done(u) == pre.spec_done(u) by {
                if pre.is_member(u) {
                    assert(pre.ids()[u] < idx);
                }
            }
            assert(post.sched_order() =~= pre.sched_order().push(token)) by {
                assert forall|k: int| 0 <= k < pre.ready@.len() implies post.sched_order()[k]
                    == pre.sched_order()[k] by {
                    assert(post.ready@[k] == pre.ready@[k]);
                    assert(pre.ready@[k] < idx);
                }
                assert(post.ready@[pre.ready@.len() as int] == idx);
            }
        }
        StreamEntry::new(token, was_terminated)
    }

    /// Push a stream into the set.
    ///
    /// The stream is registered and primed for its first poll, but nothing
    /// is polled by this call itself. The returned token identifies the
    /// stream in this set for as long as it stays a member, and is yielded
    /// with every item the stream produces.
    pub fn push(&mut self, stream: S) -> (token: usize)
        requires
            old(self).wf(),
        ensures
            final(self).wf(),
            Self::push_effect(*old(self), *final(self), stream, token),
    {
        let e = self.stream_entry();
        let token = e.token();
        e.insert(self, stream);
        token
    }
}

impl StreamEntry {
    /// Insert a stream in the reserved slot.
    ///
    /// To get the token associated with the stream, use
    /// [`StreamEntry::token`] prior to calling this.
    pub fn insert<S>(self, su: &mut StreamUnordered<S>, stream: S)
        requires
            old(su).wf(),
            old(su).is_member(self.spec_token()),
            old(su).spec_stream(self.spec_token()) is None,
            !old(su).spec_done(self.spec_token()),
        ensures
            final(su).wf(),
            StreamUnordered::<S>::insert_effect(
                *old(su),
                *final(su),
                self.spec_token(),
                stream,
            ),
    {
        let ghost pre = *old(su);
        let t = self.token();
        let idx = match slab_get(&su.by_id, t) {
            Some(i) => i,
            None => {
                proof {
                    assert(false);
                }
                vstd::pervasive::unreached()
            },
        };
        let tr = &mut su.tasks[idx];
        tr.stream = Some(stream);
        let was_queued = tr.queued;
        tr.queued = true;
        if !was_queued {
            su.ready.push(idx);
        }
        proof {
            let post = *su;
            if !was_queued {
                lemma_distinct_push(pre.ready@, idx);
                assert forall|i: int|
                    0 <= i < post.tasks@.len() && (#[trigger] post.tasks@[i]).live
                    && !post.tasks@[i].done && i != 0 implies (post.tasks@[i].queued
                    <==> post.ready@.contains(i as usize)) by {
                    lemma_push_contains(pre.ready@, idx, i as usize);
                    if i != idx {
                        assert(pre.tasks@[i] == post.tasks@[i]);
                    }
                }
            }
            assert(post.wf());
            assert(post.token_order() =~= pre.token_order());
            assert forall|u: usize| u != t implies post.spec_stream(u) == pre.spec_stream(u) by {
                if pre.is_member(u) {
                    assert(pre.ids()[u] != idx);
                }
            }
            assert forall|u: usize| post.spec_done(u) == pre.spec_done(u) by {
                if pre.is_member(u) && u != t {
                    assert(pre.ids()[u] != idx);
                }
            }
            if was_queued {
                assert(pre.spec_scheduled(t));
                assert(post.sched_order() =~= pre.sched_order());
            } else {
                assert(!pre.spec_scheduled(t));
                assert(post.sched_order() =~= pre.sched_order().push(t)) by {
                    assert forall|k: int| 0 <= k < pre.ready@.len() implies post.sched_order()[k]
                        == pre.sched_order()[k] by {
                        assert(post.ready@[k] == pre.ready@[k]);
                        assert(pre.ready@[k] != idx) by {
                            if pre.ready@[k] == idx {
                                assert(pre.ready@.contains(idx));
                            }
                        }
                    }
                    assert(post.ready@[pre.ready@.len() as int] == idx);
                }
            }
        }
    }
}

impl<S> StreamUnordered<S> {
    /// What removing a token does: nothing when the token names no member;
    /// otherwise the member leaves the set, its stream is gone, and every
    /// other member is kept as it was.
    pub open spec fn remove_effect(pre: Self, post: Self, t: usize, r: bool) -> bool {
        &&& r == pre.is_member(t)
        &&& (!r ==> post == pre)
        &&& (r ==> {
            &&& !post.is_member(t)
            &&& forall|u: usize| u != t ==> post.is_member(u) == pre.is_member(u)
            &&& forall|u: usize| u != t ==> post.spec_stream(u) == pre.spec_stream(u)
            &&& forall|u: usize| u != t ==> post.spec_done(u) == pre.spec_done(u)
            &&& post.member_count() + 1 == pre.member_count()
            &&& (exists|k: int|
                0 <= k < pre.token_order().len() && pre.token_order()[k] == t
                    && post.token_order() == pre.token_order().remove(k))
            &&& post.spec_terminated() == pre.spec_terminated()
        })
    }

    /// What giving a reservation up does: like a removal of the reserved
    /// token, except that the terminated mark the set carried when the
    /// reservation was made comes back once the set is empty again.
    pub open spec fn cancel_effect(pre: Self, post: Self, t: usize, was_terminated: bool) -> bool {
        &&& !post.is_member(t)
        &&& forall|u: usize| u != t ==> post.is_member(u) == pre.is_member(u)
        &&& forall|u: usize| u != t ==> post.spec_stream(u) == pre.spec_stream(u)
        &&& forall|u: usize| u != t ==> post.spec_done(u) == pre.spec_done(u)
        &&& post.member_count() + 1 == pre.member_count()
        &&& (exists|k: int|
            0 <= k < pre.token_order().len() && pre.token_order()[k] == t
                && post.token_order() == pre.token_order().remove(k))
        &&& post.spec_terminated() == (was_terminated && post.member_count() == 0)
    }

    /// Both sets answer every observation alike: same members, same
    /// streams, same completion marks, same count, order and termination.
    pub open spec fn same_observables(pre: Self, post: Self) -> bool {
        &&& forall|u: usize| post.is_member(u) == pre.is_member(u)
        &&& forall|u: usize| post.spec_stream(u) == pre.spec_stream(u)
        &&& forall|u: usize| post.spec_done(u) == pre.spec_done(u)
        &&& post.member_count() == pre.member_count()
        &&& post.token_order() == pre.token_order()
        &&& post.spec_terminated() == pre.spec_terminated()
    }

    /// Tear the member named by `token` down: drop it from the token index
    /// and the membership order, and hand back its stream value. The task
    /// slot is released; if it still sits in the ready queue it stays there
    /// as an orphan until a poll drains it.
    fn release_token(&mut self, token: usize) -> (r: (bool, Option<S>))
        requires
            old(self).wf(),
        ensures
            final(self).wf(),
            Self::remove_effect(*old(self), *final(self), token, r.0),
            r.1 == (if old(self).is_member(token) {
                old(self).spec_stream(token)
            } else {
                None::<S>
            }),
    {
        let ghost pre = *old(self);
        if token == 0 {
            return (false, None);
        }
        let idx = match slab_get(&self.by_id, token) {
            Some(i) => i,
            None => {
                return (false, None);
            },
        };
        proof {
            assert(pre.tasks@[idx as int].token == token);
            assert(idx != 0);
            assert(pre.members@.contains(idx));
        }
        let pos = find_pos(&self.members, idx);
        let _ = slab_remove(&mut self.by_id, token);
        self.members.remove(pos);
        let tr = &mut self.tasks[idx];
        tr.live = false;
        let stream = tr.stream.take();
        tr.queued = true;
        proof {
            let post = *self;
            pre.members@.remove_ensures(pos as int);
            lemma_distinct_remove(pre.members@, pos as int);
            assert forall|u: usize| #[trigger] post.ids().contains_key(u) implies post.ids()[u]
                < post.tasks@.len() && post.tasks@[post.ids()[u] as int].live
                && post.tasks@[post.ids()[u] as int].token == u by {
                assert(pre.ids().contains_key(u));
                assert(pre.ids()[u] != idx);
            }
            assert forall|i: int|
                0 <= i < post.tasks@.len() && (#[trigger] post.tasks@[i]).live implies post.ids().contains_key(
                post.tasks@[i].token,
            ) && post.ids()[post.tasks@[i].token] == i by {
                assert(i != idx);
                assert(pre.tasks@[i].live);
                assert(pre.tasks@[i].token != token);
            }
            assert forall|k: int| 0 <= k < post.members@.len() implies (#[trigger] post.members@[k])
                < post.tasks@.len() && post.tasks@[post.members@[k] as int].live
                && post.members@[k] != 0 by {
                lemma_remove_contains(pre.members@, pos as int, post.members@[k]);
                assert(pre.members@.contains(post.members@[k]));
                assert(post.members@[k] != idx);
            }
            assert forall|i: int|
                0 <= i < post.tasks@.len() && (#[trigger] post.tasks@[i]).live && i != 0 implies post.members@.contains(
                i as usize,
            ) by {
                assert(i != idx);
                assert(pre.members@.contains(i as usize));
                lemma_remove_contains(pre.members@, pos as int, i as usize);
            }
            assert forall|i: int|
                0 <= i < post.tasks@.len() && (#[trigger] post.tasks@[i]).live
                && !post.tasks@[i].done && i != 0 implies (post.tasks@[i].queued
                <==> post.ready@.contains(i as usize)) by {
                assert(i != idx);
            }
            assert(post.wf());
            assert(post.token_order() =~= pre.token_order().remove(pos as int)) by {
                assert forall|k: int| 0 <= k < post.members@.len() implies post.token_order()[k]
                    == pre.token_order().remove(pos as int)[k] by {
                    pre.token_order().remove_ensures(pos as int);
                    if k < pos {
                        assert(post.members@[k] == pre.members@[k]);
                        assert(post.members@[k] != idx);
                    } else {
                        assert(post.members@[k] == pre.members@[k + 1]);
                        assert(post.members@[k] != idx);
                    }
                }
            }
            assert(pre.token_order()[pos as int] == token);
            assert forall|u: usize| u != token implies post.spec_stream(u) == pre.spec_stream(
                u,
            ) by {
                if pre.is_member(u) {
                    assert(pre.ids()[u] != idx);
                }
            }
            assert forall|u: usize| u != token implies post.spec_done(u) == pre.spec_done(u) by {
                if pre.is_member(u) {
                    assert(pre.ids()[u] != idx);
                }
            }
        }
        (true, stream)
    }

    /// Build a set from a vector of streams, pushing them in order.
    ///
    /// Every stream becomes a member primed for its first poll; the
    /// membership order lists them oldest first, and under the token at
    /// each position of that order stands the stream that was given at
    /// the same position of the vector.
    pub fn from_streams(streams: Vec<S>) -> (s: StreamUnordered<S>)
        ensures
            s.wf(),
            !s.spec_terminated(),
            s.member_count() == streams@.len(),
            s.token_order().len() == streams@.len(),
            forall|k: int|
                0 <= k < streams@.len() ==> s.spec_stream(#[trigger] s.token_order()[k])
                    == Some(streams@[k]),
    {
        let ghost orig = streams@;
        let mut rest = streams;
        let mut s = StreamUnordered::new();
        let n = rest.len();
        let mut i: usize = 0;
        proof {
            assert(orig.skip(0) =~= orig);
            assert(s.token_order() == Seq::<usize>::empty());
        }
        while i < n
            invariant
                n == orig.len(),
                rest@ == orig.skip(i as int),
                i <= n,
                s.wf(),
                !s.spec_terminated(),
                s.member_count() == i,
                s.token_order().len() == i,
                forall|k: int|
                    0 <= k < i ==> s.spec_stream(#[trigger] s.token_order()[k])
                        == Some(orig[k]),
            decreases n - i,
        {
            proof {
                lemma_skip_pop(orig, i as int);
            }
            let st = rest.remove(0);
            let ghost prev = s;
            let t = s.push(st);
            proof {
                assert(st == orig[i as int]);
                assert forall|k: int|
                    0 <= k < i + 1 implies s.spec_stream(#[trigger] s.token_order()[k])
                    == Some(orig[k]) by {
                    if k < i {
                        assert(s.token_order()[k] == prev.token_order()[k]);
                        assert(prev.spec_stream(prev.token_order()[k]) == Some(orig[k]));
                        assert(prev.is_member(prev.token_order()[k]));
                        assert(prev.token_order()[k] != t);
                    } else {
                        assert(s.token_order()[k] == t);
                    }
                }
            }
            i = i + 1;
        }
        s
    }

    /// Remove a stream from the set.
    ///
    /// The stream is dropped and no longer yields stream events. Returns
    /// whether a member was removed: false for token 0 and for any token
    /// that names no current member.
    pub fn remove(&mut self, token: usize) -> (r: bool)
        requires
            old(self).wf(),
        ensures
            final(self).wf(),
            Self::remove_effect(*old(self), *final(self), token, r),
    {
        let (found, stream) = self.release_token(token);
        let _ = stream;
        found
    }

    /// Remove and return a stream from the set.
    ///
    /// The stream is no longer polled and no longer yields stream events.
    /// Returns the stream stored under the token: nothing for token 0, for
    /// an unknown token, or for a reservation whose stream was never
    /// supplied (the reservation itself is still removed).
    pub fn take(&mut self, token: usize) -> (r: Option<S>)
        requires
            old(self).wf(),
        ensures
            final(self).wf(),
            Self::remove_effect(*old(self), *final(self), token, old(self).is_member(token)),
            r == (if old(self).is_member(token) {
                old(self).spec_stream(token)
            } else {
                None::<S>
            }),
    {
        let (found, stream) = self.release_token(token);
        let _ = found;
        stream
    }

    /// Returns a reference to the stream with the given token, if the
    /// token names a member that has a stream.
    pub fn get(&self, token: usize) -> (r: Option<&S>)
        requires
            self.wf(),
        ensures
            (r is Some <==> (self.is_member(token) && self.spec_stream(token) is Some)),
            (r matches Some(s) ==> self.spec_stream(token) == Some(*s)),
    {
        if token == 0 {
            return None;
        }
        match slab_get(&self.by_id, token) {
            None => None,
            Some(idx) => {
                let tr = &self.tasks[idx];
                tr.stream.as_ref()
            },
        }
    }

    /// Returns whether the stream with the given token has reported its
    /// end, or nothing if the token names no member.
    pub fn is_finished(&self, token: usize) -> (r: Option<bool>)
        requires
            self.wf(),
        ensures
            r == (if self.is_member(token) {
                Some(self.spec_done(token))
            } else {
                None::<bool>
            }),
    {
        if token == 0 {
            return None;
        }
        match slab_get(&self.by_id, token) {
            None => None,
            Some(idx) => {
                let tr = &self.tasks[idx];
                Some(tr.done)
            },
        }
    }

    /// Deliver a wake signal for the member named by `token`.
    ///
    /// If the member is not yet scheduled, it joins the back of the ready
    /// queue and the next poll will reach it; a member already scheduled,
    /// a finished member that was drained before, the stub and an unknown
    /// token are all left alone. No observation on the set changes.
    pub fn wake(&mut self, token: usize)
        requires
            old(self).wf(),
        ensures
            final(self).wf(),
            Self::same_observables(*old(self), *final(self)),
            old(self).is_member(token) ==> final(self).spec_scheduled(token),
            forall|u: usize|
                u != token ==> final(self).spec_scheduled(u) == old(self).spec_scheduled(u),
            (old(self).is_member(token) && !old(self).spec_scheduled(token))
                ==> final(self).sched_order() == old(self).sched_order().push(token),
            (!old(self).is_member(token) || old(self).spec_scheduled(token))
                ==> final(self).sched_order() == old(self).sched_order(),
    {
        let ghost pre = *old(self);
        if token == 0 {
            return;
        }
        let idx = match slab_get(&self.by_id, token) {
            Some(i) => i,
            None => {
                return;
            },
        };
        let already = self.tasks[idx].queued;
        if already {
            return;
        }
        let tr = &mut self.tasks[idx];
        tr.queued = true;
        self.ready.push(idx);
        proof {
            let post = *self;
            assert(idx != 0);
            assert(!pre.ready@.contains(idx));
            lemma_distinct_push(pre.ready@, idx);
            assert forall|i: int|
                0 <= i < post.tasks@.len() && (#[trigger] post.tasks@[i]).live
                && !post.tasks@[i].done && i != 0 implies (post.tasks@[i].queued
                <==> post.ready@.contains(i as usize)) by {
                lemma_push_contains(pre.ready@, idx, i as usize);
                if i != idx {
                    assert(post.tasks@[i] == pre.tasks@[i]);
                }
            }
            assert(post.wf());
            assert(post.token_order() =~= pre.token_order());
            assert forall|u: usize| post.spec_stream(u) == pre.spec_stream(u) by {
                if pre.is_member(u) && pre.ids()[u] == idx {
                    assert(post.tasks@[idx as int].stream == pre.tasks@[idx as int].stream);
                }
            }
            assert forall|u: usize| post.spec_done(u) == pre.spec_done(u) by {
                if pre.is_member(u) && pre.ids()[u] == idx {
                    assert(post.tasks@[idx as int].done == pre.tasks@[idx as int].done);
                }
            }
            assert(post.sched_order() =~= pre.sched_order().push(token)) by {
                assert forall|k: int| 0 <= k < pre.ready@.len() implies post.sched_order()[k]
                    == pre.sched_order()[k] by {
                    assert(post.ready@[k] == pre.ready@[k]);
                }
                assert(post.ready@[pre.ready@.len() as int] == idx);
            }
        }
    }
}

impl StreamEntry {
    /// Give the reservation up.
    ///
    /// The reserved token is freed and the set is left as it was before
    /// the reservation was made.
    pub fn cancel<S>(self, su: &mut StreamUnordered<S>)
        requires
            old(su).wf(),
            old(su).is_member(self.spec_token()),
            old(su).spec_stream(self.spec_token()) is None,
        ensures
            final(su).wf(),
            StreamUnordered::<S>::cancel_effect(
                *old(su),
                *final(su),
                self.spec_token(),
                self.spec_was_terminated(),
            ),
    {
        let ghost pre = *old(su);
        let t = self.token();
        proof {
            assert(!pre.spec_terminated()) by {
                assert(pre.members@.contains(pre.ids()[t]));
            }
        }
        let was_terminated = self.was_terminated_flag();
        let (found, stream) = su.release_token(t);
        let _ = found;
        let _ = stream;
        if was_terminated {
            if su.members.len() == 0 {
                su.terminated = true;
            }
        }
    }
}

/// The poll reported the set exhausted: it returned ready `None`.
pub open spec fn poll_reported_exhausted<I>(r: PollResult<Option<(StreamYield<I>, usize)>>) -> bool {
    match r {
        PollResult::Ready(opt) => opt is None,
        PollResult::Pending => false,
    }
}

/// Poll one slot's stream. The slot must hold a stream; every field of the
/// slot but the stream itself is left as it was, and the stream stays
/// present whatever the poll did to it.
fn poll_slot<S, Cx>(
    tasks: &mut Vec<Task<S>>,
    idx: usize,
    cx: &mut Cx,
    token: usize,
) -> (r: PollResult<Option<<S as PollStream<Cx>>::Item>>) where S: PollStream<Cx>
    requires
        idx < old(tasks)@.len(),
        old(tasks)@[idx as int].stream is Some,
    ensures
        final(tasks)@.len() == old(tasks)@.len(),
        forall|j: int|
            0 <= j < old(tasks)@.len() && j != idx ==> final(tasks)@[j] == old(tasks)@[j],
        final(tasks)@[idx as int].stream is Some,
        final(tasks)@[idx as int].done == old(tasks)@[idx as int].done,
        final(tasks)@[idx as int].queued == old(tasks)@[idx as int].queued,
        final(tasks)@[idx as int].live == old(tasks)@[idx as int].live,
        final(tasks)@[idx as int].token == old(tasks)@[idx as int].token,
{
    let tr = &mut tasks[idx];
    match tr.stream.as_mut() {
        Some(s) => s.poll_next(cx, token),
        None => vstd::pervasive::unreached(),
    }
}

impl<S> StreamUnordered<S> {

    /// After a poll of slot `idx`: the member has left the membership
    /// order at `pos` and rejoined at the head, the front of the ready
    /// queue is gone (the slot itself may have rejoined at the back), and
    /// only the polled slot's stream, `done` and `queued` fields may have
    /// changed. The whole state is well formed again and every other
    /// member reads as before.
    proof fn lemma_relink(&self, snap: Self, idx: usize, pos: int, token: usize)
        requires
            snap.wf(),
            0 <= pos < snap.members@.len(),
            snap.members@[pos] == idx,
            snap.ready@.len() > 0,
            snap.ready@[0] == idx,
            idx < snap.tasks@.len(),
            idx != 0,
            snap.tasks@[idx as int].live,
            !snap.tasks@[idx as int].done,
            snap.tasks@[idx as int].stream is Some,
            token == snap.tasks@[idx as int].token,
            self.tasks@.len() == snap.tasks@.len(),
            forall|j: int|
                0 <= j < snap.tasks@.len() && j != idx ==> self.tasks@[j] == snap.tasks@[j],
            self.tasks@[idx as int].live,
            self.tasks@[idx as int].token == token,
            self.tasks@[idx as int].stream is Some,
            self.by_id == snap.by_id,
            self.members@ == snap.members@.remove(pos).push(idx),
            self.terminated == snap.terminated,
            (self.ready@ == snap.ready@.remove(0) && !self.tasks@[idx as int].queued)
                || (self.ready@ == snap.ready@.remove(0).push(idx)
                && self.tasks@[idx as int].queued),
        ensures
            self.wf(),
            self.member_count() == snap.member_count(),
            forall|u: usize| (self.spec_stream(u) is Some) == (snap.spec_stream(u) is Some),
            forall|u: usize| u != token ==> self.spec_done(u) == snap.spec_done(u),
            self.spec_done(token) == self.tasks@[idx as int].done,
            self.spec_scheduled(token) == self.tasks@[idx as int].queued,
            self.spec_terminated() == snap.spec_terminated(),
            !self.spec_terminated(),
    {
        snap.members@.remove_ensures(pos);
        lemma_distinct_remove(snap.members@, pos);
        lemma_remove_contains(snap.members@, pos, idx);
        lemma_distinct_push(snap.members@.remove(pos), idx);
        snap.ready@.remove_ensures(0);
        lemma_distinct_remove(snap.ready@, 0);
        lemma_remove_contains(snap.ready@, 0, idx);
        assert(snap.ids().contains_key(token) && snap.ids()[token] == idx);
        assert(token != 0);
        assert(!snap.terminated) by {
            assert(snap.members@.len() > 0);
        }
        assert forall|u: usize| #[trigger] self.ids().contains_key(u) implies self.ids()[u]
            < self.tasks@.len() && self.tasks@[self.ids()[u] as int].live
            && self.tasks@[self.ids()[u] as int].token == u by {
            if snap.ids()[u] == idx {
                assert(u == token);
            }
        }
        assert forall|i: int|
            0 <= i < self.tasks@.len() && (#[trigger] self.tasks@[i]).live implies self.ids().contains_key(
            self.tasks@[i].token,
        ) && self.ids()[self.tasks@[i].token] == i by {
            if i != idx {
                assert(snap.tasks@[i].live);
            }
        }
        assert forall|k: int| 0 <= k < self.members@.len() implies (#[trigger] self.members@[k])
            < self.tasks@.len() && self.tasks@[self.members@[k] as int].live && self.members@[k]
            != 0 by {
            if k < self.members@.len() - 1 {
                lemma_remove_contains(snap.members@, pos, self.members@[k]);
                assert(self.members@[k] == snap.members@.remove(pos)[k]);
                assert(snap.members@.contains(self.members@[k]));
            } else {
                assert(self.members@[k] == idx);
            }
        }
        assert forall|i: int|
            0 <= i < self.tasks@.len() && (#[trigger] self.tasks@[i]).live && i != 0 implies self.members@.contains(
            i as usize,
        ) by {
            lemma_push_contains(snap.members@.remove(pos), idx, i as usize);
            if i != idx {
                assert(snap.tasks@[i].live);
                assert(snap.members@.contains(i as usize));
                lemma_remove_contains(snap.members@, pos, i as usize);
            }
        }
        assert(distinct_seq(self.members@));
        if self.ready@ == snap.ready@.remove(0) && !self.tasks@[idx as int].queued {
            assert forall|k: int| 0 <= k < self.ready@.len() implies (#[trigger] self.ready@[k])
                < self.tasks@.len() && self.ready@[k] != 0
                && self.tasks@[self.ready@[k] as int].queued by {
                assert(self.ready@[k] == snap.ready@[k + 1]);
                assert(self.ready@[k] != idx) by {
                    lemma_remove_contains(snap.ready@, 0, idx);
                    assert(snap.ready@.remove(0)[k] == self.ready@[k]);
                    if self.ready@[k] == idx {
                        assert(snap.ready@.remove(0).contains(idx));
                    }
                }
            }
            assert forall|i: int|
                0 <= i < self.tasks@.len() && (#[trigger] self.tasks@[i]).live
                && !self.tasks@[i].done && i != 0 implies (self.tasks@[i].queued
                <==> self.ready@.contains(i as usize)) by {
                lemma_remove_contains(snap.ready@, 0, i as usize);
            }
            assert(self.wf());
        } else {
            assert(self.ready@ == snap.ready@.remove(0).push(idx));
            lemma_distinct_push(snap.ready@.remove(0), idx);
            assert forall|k: int| 0 <= k < self.ready@.len() implies (#[trigger] self.ready@[k])
                < self.tasks@.len() && self.ready@[k] != 0
                && self.tasks@[self.ready@[k] as int].queued by {
                if k < self.ready@.len() - 1 {
                    assert(self.ready@[k] == snap.ready@.remove(0)[k]);
                    assert(self.ready@[k] == snap.ready@[k + 1]);
                    if self.ready@[k] == idx {
                        assert(snap.ready@.remove(0).contains(idx));
                        assert(false);
                    }
                } else {
                    assert(self.ready@[k] == idx);
                }
            }
            assert forall|i: int|
                0 <= i < self.tasks@.len() && (#[trigger] self.tasks@[i]).live
                && !self.tasks@[i].done && i != 0 implies (self.tasks@[i].queued
                <==> self.ready@.contains(i as usize)) by {
                lemma_push_contains(snap.ready@.remove(0), idx, i as usize);
                lemma_remove_contains(snap.ready@, 0, i as usize);
            }
            assert(self.wf());
        }
        assert forall|u: usize| (self.spec_stream(u) is Some) == (snap.spec_stream(
            u,
        ) is Some) by {
            if snap.is_member(u) && snap.ids()[u] == idx {
                assert(u == token);
            }
        }
        assert forall|u: usize| u != token implies self.spec_done(u) == snap.spec_done(u) by {
            if snap.is_member(u) && snap.ids()[u] == idx {
                assert(u == token);
            }
        }
    }


    /// Settle the outcome of polling the member at slot `idx`, and say
    /// what the poll loop hands out for each value of the result.
    ///
    /// `Pending` relinks the member, leaves it unscheduled and hands
    /// nothing out; `Ready(None)` marks the member done, relinks it and
    /// hands out the finished notice carrying its token; `Ready(Some(x))`
    /// relinks the member, reschedules it at the back of the ready queue
    /// and hands out `x` itself, tagged with the member's token.
    fn settle<I>(
        &mut self,
        idx: usize,
        token: usize,
        res: PollResult<Option<I>>,
        Ghost(snap): Ghost<Self>,
        Ghost(pos): Ghost<int>,
    ) -> (out: Option<(StreamYield<I>, usize)>)
        requires
            snap.wf(),
            0 <= pos < snap.members@.len(),
            snap.members@[pos] == idx,
            snap.ready@.len() > 0,
            snap.ready@[0] == idx,
            idx < snap.tasks@.len(),
            idx != 0,
            snap.tasks@[idx as int].live,
            !snap.tasks@[idx as int].done,
            snap.tasks@[idx as int].stream is Some,
            token == snap.tasks@[idx as int].token,
            old(self).tasks@.len() == snap.tasks@.len(),
            forall|j: int|
                0 <= j < snap.tasks@.len() && j != idx ==> old(self).tasks@[j]
                    == snap.tasks@[j],
            old(self).tasks@[idx as int].live,
            !old(self).tasks@[idx as int].done,
            !old(self).tasks@[idx as int].queued,
            old(self).tasks@[idx as int].token == token,
            old(self).tasks@[idx as int].stream is Some,
            old(self).by_id == snap.by_id,
            old(self).members@ == snap.members@.remove(pos),
            old(self).ready@ == snap.ready@.remove(0),
            old(self).terminated == snap.terminated,
        ensures
            final(self).wf(),
            final(self).ids() == snap.ids(),
            forall|u: usize| final(self).is_member(u) == snap.is_member(u),
            forall|u: usize|
                (final(self).spec_stream(u) is Some) == (snap.spec_stream(u) is Some),
            forall|u: usize| u != token ==> final(self).spec_done(u) == snap.spec_done(u),
            final(self).member_count() == snap.member_count(),
            final(self).spec_terminated() == snap.spec_terminated(),
            !final(self).spec_terminated(),
            final(self).tasks@.len() == snap.tasks@.len(),
            forall|j: int|
                0 <= j < snap.tasks@.len() ==> (#[trigger] final(self).tasks@[j]).live
                    == snap.tasks@[j].live && final(self).tasks@[j].token
                    == snap.tasks@[j].token,
            forall|k: int|
                0 <= k < final(self).ready@.len() ==> snap.ready@.contains(
                    #[trigger] final(self).ready@[k],
                ),
            (match res {
                PollResult::Pending => {
                    &&& out is None
                    &&& !final(self).spec_done(token)
                    &&& !final(self).spec_scheduled(token)
                    &&& final(self).ready@.len() < snap.ready@.len()
                    &&& final(self).ready@ == old(self).ready@
                },
                PollResult::Ready(opt) => (match opt {
                    None => {
                        &&& out is Some
                        &&& (out matches Some(p) ==> p.1 == token && p.0 is Finished)
                        &&& (out matches Some(p) ==> (p.0 matches StreamYield::Finished(f)
                            ==> f.spec_token() == token))
                        &&& final(self).spec_done(token)
                        &&& !final(self).spec_scheduled(token)
                        &&& final(self).ready@ == old(self).ready@
                    },
                    Some(item) => {
                        &&& out == Some((StreamYield::Item(item), token))
                        &&& !final(self).spec_done(token)
                        &&& final(self).spec_scheduled(token)
                        &&& final(self).sched_order().len() > 0
                        &&& final(self).sched_order().last() == token
                        &&& final(self).ready@ == old(self).ready@.push(idx)
                    },
                }),
            }),
    {
        proof {
            snap.members@.remove_ensures(pos);
            lemma_distinct_remove(snap.members@, pos);
            assert(snap.ids().contains_key(token) && snap.ids()[token] == idx) by {
                assert(snap.tasks@[idx as int].live);
            }
            assert(token != 0);
            assert(snap.is_member(token));
        }
        match res {
            PollResult::Pending => {
                self.members.push(idx);
                proof {
                    self.lemma_relink(snap, idx, pos, token);
                }
                None
            },
            PollResult::Ready(None) => {
                let tr = &mut self.tasks[idx];
                tr.done = true;
                self.members.push(idx);
                let f = FinishedStream::new(token);
                proof {
                    self.lemma_relink(snap, idx, pos, token);
                }
                Some((StreamYield::Finished(f), token))
            },
            PollResult::Ready(Some(item)) => {
                let tr = &mut self.tasks[idx];
                tr.queued = true;
                self.ready.push(idx);
                self.members.push(idx);
                proof {
                    self.lemma_relink(snap, idx, pos, token);
                    assert(self.sched_order().len() > 0 && self.sched_order().last()
                        == token) by {
                        assert(self.ready@.last() == idx);
                    }
                    assert forall|k: int|
                        0 <= k < self.ready@.len() implies snap.ready@.contains(
                        #[trigger] self.ready@[k],
                    ) by {
                        snap.ready@.remove_ensures(0);
                        if k < self.ready@.len() - 1 {
                            assert(self.ready@[k] == snap.ready@[k + 1]);
                        } else {
                            assert(self.ready@[k] == idx);
                            assert(snap.ready@[0] == idx);
                        }
                    }
                }
                Some((StreamYield::Item(item), token))
            },
        }
    }

    /// Poll the combined set once.
    ///
    /// Scheduled members are polled in the order their wake signals
    /// arrived. The call returns the first yield a polled member produces,
    /// tagged with that member's token: an item, or a [`FinishedStream`]
    /// notice when the member reports its end (the member is kept until
    /// the notice decides otherwise). A member that produced an item is
    /// rescheduled at the back of the ready queue before the call returns,
    /// so no single stream can starve the others. With no yield to hand
    /// out, the call reports the set exhausted (ready `None`) when no
    /// members are left, and pending otherwise.
    pub fn poll_next<Cx>(&mut self, cx: &mut Cx) -> (r: PollResult<
        Option<(StreamYield<<S as PollStream<Cx>>::Item>, usize)>,
    >) where S: PollStream<Cx>
        requires
            old(self).wf(),
        ensures
            final(self).wf(),
            forall|u: usize| final(self).is_member(u) == old(self).is_member(u),
            forall|u: usize|
                (final(self).spec_stream(u) is Some) == (old(self).spec_stream(u) is Some),
            final(self).member_count() == old(self).member_count(),
            poll_reported_exhausted(r) <==> old(self).member_count() == 0,
            final(self).spec_terminated() == poll_reported_exhausted(r),
            (r is Pending ==> forall|u: usize|
                final(self).spec_done(u) == old(self).spec_done(u)),
            (r is Pending ==> forall|u: usize|
                !final(self).spec_done(u) ==> !final(self).spec_scheduled(u)),
            (r is Pending ==> final(self).sched_order() == Seq::<usize>::empty()),
            (poll_reported_exhausted(r) ==> final(self).sched_order()
                == Seq::<usize>::empty()),
            (match r {
                PollResult::Ready(opt) => match opt {
                    Some(yt) => {
                        &&& old(self).is_member(yt.1)
                        &&& old(self).spec_scheduled(yt.1)
                        &&& old(self).spec_stream(yt.1) is Some
                        &&& !old(self).spec_done(yt.1)
                        &&& forall|u: usize|
                            u != yt.1 ==> final(self).spec_done(u) == old(self).spec_done(u)
                        &&& (match yt.0 {
                            StreamYield::Item(_) => !final(self).spec_done(yt.1)
                                && final(self).spec_scheduled(yt.1)
                                && final(self).sched_order().len() > 0
                                && final(self).sched_order().last() == yt.1,
                            StreamYield::Finished(f) => f.spec_token() == yt.1
                                && final(self).spec_done(yt.1)
                                && !final(self).spec_scheduled(yt.1),
                        })
                        &&& (exists|k: int|
                            {
                                &&& 0 <= k < old(self).sched_order().len()
                                &&& old(self).sched_order()[k] == yt.1
                                &&& (match yt.0 {
                                    StreamYield::Item(_) => final(self).sched_order()
                                        == old(self).sched_order().skip(k + 1).push(yt.1),
                                    StreamYield::Finished(_) => final(self).sched_order()
                                        == old(self).sched_order().skip(k + 1),
                                })
                            })
                    },
                    None => forall|u: usize|
                        final(self).spec_done(u) == old(self).spec_done(u),
                },
                PollResult::Pending => true,
            }),
    {
        let ghost pre = *old(self);
        let ghost mut drained: int = 0;
        proof {
            assert(pre.ready@.skip(0) =~= pre.ready@);
        }
        loop
            invariant
                pre == *old(self),
                pre.wf(),
                self.wf(),
                self.ids() == pre.ids(),
                forall|u: usize| self.is_member(u) == pre.is_member(u),
                self.tasks@.len() == pre.tasks@.len(),
                forall|j: int|
                    0 <= j < pre.tasks@.len() ==> (#[trigger] self.tasks@[j]).live
                        == pre.tasks@[j].live && self.tasks@[j].token == pre.tasks@[j].token,
                forall|k: int|
                    0 <= k < self.ready@.len() ==> pre.ready@.contains(
                        #[trigger] self.ready@[k],
                    ),
                0 <= drained <= pre.ready@.len(),
                self.ready@ == pre.ready@.skip(drained),
                forall|u: usize|
                    (self.spec_stream(u) is Some) == (pre.spec_stream(u) is Some),
                forall|u: usize| self.spec_done(u) == pre.spec_done(u),
                self.member_count() == pre.member_count(),
                self.spec_terminated() == pre.spec_terminated(),
            decreases self.ready@.len(),
        {
            let ghost snap = *self;
            if self.ready.len() == 0 {
                proof {
                    assert(self.sched_order() =~= Seq::<usize>::empty());
                }
                if self.members.len() == 0 {
                    self.terminated = true;
                    proof {
                        assert(self.sched_order() =~= Seq::<usize>::empty());
                    }
                    return PollResult::Ready(None);
                }
                proof {
                    assert(!snap.spec_terminated());
                    assert forall|u: usize|
                        !self.spec_done(u) implies !self.spec_scheduled(u) by {
                        if self.is_member(u) {
                            let i = self.ids()[u];
                            assert(self.tasks@[i as int].live && i != 0);
                            if self.tasks@[i as int].queued && !self.tasks@[i as int].done {
                                assert(self.ready@.contains(i));
                            }
                        }
                    }
                }
                return PollResult::Pending;
            }
            let idx = self.ready.remove(0);
            let ghost kpos = drained;
            proof {
                assert(kpos < pre.ready@.len()) by {
                    assert(snap.ready@.len() > 0);
                }
                assert(pre.ready@[kpos] == idx) by {
                    assert(snap.ready@[0] == idx);
                }
                lemma_skip_pop(pre.ready@, kpos);
                drained = kpos + 1;
                snap.ready@.remove_ensures(0);
                lemma_distinct_remove(snap.ready@, 0);
                assert(idx != 0);
                assert(idx < snap.tasks@.len());
                assert(pre.ready@.contains(idx)) by {
                    assert(snap.ready@[0] == idx);
                }
                assert(pre.tasks@[idx as int].queued) by {
                    let kk = choose|kk: int|
                        0 <= kk < pre.ready@.len() && pre.ready@[kk] == idx;
                    assert(pre.ready@[kk] == idx);
                }
                assert forall|k: int|
                    0 <= k < self.ready@.len() implies pre.ready@.contains(
                    #[trigger] self.ready@[k],
                ) by {
                    assert(self.ready@[k] == snap.ready@[k + 1]);
                }
            }
            let probe = &self.tasks[idx];
            let live = probe.live;
            let done = probe.done;
            let has_stream = probe.stream.is_some();
            let token = probe.token;
            if !live {
                // An orphan: its member was released while it was still
                // scheduled; the queue hands the slot back here.
                proof {
                    assert forall|i: int|
                        0 <= i < self.tasks@.len() && (#[trigger] self.tasks@[i]).live
                        && !self.tasks@[i].done && i != 0 implies (self.tasks@[i].queued
                        <==> self.ready@.contains(i as usize)) by {
                        lemma_remove_contains(snap.ready@, 0, i as usize);
                        assert(i != idx);
                    }
                }
                continue;
            }
            if done {
                // A late wake for a finished member that is being kept
                // around: ignore it.
                proof {
                    assert forall|i: int|
                        0 <= i < self.tasks@.len() && (#[trigger] self.tasks@[i]).live
                        && !self.tasks@[i].done && i != 0 implies (self.tasks@[i].queued
                        <==> self.ready@.contains(i as usize)) by {
                        lemma_remove_contains(snap.ready@, 0, i as usize);
                        assert(i != idx);
                    }
                }
                continue;
            }
            if !has_stream {
                // A reservation whose stream is still to come: it cannot
                // be polled; it is rescheduled when the stream arrives.
                let tr = &mut self.tasks[idx];
                tr.queued = false;
                proof {
                    assert forall|i: int|
                        0 <= i < self.tasks@.len() && (#[trigger] self.tasks@[i]).live
                        && !self.tasks@[i].done && i != 0 implies (self.tasks@[i].queued
                        <==> self.ready@.contains(i as usize)) by {
                        lemma_remove_contains(snap.ready@, 0, i as usize);
                    }
                    assert forall|u: usize|
                        (self.spec_stream(u) is Some) == (snap.spec_stream(u) is Some) by {
                        if snap.is_member(u) && snap.ids()[u] == idx {
                            assert(self.tasks@[idx as int].stream
                                == snap.tasks@[idx as int].stream);
                        }
                    }
                    assert(self.token_order() =~= snap.token_order());
                }
                continue;
            }
            // A live, unfinished member with a stream: poll it. It leaves
            // the membership order while the poll runs and rejoins at the
            // head afterwards.
            let pos = find_pos(&self.members, idx);
            self.members.remove(pos);
            let tr = &mut self.tasks[idx];
            tr.queued = false;
            let res = poll_slot(&mut self.tasks, idx, cx, token);
            let ghost gres = res;
            let settled = self.settle(idx, token, res, Ghost(snap), Ghost(pos as int));
            match settled {
                None => {
                    proof {
                        assert forall|k: int|
                            0 <= k < self.ready@.len() implies pre.ready@.contains(
                            #[trigger] self.ready@[k],
                        ) by {
                            assert(snap.ready@.contains(self.ready@[k]));
                            let w = choose|w: int|
                                0 <= w < snap.ready@.len() && snap.ready@[w]
                                    == self.ready@[k];
                            assert(pre.ready@.contains(snap.ready@[w]));
                        }
                        assert forall|u: usize| self.spec_done(u) == pre.spec_done(u) by {
                            if u == token {
                                assert(!snap.spec_done(token));
                            }
                        }
                    }
                },
                Some(pair) => {
                    proof {
                        assert(!self.spec_terminated());
                        assert(snap.member_count() > 0) by {
                            assert(snap.members@[pos as int] == idx);
                        }
                        assert(pre.spec_scheduled(token)) by {
                            assert(pre.tasks@[idx as int].token == token);
                            assert(pre.ids().contains_key(token) && pre.ids()[token] == idx);
                        }
                        assert(!snap.spec_done(token));
                        assert(0 <= kpos < pre.sched_order().len());
                        assert(pre.sched_order()[kpos] == token) by {
                            assert(pre.ready@[kpos] == idx);
                            assert(pre.tasks@[idx as int].token == token);
                        }
                        match gres {
                            PollResult::Pending => {
                                assert(false);
                            },
                            PollResult::Ready(None) => {
                                assert(self.ready@ == pre.ready@.skip(kpos + 1)) by {
                                    assert(snap.ready@ == pre.ready@.skip(kpos));
                                }
                                assert(self.sched_order() =~= pre.sched_order().skip(
                                    kpos + 1,
                                )) by {
                                    assert forall|j: int|
                                        0 <= j < self.sched_order().len() implies self.sched_order()[j]
                                        == pre.sched_order().skip(kpos + 1)[j] by {
                                        let i = self.ready@[j];
                                        assert(i == pre.ready@[kpos + 1 + j]);
                                        assert(i < snap.tasks@.len());
                                        assert(self.tasks@[i as int].token
                                            == snap.tasks@[i as int].token);
                                        assert(snap.tasks@[i as int].token
                                            == pre.tasks@[i as int].token);
                                        assert(pre.sched_order()[kpos + 1 + j]
                                            == pre.tasks@[i as int].token);
                                    }
                                }
                            },
                            PollResult::Ready(Some(_)) => {
                                assert(self.ready@ == pre.ready@.skip(kpos + 1).push(
                                    idx,
                                )) by {
                                    assert(snap.ready@ == pre.ready@.skip(kpos));
                                }
                                assert(self.sched_order() =~= pre.sched_order().skip(
                                    kpos + 1,
                                ).push(token)) by {
                                    assert forall|j: int|
                                        0 <= j < self.sched_order().len() implies self.sched_order()[j]
                                        == pre.sched_order().skip(kpos + 1).push(token)[j] by {
                                        let i = self.ready@[j];
                                        assert(i < snap.tasks@.len());
                                        assert(self.tasks@[i as int].token
                                            == snap.tasks@[i as int].token);
                                        assert(snap.tasks@[i as int].token
                                            == pre.tasks@[i as int].token);
                                        if j < self.sched_order().len() - 1 {
                                            assert(i == pre.ready@[kpos + 1 + j]);
                                            assert(pre.sched_order()[kpos + 1 + j]
                                                == pre.tasks@[i as int].token);
                                        } else {
                                            assert(i == idx);
                                        }
                                    }
                                }
                            },
                        }
                    }
                    return PollResult::Ready(Some(pair));
                },
            }
        }
    }
}

impl FinishedStream {
    /// Remove the exhausted stream from its set.
    ///
    /// See [`StreamUnordered::remove`].
    pub fn remove<S>(self, su: &mut StreamUnordered<S>)
        requires
            old(su).wf(),
        ensures
            final(su).wf(),
            StreamUnordered::<S>::remove_effect(
                *old(su),
                *final(su),
                self.spec_token(),
                old(su).is_member(self.spec_token()),
            ),
    {
        let t = self.token();
        let removed = su.remove(t);
        let _ = removed;
    }

    /// Take the exhausted stream out of its set and return it.
    ///
    /// See [`StreamUnordered::take`].
    pub fn take<S>(self, su: &mut StreamUnordered<S>) -> (r: Option<S>)
        requires
            old(su).wf(),
        ensures
            final(su).wf(),
            StreamUnordered::<S>::remove_effect(
                *old(su),
                *final(su),
                self.spec_token(),
                old(su).is_member(self.spec_token()),
            ),
            r == (if old(su).is_member(self.spec_token()) {
                old(su).spec_stream(self.spec_token())
            } else {
                None::<S>
            }),
    {
        let t = self.token();
        su.take(t)
    }
}

impl<S> StreamUnordered<S> {
    /// The tokens of the current members, most recent insertion first.
    ///
    /// This is the order in which iteration over the membership walks the
    /// members; reservations are included.
    pub fn member_tokens(&self) -> (r: Vec<usize>)
        requires
            self.wf(),
        ensures
            r@ == self.token_order().reverse(),
            r@.len() == self.member_count(),
    {
        let n = self.members.len();
        let mut out: Vec<usize> = Vec::new();
        let mut k: usize = n;
        while k > 0
            invariant
                n == self.members@.len(),
                self.wf(),
                k <= n,
                out@.len() == n - k,
                forall|j: int|
                    0 <= j < out@.len() ==> out@[j] == self.token_order()[n - 1 - j],
            decreases k,
        {
            k = k - 1;
            let idx = self.members[k];
            let tr = &self.tasks[idx];
            out.push(tr.token);
        }
        proof {
            assert(out@ =~= self.token_order().reverse());
        }
        out
    }
}

impl<S> StreamUnordered<S> {
    /// Every token in the membership order names a member.
    proof fn lemma_order_members(&self)
        requires
            self.wf(),
        ensures
            forall|k: int|
                0 <= k < self.token_order().len() ==> self.is_member(
                    #[trigger] self.token_order()[k],
                ),
    {
        assert forall|k: int|
            0 <= k < self.token_order().len() implies self.is_member(
            #[trigger] self.token_order()[k],
        ) by {
            let i = self.members@[k];
            assert(self.tasks@[i as int].live && i != 0);
            assert(self.ids().contains_key(self.tasks@[i as int].token));
            assert(self.tasks@[i as int].token != 0) by {
                if self.tasks@[i as int].token == 0 {
                    assert(self.ids()[0] == 0);
                }
            }
        }
    }

    /// A set that has reported itself exhausted holds no members.
    pub proof fn law_terminated_empty(&self)
        requires
            self.wf(),
        ensures
            self.spec_terminated() ==> self.member_count() == 0,
    {
    }

    /// Member tokens are never zero: token 0 belongs to the stub forever,
    /// so every token a push returns or a yield carries is nonzero.
    pub proof fn law_member_token_nonzero(&self)
        ensures
            forall|t: usize| self.is_member(t) ==> t != 0,
    {
    }

    /// The membership order lists each member exactly once: its length is
    /// the member count, every entry names a member, no entry repeats,
    /// and every member token appears in it.
    pub proof fn law_member_order(&self)
        requires
            self.wf(),
        ensures
            self.token_order().len() == self.member_count(),
            forall|k: int|
                0 <= k < self.token_order().len() ==> self.is_member(
                    #[trigger] self.token_order()[k],
                ),
            forall|k1: int, k2: int|
                0 <= k1 < k2 < self.token_order().len() ==> self.token_order()[k1]
                    != self.token_order()[k2],
            forall|t: usize| #[trigger] self.is_member(t) ==> self.token_order().contains(t),
    {
        self.lemma_order_members();
        assert forall|k1: int, k2: int|
            0 <= k1 < k2 < self.token_order().len() implies self.token_order()[k1]
            != self.token_order()[k2] by {
            let i1 = self.members@[k1];
            let i2 = self.members@[k2];
            assert(i1 != i2);
            if self.tasks@[i1 as int].token == self.tasks@[i2 as int].token {
                assert(self.ids()[self.tasks@[i1 as int].token] == i1);
                assert(self.ids()[self.tasks@[i2 as int].token] == i2);
            }
        }
        assert forall|t: usize| #[trigger] self.is_member(t) implies self.token_order().contains(
            t,
        ) by {
            let i = self.ids()[t];
            assert(self.members@.contains(i));
            let k = choose|k: int| 0 <= k < self.members@.len() && self.members@[k] == i;
            assert(self.token_order()[k] == t);
        }
    }

    /// A token returned by a push names the pushed stream: immediately
    /// afterwards the member is present, unfinished, and holds exactly the
    /// inserted stream, which is what a lookup of the token reads.
    pub proof fn law_push_then_get(pre: Self, post: Self, stream: S, t: usize)
        requires
            Self::push_effect(pre, post, stream, t),
        ensures
            post.is_member(t),
            post.spec_stream(t) == Some(stream),
            !post.spec_done(t),
    {
    }

    /// A token returned by a push is never zero.
    pub proof fn law_push_token_nonzero(pre: Self, post: Self, stream: S, t: usize)
        requires
            Self::push_effect(pre, post, stream, t),
        ensures
            t != 0,
    {
    }

    /// Removing a token twice fails the second time: once a member is
    /// gone, its token names nothing until a later push reuses it.
    pub proof fn law_remove_twice(
        s0: Self,
        s1: Self,
        s2: Self,
        t: usize,
        r1: bool,
        r2: bool,
    )
        requires
            Self::remove_effect(s0, s1, t, r1),
            Self::remove_effect(s1, s2, t, r2),
        ensures
            !r2,
    {
    }

    /// A push followed by a successful removal leaves the member count as
    /// it was: the count tracks pushes minus removals.
    pub proof fn law_push_remove_count(
        s0: Self,
        s1: Self,
        s2: Self,
        stream: S,
        t: usize,
        u: usize,
    )
        requires
            Self::push_effect(s0, s1, stream, t),
            Self::remove_effect(s1, s2, u, true),
        ensures
            s2.member_count() == s0.member_count(),
    {
    }

    /// A token freed by a removal may be reused by a later push; the new
    /// member then holds exactly the new stream with no completion mark
    /// left over from the old one.
    pub proof fn law_reuse_clean(
        s0: Self,
        s1: Self,
        s2: Self,
        t: usize,
        stream2: S,
    )
        requires
            Self::remove_effect(s0, s1, t, true),
            Self::push_effect(s1, s2, stream2, t),
        ensures
            s2.is_member(t),
            s2.spec_stream(t) == Some(stream2),
            !s2.spec_done(t),
    {
    }

    /// Taking a token straight after pushing a stream under it hands the
    /// very stream back.
    pub proof fn law_push_take_roundtrip(
        s0: Self,
        s1: Self,
        stream: S,
        t: usize,
        taken: Option<S>,
    )
        requires
            Self::push_effect(s0, s1, stream, t),
            taken == (if s1.is_member(t) {
                s1.spec_stream(t)
            } else {
                None::<S>
            }),
        ensures
            taken == Some(stream),
    {
    }

    /// A terminated set comes back to life: any push clears the
    /// terminated mark, so polling resumes normal behaviour.
    pub proof fn law_push_resumes(pre: Self, post: Self, stream: S, t: usize)
        requires
            pre.spec_terminated(),
            Self::push_effect(pre, post, stream, t),
        ensures
            !post.spec_terminated(),
    {
    }

    /// Pushing into a set that had reported itself exhausted revives it:
    /// the terminated mark is gone and the new stream is the one member.
    pub proof fn law_push_into_terminated(pre: Self, post: Self, stream: S, t: usize)
        requires
            pre.wf(),
            pre.spec_terminated(),
            Self::push_effect(pre, post, stream, t),
        ensures
            !post.spec_terminated(),
            post.member_count() == 1,
    {
        pre.law_terminated_empty();
    }

    /// Reserving an entry and giving it up without inserting leaves the
    /// set indistinguishable from before the reservation, for every
    /// observation the set offers, the terminated mark included.
    pub proof fn law_entry_cancel_unobservable(s0: Self, s1: Self, s2: Self, t: usize)
        requires
            s0.wf(),
            Self::reserve_effect(s0, s1, t),
            Self::cancel_effect(s1, s2, t, s0.spec_terminated()),
        ensures
            Self::same_observables(s0, s2),
    {
        if s0.spec_terminated() {
            assert(s0.member_count() == 0);
        }
        s0.lemma_order_members();
        assert forall|u: usize| s2.is_member(u) == s0.is_member(u) by {}
        assert forall|u: usize| s2.spec_stream(u) == s0.spec_stream(u) by {
            if u == t {
                assert(!s0.is_member(t) && !s2.is_member(t));
            }
        }
        assert forall|u: usize| s2.spec_done(u) == s0.spec_done(u) by {
            if u == t {
                assert(!s0.is_member(t) && !s2.is_member(t));
            }
        }
        let k = choose|k: int|
            0 <= k < s1.token_order().len() && s1.token_order()[k] == t && s2.token_order()
                == s1.token_order().remove(k);
        assert(!s0.token_order().contains(t)) by {
            if s0.token_order().contains(t) {
                let j = choose|j: int|
                    0 <= j < s0.token_order().len() && s0.token_order()[j] == t;
                assert(s0.is_member(s0.token_order()[j]));
            }
        }
        assert(k == s0.token_order().len()) by {
            if k < s0.token_order().len() {
                assert(s1.token_order()[k] == s0.token_order()[k]);
                assert(s0.token_order().contains(t)) by {
                    assert(s0.token_order()[k] == t);
                }
            }
        }
        assert(s2.token_order() =~= s0.token_order()) by {
            s1.token_order().remove_ensures(k);
        }
    }
}

impl<S> StreamUnordered<S> {
    /// Every observation but the stream stored under `t` reads alike in
    /// the two states, and the membership order is the same.
    pub open spec fn same_but_stream(pre: Self, post: Self, t: usize) -> bool {
        &&& forall|u: usize| post.is_member(u) == pre.is_member(u)
        &&& forall|u: usize| u != t ==> post.spec_stream(u) == pre.spec_stream(u)
        &&& forall|u: usize| post.spec_done(u) == pre.spec_done(u)
        &&& post.member_count() == pre.member_count()
        &&& post.token_order() =~= pre.token_order()
        &&& post.spec_terminated() == pre.spec_terminated()
    }

    /// Returns a reference that allows modifying the stream with the
    /// given token, if the token names a member that has a stream.
    pub fn get_mut(&mut self, token: usize) -> (r: Option<&mut S>)
        requires
            old(self).wf(),
        ensures
            (r is Some <==> (old(self).is_member(token) && old(self).spec_stream(
                token,
            ) is Some)),
            (r is None ==> *final(self) == *old(self)),
            (match r {
                Some(s) => {
                    &&& Some(*s) == old(self).spec_stream(token)
                    &&& final(self).wf()
                    &&& final(self).spec_stream(token) == Some(*final(s))
                    &&& Self::same_but_stream(*old(self), *final(self), token)
                },
                None => true,
            }),
    {
        let ghost pre = *old(self);
        if token == 0 {
            return None;
        }
        let idx = match slab_get(&self.by_id, token) {
            Some(i) => i,
            None => {
                return None;
            },
        };
        let present = self.tasks[idx].stream.is_some();
        if !present {
            return None;
        }
        let tr = &mut self.tasks[idx];
        tr.stream.as_mut()
    }
}

} // verus!
