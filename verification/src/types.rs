use vstd::prelude::*;

verus! {

/// Result of one poll: either nothing is ready yet, or a value is ready.
///
/// For a member stream the ready value is `Option<Item>`, where `None`
/// means the stream has yielded all the items it ever will.
pub enum PollResult<T> {
    /// Nothing is ready; poll again after the next wake signal.
    Pending,
    /// A value is ready.
    Ready(T),
}

/// A member stream, as the set drives it.
///
/// One poll either yields the next item (`Ready(Some(item))`), reports the
/// end of the stream (`Ready(None)`), or returns `Pending`, in which case
/// the stream is polled again only once a wake signal for the given token
/// reaches the owning set. The member is handed its own token so that its
/// wake signals can be attributed to it.
///
/// The context type `Cx` is chosen by the driver and passed through to the
/// member untouched; the set makes no assumption about it.
pub trait PollStream<Cx> {
    /// The type of the items the stream yields.
    type Item;

    /// Poll the stream once.
    fn poll_next(&mut self, cx: &mut Cx, token: usize) -> PollResult<Option<Self::Item>>;
}

/// A yield of the combined set: an item from a member stream, or the
/// notice that a member stream has finished.
pub enum StreamYield<I> {
    /// A member stream produced an item.
    Item(I),
    /// A member stream has completed; the notice decides its afterlife.
    Finished(FinishedStream),
}

/// One-shot notice that a member stream has yielded all the items it ever
/// will.
///
/// The finished member is not removed from its set by the yield itself: the
/// holder of this notice chooses between [`FinishedStream::remove`],
/// [`FinishedStream::take`] and [`FinishedStream::keep`]. Keeping the
/// notice around without acting is the same as [`FinishedStream::keep`].
#[must_use]
pub struct FinishedStream {
    pub(crate) token: usize,
}

impl FinishedStream {
    /// The token of the finished member.
    pub closed spec fn spec_token(&self) -> usize {
        self.token
    }

    pub(crate) fn new(token: usize) -> (f: FinishedStream)
        ensures
            f.spec_token() == token,
    {
        FinishedStream { token }
    }

    /// Leave the finished stream in its set.
    ///
    /// The stream stays reachable through [`crate::StreamUnordered::get`]
    /// and keeps its token until it is explicitly removed or taken.
    pub fn keep(self) {
    }

    /// Return the token of the finished stream.
    pub fn token(self) -> (r: usize)
        ensures
            r == self.spec_token(),
    {
        self.token
    }
}

/// A reserved slot of a set, exposing its token before the stream value is
/// supplied.
///
/// The reservation counts as a member without a stream: it has a token, it
/// is counted by `len`, and nothing is polled for it. Supply the stream
/// with [`StreamEntry::insert`], or give the reservation up with
/// [`StreamEntry::cancel`], which leaves the set as it was before the
/// reservation was made, its terminated mark included. A handle that is
/// merely dropped unwinds nothing: the reservation then stays in the set
/// until its token is removed.
#[must_use]
pub struct StreamEntry {
    pub(crate) token: usize,
    pub(crate) was_terminated: bool,
}

impl StreamEntry {
    /// The token this reservation holds.
    pub closed spec fn spec_token(&self) -> usize {
        self.token
    }

    /// Whether the set had reported itself exhausted when this
    /// reservation was made. Giving the reservation up restores that
    /// state, so an abandoned reservation leaves no trace at all.
    pub closed spec fn spec_was_terminated(&self) -> bool {
        self.was_terminated
    }

    pub(crate) fn was_terminated_flag(&self) -> (r: bool)
        ensures
            r == self.spec_was_terminated(),
    {
        self.was_terminated
    }

    pub(crate) fn new(token: usize, was_terminated: bool) -> (e: StreamEntry)
        ensures
            e.spec_token() == token,
            e.spec_was_terminated() == was_terminated,
    {
        StreamEntry { token, was_terminated }
    }

    /// Return the token associated with this slot.
    ///
    /// A stream stored in this slot will be associated with this token.
    pub fn token(&self) -> (r: usize)
        ensures
            r == self.spec_token(),
    {
        self.token
    }
}

} // verus!
