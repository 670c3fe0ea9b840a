use streamunordered::PollResult;
use streamunordered::PollStream;
use streamunordered::StreamUnordered;
use streamunordered::StreamYield;

/// Yields its item once, then reports its end.
struct OnceStream {
    item: Option<i32>,
}

impl PollStream<()> for OnceStream {
    type Item = i32;

    fn poll_next(&mut self, _cx: &mut (), _token: usize) -> PollResult<Option<i32>> {
        match self.item.take() {
            Some(v) => PollResult::Ready(Some(v)),
            None => PollResult::Ready(None),
        }
    }
}

/// Yields a fixed list of items in order, then reports its end.
struct ListStream {
    items: Vec<i32>,
    pos: usize,
}

impl ListStream {
    fn new(items: Vec<i32>) -> Self {
        ListStream { items, pos: 0 }
    }
}

impl PollStream<()> for ListStream {
    type Item = i32;

    fn poll_next(&mut self, _cx: &mut (), _token: usize) -> PollResult<Option<i32>> {
        if self.pos < self.items.len() {
            let v = self.items[self.pos];
            self.pos += 1;
            PollResult::Ready(Some(v))
        } else {
            PollResult::Ready(None)
        }
    }
}

/// Never yields anything.
struct PendingStream;

impl PollStream<()> for PendingStream {
    type Item = i32;

    fn poll_next(&mut self, _cx: &mut (), _token: usize) -> PollResult<Option<i32>> {
        PollResult::Pending
    }
}

#[test]
fn push_then_get_finds_stream() {
    let mut s: StreamUnordered<ListStream> = StreamUnordered::new();
    let t = s.push(ListStream::new(vec![7, 8]));
    assert!(t != 0);
    let got = s.get(t).expect("pushed stream must be reachable");
    assert_eq!(got.items, vec![7, 8]);
    assert!(s.get(0).is_none());
    assert!(s.get(t + 1).is_none());
}

#[test]
fn remove_twice_returns_false() {
    let mut s: StreamUnordered<OnceStream> = StreamUnordered::new();
    let t = s.push(OnceStream { item: Some(1) });
    assert!(s.remove(t));
    assert!(!s.remove(t));
    assert!(s.get(t).is_none());
    assert!(!s.remove(0));
}

#[test]
fn len_counts_pushes_minus_removes() {
    let mut s: StreamUnordered<OnceStream> = StreamUnordered::new();
    assert_eq!(s.len(), 0);
    assert!(s.is_empty());
    let a = s.push(OnceStream { item: Some(1) });
    let b = s.push(OnceStream { item: Some(2) });
    let c = s.push(OnceStream { item: Some(3) });
    assert_eq!(s.len(), 3);
    assert!(s.remove(b));
    assert_eq!(s.len(), 2);
    let taken = s.take(c);
    assert!(taken.is_some());
    assert_eq!(s.len(), 1);
    assert!(s.remove(a));
    assert_eq!(s.len(), 0);
    assert!(s.is_empty());
}

#[test]
fn tokens_are_never_zero() {
    let mut s: StreamUnordered<OnceStream> = StreamUnordered::new();
    for i in 0..50 {
        let t = s.push(OnceStream { item: Some(i) });
        assert!(t != 0);
        if i % 3 == 0 {
            assert!(s.remove(t));
        }
    }
}

#[test]
fn freed_token_is_reused_without_residue() {
    let mut s: StreamUnordered<ListStream> = StreamUnordered::new();
    let t = s.push(ListStream::new(vec![1]));
    // Drive the first stream to its end so that it carries a finished mark.
    let y = s.poll_next(&mut ());
    assert!(matches!(y, PollResult::Ready(Some((StreamYield::Item(1), tok))) if tok == t));
    let y = s.poll_next(&mut ());
    match y {
        PollResult::Ready(Some((StreamYield::Finished(f), tok))) => {
            assert_eq!(tok, t);
            f.keep();
        }
        _ => panic!("expected the finished notice"),
    }
    assert_eq!(s.is_finished(t), Some(true));
    assert!(s.remove(t));
    let t2 = s.push(ListStream::new(vec![9]));
    assert_eq!(t2, t, "the freed token is handed out again");
    assert_eq!(s.is_finished(t2), Some(false));
    assert_eq!(s.get(t2).unwrap().items, vec![9]);
}

#[test]
fn finished_mark_follows_the_terminal_yield() {
    let mut s: StreamUnordered<OnceStream> = StreamUnordered::new();
    let t = s.push(OnceStream { item: Some(5) });
    assert_eq!(s.is_finished(t), Some(false));
    let y = s.poll_next(&mut ());
    assert!(matches!(y, PollResult::Ready(Some((StreamYield::Item(5), _)))));
    assert_eq!(s.is_finished(t), Some(false));
    let y = s.poll_next(&mut ());
    match y {
        PollResult::Ready(Some((StreamYield::Finished(f), tok))) => {
            assert_eq!(tok, t);
            f.keep();
        }
        _ => panic!("expected the finished notice"),
    }
    assert_eq!(s.is_finished(t), Some(true));
    assert_eq!(s.is_finished(0), None);
    assert_eq!(s.is_finished(t + 7), None);
}

#[test]
fn entry_reservation_cancel_leaves_no_trace() {
    let mut s: StreamUnordered<OnceStream> = StreamUnordered::new();
    let before_len = s.len();
    let e = s.stream_entry();
    let t = e.token();
    assert_eq!(s.len(), 1);
    e.cancel(&mut s);
    assert_eq!(s.len(), before_len);
    assert!(s.get(t).is_none());
    assert_eq!(s.is_finished(t), None);
    // A later push may reuse the reserved token.
    let t2 = s.push(OnceStream { item: Some(1) });
    assert_eq!(t2, t);
}

#[test]
fn entry_cancel_restores_termination() {
    let mut s: StreamUnordered<OnceStream> = StreamUnordered::new();
    let y = s.poll_next(&mut ());
    assert!(matches!(y, PollResult::Ready(None)));
    assert!(s.is_terminated());
    // A reservation revives the set; giving it up restores the mark.
    let e = s.stream_entry();
    assert!(!s.is_terminated());
    e.cancel(&mut s);
    assert!(s.is_terminated());
    assert_eq!(s.len(), 0);
}

#[test]
fn entry_insert_makes_stream_pollable() {
    let mut s: StreamUnordered<OnceStream> = StreamUnordered::new();
    let e = s.stream_entry();
    let t = e.token();
    assert_eq!(s.len(), 1);
    assert!(s.get(t).is_none(), "a reservation holds no stream yet");
    e.insert(&mut s, OnceStream { item: Some(13) });
    assert!(s.get(t).is_some());
    let y = s.poll_next(&mut ());
    assert!(matches!(y, PollResult::Ready(Some((StreamYield::Item(13), tok))) if tok == t));
}

#[test]
fn push_take_round_trip_preserves_stream() {
    let mut s: StreamUnordered<ListStream> = StreamUnordered::new();
    let t = s.push(ListStream::new(vec![7, 8]));
    let mut back = s.take(t).expect("the pushed stream comes back");
    assert!(s.get(t).is_none());
    assert_eq!(s.len(), 0);
    // The returned stream still behaves as the one that went in.
    assert!(matches!(back.poll_next(&mut (), 0), PollResult::Ready(Some(7))));
    assert!(matches!(back.poll_next(&mut (), 0), PollResult::Ready(Some(8))));
    assert!(matches!(back.poll_next(&mut (), 0), PollResult::Ready(None)));
}

#[test]
fn empty_poll_terminates_and_push_resumes() {
    let mut s: StreamUnordered<OnceStream> = StreamUnordered::new();
    assert!(!s.is_terminated());
    let y = s.poll_next(&mut ());
    assert!(matches!(y, PollResult::Ready(None)));
    assert!(s.is_terminated());
    assert_eq!(s.len(), 0);
    let t = s.push(OnceStream { item: Some(4) });
    assert!(!s.is_terminated());
    let y = s.poll_next(&mut ());
    assert!(matches!(y, PollResult::Ready(Some((StreamYield::Item(4), tok))) if tok == t));
}

#[test]
fn single_round_trip_with_removal() {
    let mut s: StreamUnordered<OnceStream> = StreamUnordered::new();
    let t = s.push(OnceStream { item: Some(42) });
    let y = s.poll_next(&mut ());
    assert!(matches!(y, PollResult::Ready(Some((StreamYield::Item(42), tok))) if tok == t));
    let y = s.poll_next(&mut ());
    match y {
        PollResult::Ready(Some((StreamYield::Finished(f), tok))) => {
            assert_eq!(tok, t);
            f.remove(&mut s);
        }
        _ => panic!("expected the finished notice"),
    }
    let y = s.poll_next(&mut ());
    assert!(matches!(y, PollResult::Ready(None)), "no members are left");
}

#[test]
fn retained_member_leaves_set_pending() {
    let mut s: StreamUnordered<OnceStream> = StreamUnordered::new();
    let t = s.push(OnceStream { item: Some(42) });
    let y = s.poll_next(&mut ());
    assert!(matches!(y, PollResult::Ready(Some((StreamYield::Item(42), _)))));
    let y = s.poll_next(&mut ());
    match y {
        PollResult::Ready(Some((StreamYield::Finished(f), _))) => f.keep(),
        _ => panic!("expected the finished notice"),
    }
    assert_eq!(s.is_finished(t), Some(true));
    assert!(s.get(t).is_some());
    assert_eq!(s.len(), 1);
    let y = s.poll_next(&mut ());
    assert!(matches!(y, PollResult::Pending));
}

#[test]
fn remove_in_flight_drains_cleanly() {
    let mut s: StreamUnordered<PendingStream> = StreamUnordered::new();
    let t = s.push(PendingStream);
    assert!(s.remove(t));
    let y = s.poll_next(&mut ());
    assert!(matches!(y, PollResult::Ready(None)), "no members are left");
    assert!(s.is_terminated());
}

#[test]
fn get_mut_reaches_the_stored_stream() {
    let mut s: StreamUnordered<ListStream> = StreamUnordered::new();
    let t = s.push(ListStream::new(vec![1]));
    {
        let m = s.get_mut(t).expect("member stream");
        m.items.push(2);
    }
    assert_eq!(s.get(t).unwrap().items, vec![1, 2]);
    assert!(s.get_mut(0).is_none());
    assert!(s.get_mut(t + 5).is_none());
}

#[test]
fn from_streams_pushes_in_order() {
    let s = StreamUnordered::from_streams(vec![
        ListStream::new(vec![1]),
        ListStream::new(vec![2]),
        ListStream::new(vec![3]),
    ]);
    assert_eq!(s.len(), 3);
    assert!(!s.is_terminated());
    let tokens = s.member_tokens();
    assert_eq!(tokens.len(), 3);
    // Iteration is newest first; the oldest insertion holds the first list.
    assert_eq!(s.get(tokens[2]).unwrap().items, vec![1]);
    assert_eq!(s.get(tokens[1]).unwrap().items, vec![2]);
    assert_eq!(s.get(tokens[0]).unwrap().items, vec![3]);
}

#[test]
fn member_tokens_walk_newest_first() {
    let mut s: StreamUnordered<OnceStream> = StreamUnordered::new();
    let a = s.push(OnceStream { item: Some(1) });
    let b = s.push(OnceStream { item: Some(2) });
    let c = s.push(OnceStream { item: Some(3) });
    assert_eq!(s.member_tokens(), vec![c, b, a]);
    assert!(s.remove(b));
    assert_eq!(s.member_tokens(), vec![c, a]);
}

#[test]
fn wake_reschedules_a_drained_member() {
    let mut s: StreamUnordered<ListStream> = StreamUnordered::new();
    let t = s.push(ListStream::new(vec![6]));
    let y = s.poll_next(&mut ());
    assert!(matches!(y, PollResult::Ready(Some((StreamYield::Item(6), _)))));
    let y = s.poll_next(&mut ());
    match y {
        PollResult::Ready(Some((StreamYield::Finished(f), _))) => assert_eq!(f.token(), t),
        _ => panic!("expected the finished notice"),
    }
    // The member is kept; a stray wake for it is ignored by the next poll.
    s.wake(t);
    let y = s.poll_next(&mut ());
    assert!(matches!(y, PollResult::Pending));
}

/// Pends a given number of polls, then yields one value and ends.
struct SlowStream {
    pends: usize,
    value: i32,
    yielded: bool,
}

impl PollStream<()> for SlowStream {
    type Item = i32;

    fn poll_next(&mut self, _cx: &mut (), _token: usize) -> PollResult<Option<i32>> {
        if self.pends > 0 {
            self.pends -= 1;
            PollResult::Pending
        } else if !self.yielded {
            self.yielded = true;
            PollResult::Ready(Some(self.value))
        } else {
            PollResult::Ready(None)
        }
    }
}

#[test]
fn wake_drives_repoll() {
    let mut s: StreamUnordered<SlowStream> = StreamUnordered::new();
    let t = s.push(SlowStream { pends: 1, value: 9, yielded: false });
    // The first poll reaches the stream, which is not ready yet.
    assert!(matches!(s.poll_next(&mut ()), PollResult::Pending));
    // Without a wake signal the stream is not polled again.
    assert!(matches!(s.poll_next(&mut ()), PollResult::Pending));
    // A wake signal reschedules it and the next poll collects the item.
    s.wake(t);
    let y = s.poll_next(&mut ());
    assert!(matches!(y, PollResult::Ready(Some((StreamYield::Item(9), tok))) if tok == t));
}
