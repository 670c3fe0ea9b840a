use std::collections::HashMap;

use streamunordered::PollResult;
use streamunordered::PollStream;
use streamunordered::StreamUnordered;
use streamunordered::StreamYield;

/// Yields the same value forever.
struct Forever(i32);

impl PollStream<()> for Forever {
    type Item = i32;

    fn poll_next(&mut self, _cx: &mut (), _token: usize) -> PollResult<Option<i32>> {
        PollResult::Ready(Some(self.0))
    }
}

/// Yields a fixed list of values, then reports its end.
struct Finite {
    items: Vec<i32>,
    pos: usize,
}

impl PollStream<()> for Finite {
    type Item = i32;

    fn poll_next(&mut self, _cx: &mut (), _token: usize) -> PollResult<Option<i32>> {
        if self.pos < self.items.len() {
            let v = self.items[self.pos];
            self.pos += 1;
            PollResult::Ready(Some(v))
        } else {
            PollResult::Ready(None)
        }
    }
}

/// A finite stream of text lines, standing in for one side of a channel.
struct TextStream {
    items: Vec<String>,
    pos: usize,
}

impl PollStream<()> for TextStream {
    type Item = String;

    fn poll_next(&mut self, _cx: &mut (), _token: usize) -> PollResult<Option<String>> {
        if self.pos < self.items.len() {
            let v = self.items[self.pos].clone();
            self.pos += 1;
            PollResult::Ready(Some(v))
        } else {
            PollResult::Ready(None)
        }
    }
}

enum Boxed {
    Forever(Forever),
    Finite(Finite),
}

impl PollStream<()> for Boxed {
    type Item = i32;

    fn poll_next(&mut self, cx: &mut (), token: usize) -> PollResult<Option<i32>> {
        match self {
            Boxed::Forever(s) => s.poll_next(cx, token),
            Boxed::Finite(s) => s.poll_next(cx, token),
        }
    }
}

#[test]
fn no_starvation() {
    let forever0 = Boxed::Forever(Forever(0));
    let forever1 = Boxed::Forever(Forever(1));
    let two = Boxed::Finite(Finite { items: vec![2], pos: 0 });
    let mut s = StreamUnordered::new();
    let forever0 = s.push(forever0);
    let forever1 = s.push(forever1);
    let two = s.push(two);
    let mut collected: Vec<(StreamYield<i32>, usize)> = Vec::new();
    while collected.len() < 100 {
        match s.poll_next(&mut ()) {
            PollResult::Ready(Some(pair)) => collected.push(pair),
            PollResult::Ready(None) => break,
            PollResult::Pending => break,
        }
    }
    assert_eq!(collected.len(), 100);
    let mut s = collected.into_iter();
    let mut got_two = false;
    let mut got_two_end = false;
    while let Some((v, si)) = s.next() {
        if let StreamYield::Item(v) = v {
            if si == two {
                assert_eq!(v, 2);
                got_two = true;
            } else if si == forever0 {
                assert_eq!(v, 0);
            } else if si == forever1 {
                assert_eq!(v, 1);
            } else {
                unreachable!("unknown stream {} yielded {}", si, v);
            }
        } else if si == two {
            got_two_end = true;
        } else {
            unreachable!("unexpected stream end for stream {}", si);
        }
    }
    assert!(got_two, "stream was starved");
    assert!(got_two_end, "stream end was not announced");
}

#[test]
fn items_are_served_in_wake_order() {
    // Two always-ready streams alternate: after a stream yields it goes to
    // the back of the ready queue, so the other one is served first.
    let mut s = StreamUnordered::new();
    let a = s.push(Forever(10));
    let b = s.push(Forever(20));
    let mut order: Vec<usize> = Vec::new();
    for _ in 0..6 {
        match s.poll_next(&mut ()) {
            PollResult::Ready(Some((StreamYield::Item(_), t))) => order.push(t),
            _ => panic!("both streams are always ready"),
        }
    }
    assert_eq!(order, vec![a, b, a, b, a, b]);
}

#[test]
fn echo_bridge() {
    // An external component inserts each input stream into the set and
    // writes every item to the sink registered under the stream's token;
    // a finished input has its entry removed.
    let mut inputs: StreamUnordered<TextStream> = StreamUnordered::new();
    let mut sinks: HashMap<usize, Vec<String>> = HashMap::new();

    let entry = inputs.stream_entry();
    let first = entry.token();
    sinks.insert(first, Vec::new());
    entry.insert(
        &mut inputs,
        TextStream { items: vec![String::from("hello world")], pos: 0 },
    );

    let entry = inputs.stream_entry();
    let second = entry.token();
    sinks.insert(second, Vec::new());
    entry.insert(
        &mut inputs,
        TextStream {
            items: vec![String::from("hello world"), String::from("goodbye world")],
            pos: 0,
        },
    );

    loop {
        match inputs.poll_next(&mut ()) {
            PollResult::Ready(Some((StreamYield::Item(msg), t))) => {
                sinks.get_mut(&t).unwrap().push(msg);
            }
            PollResult::Ready(Some((StreamYield::Finished(f), _))) => {
                f.remove(&mut inputs);
            }
            PollResult::Ready(None) => break,
            PollResult::Pending => panic!("all inputs are always ready"),
        }
    }
    assert_eq!(sinks[&first], vec![String::from("hello world")]);
    assert_eq!(
        sinks[&second],
        vec![String::from("hello world"), String::from("goodbye world")]
    );
    assert!(inputs.is_empty());
}
