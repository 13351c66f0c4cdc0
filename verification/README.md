# market_square

A bounded "market square" for broadcasting messages: any number of writers, any number of readers
up to a capacity that is chosen in advance, and all of them free to come and go. It is written in
Rust and verified with [Verus](https://github.com/verus-lang/verus).

- A reader that enters hears every message that is published from there on, in order and once.
- A message is kept until no active reader can still get at it. A reader that suspends itself gives
  up its claim, and learns when it resumes from where on it can read again.
- Writers reserve slots of a ring buffer, fill them in place, and publish them in the order in which
  they were reserved, one by one or in batches.
- Anyone can clean up at any time. Somebody has to do so from time to time, or there will be no free
  slots left.

```rust
use market_square::area::area;

let (mut inner, writer, mut reader) = area(16, 4);

let mut reservation = writer.reserve::<()>(&mut inner, 1).unwrap();
reservation.get_mut(&mut inner, 0).unwrap().write("fresh figs");
reservation.publish_spin(&mut inner);

let slice = reader.read(&inner);
assert_eq!(slice.get(&inner, 0), Some(&"fresh figs"));
slice.drop(&mut inner);
```

## Layout

- `src/` is the verified library. Each operation is a task that goes from stage to stage, with one
  access to shared memory at a time (`tasks.rs`), and decides by the functions of `steps.rs`.
  `area.rs`, `map.rs` and `handles.rs` carry the tasks out on plain memory, for one participant at a
  time, with contracts over the model in `model.rs`. `laws.rs` states what holds of every area, and
  `history.rs` what many calls come to: what the cleanups drop, what a reader hears, and who leaves
  last. `protocol.rs`, `simulation.rs`, `tournament.rs` and `ending.rs` do so for any number of
  participants that act at once, whatever the order of their steps.
- `app/` carries the same tasks out on atomics, so that handles can be shared between threads. It is
  not verified: nothing proves that it does what the tasks ask for, nor that its memory orderings are
  strong enough. The laws take it that all accesses to shared memory happen in one order that
  everybody sees.
- `tests/` runs the library.

## What the laws leave out

- A reader that leaves looks at one reader slot after the other to see whether others are there. If
  another reader is let in behind it while the one who let it in gives up a slot ahead of it, it finds
  nobody, although somebody is there. `tournament.rs` and `ending.rs` speak of this too, up to where it
  does harm: where such a reader takes the readers' last step while another one is still there.
- A capacity that is no power of two makes the ring buffer jump when the counter of generations starts
  again. The laws on messages hold up to there, and always for powers of two.
- A participant that does not finish a step while the others go on by a quarter of the counter.
- A reader that resumes at, or advances to, what is not published yet.
